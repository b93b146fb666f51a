//! Arguments of the commands, and the words for what goes wrong with text and ids.

use vstd::prelude::*;

use crate::error::{LoadError, Refusal};
use crate::gguf::value::{debug_text, quoted, texts};
use crate::text::{
    char_lists, chars_of, fields, number_of, read_number, split_fields, string_of, trim, trimmed,
    NumberError,
};
use crate::tokenizer::gpt2::{TokenError, TokenFault};

verus! {

/// The words for a text that is no number.
pub open spec fn number_fault(e: NumberError) -> Seq<char> {
    match e {
        NumberError::Empty => "cannot parse integer from empty string"@,
        NumberError::NotADigit => "invalid digit found in string"@,
        NumberError::TooLarge => "number too large to fit in target type"@,
    }
}

fn number_words(e: NumberError) -> (res: &'static str)
    ensures
        res@ == number_fault(e),
{
    match e {
        NumberError::Empty => "cannot parse integer from empty string",
        NumberError::NotADigit => "invalid digit found in string",
        NumberError::TooLarge => "number too large to fit in target type",
    }
}

/// The ids that fields stand for, or the refusal of the first that is none. White space around a
/// field does not count.
pub open spec fn ids_of(parts: Seq<Seq<char>>) -> Result<Seq<u32>, Refusal>
    decreases parts.len(),
{
    if parts.len() == 0 {
        Ok(Seq::empty())
    } else {
        match ids_of(parts.drop_last()) {
            Err(e) => Err(e),
            Ok(ids) => match number_of(trimmed(parts.last()), u32::MAX as nat) {
                Ok(n) => Ok(ids.push(n as u32)),
                Err(e) => Err(
                    Refusal::BadFile(
                        "token inválido '"@ + parts.last() + "': "@ + number_fault(e),
                    ),
                ),
            },
        }
    }
}

proof fn lemma_ids_refused(parts: Seq<Seq<char>>, k: int)
    requires
        0 <= k <= parts.len(),
        ids_of(parts.take(k)) is Err,
    ensures
        ids_of(parts) == ids_of(parts.take(k)),
    decreases parts.len(),
{
    if k == parts.len() {
        assert(parts.take(k) =~= parts);
    } else {
        assert(parts.drop_last().take(k) =~= parts.take(k));
        lemma_ids_refused(parts.drop_last(), k);
    }
}

/// Reads token ids with commas between them.
pub fn parse_tokens(list: &str) -> (res: Result<Vec<u32>, LoadError>)
    ensures
        match ids_of(fields(list@, ',')) {
            Ok(ids) => res is Ok && res->Ok_0@ == ids,
            Err(e) => res is Err && res->Err_0@ == e,
        },
{
    let chars = chars_of(list);
    let parts = split_fields(chars.as_slice(), ',');
    let ghost all = fields(list@, ',');
    let mut ids: Vec<u32> = Vec::new();
    let mut i: usize = 0;
    proof {
        assert(all.take(0) =~= Seq::<Seq<char>>::empty());
    }
    while i < parts.len()
        invariant
            all == fields(list@, ','),
            all == char_lists(parts@),
            i <= parts@.len(),
            ids_of(all.take(i as int)) == Ok::<Seq<u32>, Refusal>(ids@),
        decreases parts@.len() - i,
    {
        proof {
            assert(all.take(i + 1).drop_last() =~= all.take(i as int));
            assert(all.take(i + 1).last() == parts@[i as int]@);
        }
        match read_number(trim(parts[i].as_slice()), u32::MAX as u64) {
            Ok(n) => {
                ids.push(n as u32);
            },
            Err(e) => {
                let mut m = String::from_str("token inválido '");
                m.append(string_of(parts[i].as_slice()).as_str());
                m.append("': ");
                m.append(number_words(e));
                proof {
                    lemma_ids_refused(all, i + 1);
                }
                return Err(LoadError::corrupt(m));
            },
        }
        i += 1;
    }
    proof {
        assert(all.take(i as int) =~= all);
    }
    Ok(ids)
}

/// The refusal of a text that cannot be encoded.
pub open spec fn encode_refusal(e: TokenFault) -> Refusal {
    match e {
        TokenFault::PieceMissing(p) => Refusal::BadFile(
            "encode: pieza "@ + quoted(p) + " fuera del vocab (fallback por char incluido)"@,
        ),
        other => Refusal::BadFile("encode: "@ + other.message()),
    }
}

/// The error of a text that cannot be encoded.
pub fn refuse_encoding(e: &TokenError) -> (res: LoadError)
    ensures
        res@ == encode_refusal(e@),
{
    match e {
        TokenError::PieceMissing(p) => {
            let mut m = String::from_str("encode: pieza ");
            m.append(debug_text(p.as_str()).as_str());
            m.append(" fuera del vocab (fallback por char incluido)");
            LoadError::corrupt(m)
        },
        _ => {
            let mut m = String::from_str("encode: ");
            m.append(e.message().as_str());
            LoadError::corrupt(m)
        },
    }
}

/// The error of ids that cannot be decoded.
pub fn refuse_decoding(e: &TokenError) -> (res: LoadError)
    ensures
        res@ == Refusal::BadFile("decode: "@ + e@.message()),
{
    let mut m = String::from_str("decode: ");
    m.append(e.message().as_str());
    LoadError::corrupt(m)
}

// ---- Files ----------------------------------------------------------------------------------

/// The order of texts: by their first different character, and a beginning before the whole.
pub open spec fn comes_first(a: Seq<char>, b: Seq<char>) -> bool
    decreases a.len(),
{
    if b.len() == 0 {
        false
    } else if a.len() == 0 {
        true
    } else if a[0] == b[0] {
        comes_first(a.skip(1), b.skip(1))
    } else {
        a[0] < b[0]
    }
}

/// A name with something before `.gguf`.
pub open spec fn is_model(name: Seq<char>) -> bool {
    name.len() > 5 && name.skip(name.len() - 5) == ".gguf"@
}

/// The place of the model whose name comes first, among the first `n` names.
pub open spec fn first_model(names: Seq<Seq<char>>, n: nat) -> Option<int>
    decreases n,
{
    if n == 0 {
        None
    } else {
        let name = names[n - 1];
        match first_model(names, (n - 1) as nat) {
            None => if is_model(name) {
                Some(n - 1)
            } else {
                None
            },
            Some(best) => if is_model(name) && comes_first(name, names[best]) {
                Some(n - 1)
            } else {
                Some(best)
            },
        }
    }
}

proof fn lemma_order_carries(a: Seq<char>, b: Seq<char>, c: Seq<char>)
    requires
        comes_first(a, b),
        comes_first(b, c),
    ensures
        comes_first(a, c),
    decreases a.len(),
{
    if a.len() > 0 && a[0] == b[0] && b[0] == c[0] {
        lemma_order_carries(a.skip(1), b.skip(1), c.skip(1));
    }
}

/// The chosen name is that of a model, and no other model's name comes before it.
pub proof fn law_chosen_model_comes_first(names: Seq<Seq<char>>, n: nat)
    requires
        n <= names.len(),
    ensures
        match first_model(names, n) {
            Some(i) => {
                &&& 0 <= i < n
                &&& is_model(names[i])
                &&& forall|j: int|
                    0 <= j < n && is_model(#[trigger] names[j]) ==> !comes_first(
                        names[j],
                        names[i],
                    )
            },
            None => forall|j: int| 0 <= j < n ==> !is_model(#[trigger] names[j]),
        },
    decreases n,
{
    if n > 0 {
        law_chosen_model_comes_first(names, (n - 1) as nat);
        let name = names[n - 1];
        lemma_not_before_itself(name);
        if let Some(best) = first_model(names, (n - 1) as nat) {
            if is_model(name) && comes_first(name, names[best]) {
                assert forall|j: int| 0 <= j < n && is_model(#[trigger] names[j]) implies
                    !comes_first(names[j], name) by {
                    if comes_first(names[j], name) {
                        lemma_order_carries(names[j], name, names[best]);
                    }
                }
            }
        }
    }
}

proof fn lemma_not_before_itself(a: Seq<char>)
    ensures
        !comes_first(a, a),
    decreases a.len(),
{
    if a.len() > 0 {
        lemma_not_before_itself(a.skip(1));
    }
}

fn before(a: &[char], b: &[char]) -> (res: bool)
    ensures
        res == comes_first(a@, b@),
{
    let mut i: usize = 0;
    proof {
        assert(a@.skip(0) =~= a@);
        assert(b@.skip(0) =~= b@);
    }
    while i < a.len() && i < b.len()
        invariant
            i <= a@.len(),
            i <= b@.len(),
            comes_first(a@, b@) == comes_first(a@.skip(i as int), b@.skip(i as int)),
        decreases a@.len() - i,
    {
        proof {
            assert(a@.skip(i as int)[0] == a@[i as int]);
            assert(b@.skip(i as int)[0] == b@[i as int]);
            assert(a@.skip(i as int).skip(1) =~= a@.skip(i + 1));
            assert(b@.skip(i as int).skip(1) =~= b@.skip(i + 1));
        }
        if a[i] != b[i] {
            return a[i] < b[i];
        }
        i += 1;
    }
    i < b.len()
}

fn names_model(name: &[char]) -> (res: bool)
    ensures
        res == is_model(name@),
{
    let n: usize = name.len();
    proof {
        reveal_strlit(".gguf");
        if n > 5 {
            let tail = name@.skip(n - 5);
            if tail[0] == '.' && tail[1] == 'g' && tail[2] == 'g' && tail[3] == 'u' && tail[4] == 'f' {
                assert(tail =~= ".gguf"@);
            }
        }
    }
    n > 5 && name[n - 5] == '.' && name[n - 4] == 'g' && name[n - 3] == 'g' && name[n - 2] == 'u'
        && name[n - 1] == 'f'
}

/// The model to take from a directory: of the names that end in `.gguf`, the one that comes
/// first.
pub fn choose_file(names: &[String]) -> (res: Option<usize>)
    ensures
        match first_model(texts(names@), names@.len()) {
            Some(i) => res is Some && res->0 == i,
            None => res is None,
        },
{
    let ghost all = texts(names@);
    let mut best: Option<usize> = None;
    let mut i: usize = 0;
    while i < names.len()
        invariant
            all == texts(names@),
            i <= names@.len(),
            match first_model(all, i as nat) {
                Some(b) => best is Some && best->0 == b && b < i,
                None => best is None,
            },
        decreases names@.len() - i,
    {
        let name = chars_of(names[i].as_str());
        proof {
            assert(all[i as int] == name@);
        }
        if names_model(name.as_slice()) {
            let better = match best {
                None => true,
                Some(b) => {
                    let other = chars_of(names[b].as_str());
                    proof {
                        assert(all[b as int] == other@);
                    }
                    before(name.as_slice(), other.as_slice())
                },
            };
            if better {
                best = Some(i);
            }
        }
        i += 1;
    }
    best
}

} // verus!

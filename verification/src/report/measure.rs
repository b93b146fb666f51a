//! Reading what the system says of the running process.

use vstd::prelude::*;

use crate::text::{
    char_lists, chars_of, fields, number_of, read_number, same, split_fields, split_words_at_white,
    string_of, words,
};

verus! {

/// What was measured. Nothing is made up: what was not reported is absent.
#[derive(Debug, Clone, Copy, PartialEq, Eq, Structural)]
pub struct Measures {
    /// The greatest resident memory.
    pub peak: Option<u64>,
    /// The resident memory now.
    pub now: Option<u64>,
    /// The bytes read.
    pub read: Option<u64>,
}

/// The number in word `i` of a line, if there is one.
pub open spec fn word_number(line: Seq<Seq<char>>, i: int) -> Option<u64> {
    if i < line.len() {
        match number_of(line[i], u64::MAX as nat) {
            Ok(n) => Some(n as u64),
            Err(_) => None,
        }
    } else {
        None
    }
}

/// What is known after a line: `RSS` brings the greatest and the present memory, `IO` the bytes
/// read; any other line brings nothing.
pub open spec fn after_line(m: Measures, line: Seq<Seq<char>>) -> Measures {
    if line.len() > 0 && line[0] == "RSS"@ {
        Measures { peak: word_number(line, 1), now: word_number(line, 2), ..m }
    } else if line.len() > 0 && line[0] == "IO"@ {
        Measures { read: word_number(line, 1), ..m }
    } else {
        m
    }
}

/// What is known after lines.
pub open spec fn after_lines(lines: Seq<Seq<char>>) -> Measures
    decreases lines.len(),
{
    if lines.len() == 0 {
        Measures { peak: None, now: None, read: None }
    } else {
        after_line(after_lines(lines.drop_last()), words(lines.last()))
    }
}

fn number_at(line: &Vec<Vec<char>>, i: usize) -> (res: Option<u64>)
    ensures
        res == word_number(char_lists(line@), i as int),
{
    if i < line.len() {
        match read_number(line[i].as_slice(), u64::MAX) {
            Ok(n) => Some(n),
            Err(_) => None,
        }
    } else {
        None
    }
}

/// Reads a report, line by line.
pub fn parse_measures(report: &str) -> (res: Measures)
    ensures
        res == after_lines(fields(report@, '\n')),
{
    let chars = chars_of(report);
    let lines = split_fields(chars.as_slice(), '\n');
    let ghost all = char_lists(lines@);
    let mut m = Measures { peak: None, now: None, read: None };
    let mut i: usize = 0;
    proof {
        assert(all.take(0) =~= Seq::<Seq<char>>::empty());
    }
    while i < lines.len()
        invariant
            all == char_lists(lines@),
            i <= lines@.len(),
            m == after_lines(all.take(i as int)),
        decreases lines@.len() - i,
    {
        proof {
            assert(all.take(i + 1).drop_last() =~= all.take(i as int));
            assert(all.take(i + 1).last() == lines@[i as int]@);
        }
        let line = split_words_at_white(lines[i].as_slice());
        proof {
            assert(line@.len() > 0 ==> char_lists(line@)[0] == line@[0]@);
        }
        if line.len() > 0 {
            let first = string_of(line[0].as_slice());
            if same(first.as_str(), "RSS") {
                m = Measures { peak: number_at(&line, 1), now: number_at(&line, 2), read: m.read };
            } else if same(first.as_str(), "IO") {
                m = Measures { peak: m.peak, now: m.now, read: number_at(&line, 1) };
            }
        }
        i += 1;
    }
    proof {
        assert(all.take(i as int) =~= all);
    }
    m
}

} // verus!

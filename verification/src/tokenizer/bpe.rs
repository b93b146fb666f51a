//! Merging symbols by rank.

use vstd::hash_map::StringHashMap;
use vstd::prelude::*;

use crate::text::string_of;

verus! {

/// The two sides of a merge line: what stands before its first space and what behind.
pub open spec fn sides(line: Seq<char>) -> Option<(Seq<char>, Seq<char>)> {
    if line.contains(' ') {
        let k = line.index_of_first(' ')->0;
        Some((line.take(k), line.skip(k + 1)))
    } else {
        None
    }
}

/// A merge line that names the pair `l`, `r`.
pub open spec fn names_pair(line: Seq<char>, l: Seq<char>, r: Seq<char>) -> bool {
    sides(line) == Some((l, r))
}

/// Line `i` is the first to name the pair.
pub open spec fn first_naming(lines: Seq<Seq<char>>, l: Seq<char>, r: Seq<char>, i: int) -> bool {
    &&& 0 <= i < lines.len()
    &&& names_pair(lines[i], l, r)
    &&& forall|j: int| 0 <= j < i ==> !names_pair(#[trigger] lines[j], l, r)
}

/// The rank of a pair: the number of the first line that names it.
pub open spec fn rank_of(lines: Seq<Seq<char>>, l: Seq<char>, r: Seq<char>) -> Option<u32> {
    if exists|i: int| first_naming(lines, l, r, i) {
        Some((choose|i: int| first_naming(lines, l, r, i)) as u32)
    } else {
        None
    }
}

/// The rank of the pair at `i` and `i + 1`.
pub open spec fn rank_at(lines: Seq<Seq<char>>, symbols: Seq<Seq<char>>, i: int) -> Option<u32> {
    if 0 <= i && i + 1 < symbols.len() {
        rank_of(lines, symbols[i], symbols[i + 1])
    } else {
        None
    }
}

/// The pair at `i` is the one to merge next: none has a lower rank, and none further left has
/// the same.
pub open spec fn next_merge(lines: Seq<Seq<char>>, symbols: Seq<Seq<char>>, i: int) -> bool {
    &&& rank_at(lines, symbols, i) is Some
    &&& forall|j: int|
        (#[trigger] rank_at(lines, symbols, j)) is Some ==> rank_at(lines, symbols, i)->0 < rank_at(
            lines,
            symbols,
            j,
        )->0 || (rank_at(lines, symbols, i)->0 == rank_at(lines, symbols, j)->0 && i <= j)
}

/// The symbols with those at `i` and `i + 1` joined.
pub open spec fn joined_at(symbols: Seq<Seq<char>>, i: int) -> Seq<Seq<char>> {
    symbols.take(i).push(symbols[i] + symbols[i + 1]) + symbols.skip(i + 2)
}

/// The symbols once nothing is left to merge, one pair joined at a time.
pub open spec fn merged(lines: Seq<Seq<char>>, symbols: Seq<Seq<char>>) -> Seq<Seq<char>>
    decreases symbols.len(),
{
    if exists|i: int| next_merge(lines, symbols, i) {
        let i = choose|i: int| next_merge(lines, symbols, i);
        if 0 <= i && i + 1 < symbols.len() {
            merged(lines, joined_at(symbols, i))
        } else {
            symbols
        }
    } else {
        symbols
    }
}

/// At most one pair is next.
proof fn lemma_next_merge_unique(lines: Seq<Seq<char>>, symbols: Seq<Seq<char>>, i: int, j: int)
    requires
        next_merge(lines, symbols, i),
        next_merge(lines, symbols, j),
    ensures
        i == j,
{
    assert(rank_at(lines, symbols, i) is Some);
    assert(rank_at(lines, symbols, j) is Some);
}

/// Merging keeps the text: the symbols put together are the same before and after. At its end no
/// two neighbours have a rank.
pub proof fn law_merging_keeps_text(lines: Seq<Seq<char>>, symbols: Seq<Seq<char>>)
    ensures
        merged(lines, symbols).flatten() == symbols.flatten(),
        forall|i: int| #[trigger] rank_at(lines, merged(lines, symbols), i) is None,
        merged(lines, symbols).len() <= symbols.len(),
        symbols.len() > 0 ==> merged(lines, symbols).len() > 0,
    decreases symbols.len(),
{
    if exists|i: int| next_merge(lines, symbols, i) {
        let i = choose|i: int| next_merge(lines, symbols, i);
        assert(rank_at(lines, symbols, i) is Some);
        law_merging_keeps_text(lines, joined_at(symbols, i));
        lemma_joined_flatten(symbols, i);
    } else {
        assert forall|i: int| #[trigger] rank_at(lines, symbols, i) is None by {
            if rank_at(lines, symbols, i) is Some {
                lemma_next_exists(lines, symbols, i, symbols.len() as int);
            }
        }
    }
}

/// Where some pair before `n` has a rank, one of those is next among them.
proof fn lemma_next_exists(lines: Seq<Seq<char>>, symbols: Seq<Seq<char>>, k: int, n: int)
    requires
        rank_at(lines, symbols, k) is Some,
        n == symbols.len(),
    ensures
        exists|i: int| next_merge(lines, symbols, i),
{
    let i = lemma_least(lines, symbols, k, n);
    assert(next_merge(lines, symbols, i));
}

spec fn least_below(lines: Seq<Seq<char>>, symbols: Seq<Seq<char>>, i: int, n: int) -> bool {
    &&& 0 <= i < n
    &&& rank_at(lines, symbols, i) is Some
    &&& forall|j: int|
        0 <= j < n && (#[trigger] rank_at(lines, symbols, j)) is Some ==> rank_at(lines, symbols, i)->0
            < rank_at(lines, symbols, j)->0 || (rank_at(lines, symbols, i)->0 == rank_at(
            lines,
            symbols,
            j,
        )->0 && i <= j)
}

proof fn lemma_least(lines: Seq<Seq<char>>, symbols: Seq<Seq<char>>, k: int, n: int) -> (i: int)
    requires
        0 <= k < n,
        rank_at(lines, symbols, k) is Some,
    ensures
        least_below(lines, symbols, i, n),
    decreases n,
{
    if exists|j: int| 0 <= j < n - 1 && (#[trigger] rank_at(lines, symbols, j)) is Some {
        let j = choose|j: int| 0 <= j < n - 1 && (#[trigger] rank_at(lines, symbols, j)) is Some;
        let i = lemma_least(lines, symbols, j, n - 1);
        if rank_at(lines, symbols, n - 1) is Some && rank_at(lines, symbols, n - 1)->0 < rank_at(
            lines,
            symbols,
            i,
        )->0 {
            n - 1
        } else {
            i
        }
    } else {
        k
    }
}

proof fn lemma_joined_flatten(symbols: Seq<Seq<char>>, i: int)
    requires
        0 <= i,
        i + 1 < symbols.len(),
    ensures
        joined_at(symbols, i).flatten() == symbols.flatten(),
    decreases i,
{
    let after = joined_at(symbols, i);
    if i == 0 {
        assert(after.first() == symbols[0] + symbols[1]);
        assert(after.drop_first() =~= symbols.skip(2));
        let tail = symbols.drop_first();
        assert(tail.first() == symbols[1]);
        assert(tail.drop_first() =~= symbols.skip(2));
        let rest = symbols.skip(2).flatten();
        assert(tail.flatten() == symbols[1] + rest);
        assert(symbols.flatten() == symbols[0] + tail.flatten());
        assert(after.flatten() == (symbols[0] + symbols[1]) + rest);
        assert((symbols[0] + symbols[1]) + rest =~= symbols[0] + (symbols[1] + rest));
    } else {
        lemma_joined_flatten(symbols.drop_first(), i - 1);
        assert(after.first() == symbols.first());
        assert(after.drop_first() =~= joined_at(symbols.drop_first(), i - 1));
        assert(after.flatten() == symbols.flatten());
    }
}

/// The ranks of pairs, as the lines of a merge list give them.
pub struct MergeRanks {
    /// The rank of each line, by the line.
    by_line: StringHashMap<u32>,
    /// The lines that have been added.
    lines: Ghost<Seq<Seq<char>>>,
}

/// A line made of two sides.
spec fn line_of(l: Seq<char>, r: Seq<char>) -> Seq<char> {
    l.push(' ') + r
}

proof fn lemma_sides_of_line(l: Seq<char>, r: Seq<char>)
    requires
        !l.contains(' '),
    ensures
        sides(line_of(l, r)) == Some((l, r)),
{
    let line = line_of(l, r);
    assert(line[l.len() as int] == ' ');
    assert(line.contains(' '));
    line.index_of_first_ensures(' ');
    let k = line.index_of_first(' ')->0;
    if k < l.len() {
        assert(l[k] == ' ');
    }
    assert(k == l.len());
    assert(line.take(k) =~= l);
    assert(line.skip(k + 1) =~= r);
}

proof fn lemma_line_of_sides(line: Seq<char>)
    ensures
        sides(line) matches Some((l, r)) ==> line == line_of(l, r) && !l.contains(' '),
{
    if line.contains(' ') {
        line.index_of_first_ensures(' ');
        let k = line.index_of_first(' ')->0;
        let (l, r) = sides(line)->0;
        assert(line =~= line_of(l, r));
        assert(!l.contains(' ')) by {
            if l.contains(' ') {
                let j = choose|j: int| 0 <= j < l.len() && l[j] == ' ';
                assert(line[j] == ' ');
            }
        }
    }
}

impl MergeRanks {
    /// The lines that the ranks come from.
    pub closed spec fn lines(&self) -> Seq<Seq<char>> {
        self.lines@
    }

    /// The map holds the first appearance of each line that has a space.
    pub closed spec fn wf(&self) -> bool {
        &&& forall|line: Seq<char>| #[trigger]
            self.by_line@.contains_key(line) ==> sides(line) is Some && first_line(
                self.lines@,
                line,
            ) is Some && self.by_line@[line] == first_line(self.lines@, line)->0 as u32
        &&& forall|i: int|
            0 <= i < self.lines@.len() && sides(#[trigger] self.lines@[i]) is Some
                ==> self.by_line@.contains_key(self.lines@[i])
    }

    /// No ranks.
    pub fn new() -> (res: MergeRanks)
        ensures
            res.wf(),
            res.lines() == Seq::<Seq<char>>::empty(),
    {
        MergeRanks { by_line: StringHashMap::new(), lines: Ghost(Seq::empty()) }
    }

    /// Whether the pair of a line has a rank already.
    pub fn has_line(&self, line: &String) -> (res: bool)
        requires
            self.wf(),
            sides(line@) is Some,
        ensures
            res == self.lines().contains(line@),
    {
        let res = self.by_line.contains_key(line.as_str());
        proof {
            if res {
                lemma_first_line(self.lines@, line@);
            } else if self.lines@.contains(line@) {
                let i = choose|i: int| 0 <= i < self.lines@.len() && self.lines@[i] == line@;
                assert(sides(self.lines@[i]) is Some);
            }
        }
        res
    }

    /// Adds a line. Its rank is its number, unless its pair has one already.
    pub fn push(&mut self, line: &String, rank: u32)
        requires
            old(self).wf(),
            sides(line@) is Some,
            rank == old(self).lines().len() as u32,
        ensures
            final(self).wf(),
            final(self).lines() == old(self).lines().push(line@),
    {
        let known = self.has_line(line);
        let ghost lines = self.lines@;
        let ghost before = self.by_line@;
        if !known {
            self.by_line.insert(line.clone(), rank);
        }
        self.lines = Ghost(lines.push(line@));
        proof {
            let now = self.by_line@;
            assert forall|k: Seq<char>| #[trigger] now.contains_key(k) implies sides(k) is Some
                && first_line(lines.push(line@), k) is Some && now[k] == first_line(
                lines.push(line@),
                k,
            )->0 as u32 by {
                lemma_first_line_push(lines, line@, k);
                if before.contains_key(k) {
                    lemma_first_line(lines, k);
                } else {
                    assert(k == line@);
                    lemma_first_line(lines, k);
                }
            }
            assert forall|i: int| 0 <= i < lines.push(line@).len() && sides(
                #[trigger] lines.push(line@)[i],
            ) is Some implies now.contains_key(lines.push(line@)[i]) by {
                if i < lines.len() {
                    assert(before.contains_key(lines[i]));
                } else if known {
                    let j = choose|j: int| 0 <= j < lines.len() && lines[j] == line@;
                    assert(sides(lines[j]) is Some);
                }
            }
        }
    }

    /// The rank of a pair.
    pub fn rank(&self, l: &Vec<char>, r: &Vec<char>) -> (res: Option<u32>)
        requires
            self.wf(),
        ensures
            res == rank_of(self.lines(), l@, r@),
    {
        let mut key: Vec<char> = Vec::new();
        let mut i: usize = 0;
        while i < l.len()
            invariant
                i <= l@.len(),
                key@ == l@.take(i as int),
                forall|j: int| 0 <= j < i ==> l@[j] != ' ',
                self.wf(),
            decreases l@.len() - i,
        {
            let c = l[i];
            if c == ' ' {
                proof {
                    if exists|k: int| first_naming(self.lines@, l@, r@, k) {
                        let k = choose|k: int| first_naming(self.lines@, l@, r@, k);
                        lemma_line_of_sides(self.lines@[k]);
                        assert(l@[i as int] == ' ');
                    }
                }
                return None;
            }
            key.push(c);
            i += 1;
        }
        key.push(' ');
        let mut i: usize = 0;
        while i < r.len()
            invariant
                i <= r@.len(),
                key@ == l@.push(' ') + r@.take(i as int),
            decreases r@.len() - i,
        {
            key.push(r[i]);
            i += 1;
        }
        let line = string_of(key.as_slice());
        proof {
            assert(line@ =~= line_of(l@, r@));
            assert(!l@.contains(' '));
            lemma_sides_of_line(l@, r@);
            lemma_first_line(self.lines@, line@);
            assert forall|j: int| 0 <= j < self.lines@.len() implies (names_pair(
                #[trigger] self.lines@[j],
                l@,
                r@,
            ) == (self.lines@[j] == line@)) by {
                lemma_line_of_sides(self.lines@[j]);
            }
            if let Some(k) = first_line(self.lines@, line@) {
                assert(first_naming(self.lines@, l@, r@, k));
                let c = choose|c: int| first_naming(self.lines@, l@, r@, c);
                if c < k {
                    assert(!(self.lines@[c] == line@));
                }
                if k < c {
                    assert(!names_pair(self.lines@[k], l@, r@));
                }
                assert(sides(self.lines@[k]) is Some);
                assert(self.by_line@.contains_key(line@));
            } else {
                if exists|c: int| first_naming(self.lines@, l@, r@, c) {
                    let c = choose|c: int| first_naming(self.lines@, l@, r@, c);
                    assert(self.lines@[c] == line@);
                }
            }
        }
        match self.by_line.get(line.as_str()) {
            Some(rank) => Some(*rank),
            None => None,
        }
    }
}

/// The place of the first line that is `line`.
spec fn first_line(lines: Seq<Seq<char>>, line: Seq<char>) -> Option<int> {
    lines.index_of_first(line)
}

proof fn lemma_first_line(lines: Seq<Seq<char>>, line: Seq<char>)
    ensures
        first_line(lines, line) is Some <==> lines.contains(line),
        first_line(lines, line) matches Some(k) ==> {
            &&& 0 <= k < lines.len()
            &&& lines[k] == line
            &&& forall|j: int| 0 <= j < k ==> #[trigger] lines[j] != line
        },
{
    lines.index_of_first_ensures(line);
}

proof fn lemma_first_line_push(lines: Seq<Seq<char>>, line: Seq<char>, k: Seq<char>)
    ensures
        lines.contains(k) ==> first_line(lines.push(line), k) == first_line(lines, k),
        !lines.contains(k) && k == line ==> first_line(lines.push(line), k) == Some(
            lines.len() as int,
        ),
{
    let more = lines.push(line);
    lemma_first_line(lines, k);
    lemma_first_line(more, k);
    if lines.contains(k) {
        let a = first_line(lines, k)->0;
        assert(more[a] == k);
        assert(more.contains(k));
        let b = first_line(more, k)->0;
        if a < b {
            assert(more[a] != k);
        }
        if b < a {
            assert(lines[b] == more[b]);
        }
    } else if k == line {
        assert(more[lines.len() as int] == k);
        assert(more.contains(k));
        let b = first_line(more, k)->0;
        if b < lines.len() {
            assert(lines[b] == k);
        }
    }
}

/// The texts of a vector of symbols.
pub open spec fn symbol_texts(symbols: Seq<Vec<char>>) -> Seq<Seq<char>> {
    symbols.map_values(|s: Vec<char>| s@)
}

/// Merges neighbouring symbols until none can be merged: at each step the pair of the lowest
/// rank, and among those of one rank the leftmost.
pub fn bpe_merge(symbols: &mut Vec<Vec<char>>, ranks: &MergeRanks)
    requires
        ranks.wf(),
    ensures
        symbol_texts(final(symbols)@) == merged(ranks.lines(), symbol_texts(old(symbols)@)),
{
    let ghost lines = ranks.lines();
    let ghost goal = merged(lines, symbol_texts(symbols@));
    loop
        invariant
            ranks.wf(),
            lines == ranks.lines(),
            goal == merged(lines, symbol_texts(old(symbols)@)),
            merged(lines, symbol_texts(symbols@)) == goal,
        ensures
            symbol_texts(symbols@) == goal,
        decreases symbols@.len(),
    {
        let ghost now = symbol_texts(symbols@);
        let mut best: Option<(u32, usize)> = None;
        let mut i: usize = 0;
        while symbols.len() - i > 1
            invariant
                ranks.wf(),
                lines == ranks.lines(),
                now == symbol_texts(symbols@),
                i <= symbols@.len(),
                symbols@.len() > 0 ==> i < symbols@.len(),
                match best {
                    None => forall|j: int| 0 <= j < i ==> #[trigger] rank_at(lines, now, j) is None,
                    Some((r, b)) => b < i && rank_at(lines, now, b as int) == Some(r) && least_below(
                        lines,
                        now,
                        b as int,
                        i as int,
                    ),
                },
            decreases symbols@.len() - i,
        {
            let rank = ranks.rank(&symbols[i], &symbols[i + 1]);
            proof {
                assert(now[i as int] == symbols@[i as int]@);
                assert(now[i + 1] == symbols@[i + 1]@);
                assert(rank == rank_at(lines, now, i as int));
            }
            if let Some(r) = rank {
                let better = match best {
                    None => true,
                    Some((br, _)) => r < br,
                };
                if better {
                    best = Some((r, i));
                }
            }
            i += 1;
        }
        match best {
            None => {
                proof {
                    assert forall|j: int| !next_merge(lines, now, j) by {
                        if next_merge(lines, now, j) {
                            assert(rank_at(lines, now, j) is Some);
                        }
                    }
                }
                break;
            },
            Some((_, b)) => {
                proof {
                    assert(next_merge(lines, now, b as int)) by {
                        assert(least_below(lines, now, b as int, i as int));
                    }
                    let c = choose|c: int| next_merge(lines, now, c);
                    lemma_next_merge_unique(lines, now, b as int, c);
                    assert(merged(lines, now) == merged(lines, joined_at(now, b as int)));
                }
                let ghost before = symbols@;
                let mut right = symbols.remove(b + 1);
                let mut left = symbols.remove(b);
                left.append(&mut right);
                symbols.insert(b, left);
                proof {
                    assert(left@ == before[b as int]@ + before[b + 1]@);
                    assert(symbol_texts(symbols@) =~= joined_at(now, b as int));
                }
            },
        }
    }
}

/// Merging joins one pair at a time: that of the lowest rank, and of several pairs of one rank the
/// one furthest to the left. Symbols of which no two neighbours have a rank stay as they are.
pub proof fn law_lowest_rank_merges_first(lines: Seq<Seq<char>>, symbols: Seq<Seq<char>>, i: int)
    ensures
        0 <= i < symbols.len() - 1 && rank_of(lines, symbols[i], symbols[i + 1]) is Some && (forall|
            j: int,
        |
            0 <= j < symbols.len() - 1 && j != i ==> match #[trigger] rank_of(
                lines,
                symbols[j],
                symbols[j + 1],
            ) {
                None => true,
                Some(r) => {
                    let own = rank_of(lines, symbols[i], symbols[i + 1])->0;
                    r > own || (r == own && j > i)
                },
            }) ==> merged(lines, symbols) == merged(
            lines,
            symbols.subrange(0, i) + seq![symbols[i] + symbols[i + 1]] + symbols.subrange(
                i + 2,
                symbols.len() as int,
            ),
        ),
        (forall|j: int|
            0 <= j < symbols.len() - 1 ==> #[trigger] rank_of(lines, symbols[j], symbols[j + 1]) is None)
            ==> merged(lines, symbols) == symbols,
{
    if 0 <= i < symbols.len() - 1 && rank_of(lines, symbols[i], symbols[i + 1]) is Some && (forall|
        j: int,
    |
        0 <= j < symbols.len() - 1 && j != i ==> match #[trigger] rank_of(
            lines,
            symbols[j],
            symbols[j + 1],
        ) {
            None => true,
            Some(r) => {
                let own = rank_of(lines, symbols[i], symbols[i + 1])->0;
                r > own || (r == own && j > i)
            },
        }) {
        assert(next_merge(lines, symbols, i)) by {
            assert forall|j: int| (#[trigger] rank_at(lines, symbols, j)) is Some implies rank_at(
                lines,
                symbols,
                i,
            )->0 < rank_at(lines, symbols, j)->0 || (rank_at(lines, symbols, i)->0 == rank_at(
                lines,
                symbols,
                j,
            )->0 && i <= j) by {
                assert(rank_at(lines, symbols, j) == rank_of(lines, symbols[j], symbols[j + 1]));
            }
        }
        let c = choose|c: int| next_merge(lines, symbols, c);
        lemma_next_merge_unique(lines, symbols, i, c);
        assert(joined_at(symbols, i) =~= symbols.subrange(0, i) + seq![symbols[i] + symbols[i + 1]]
            + symbols.subrange(i + 2, symbols.len() as int));
    }
    if forall|j: int|
        0 <= j < symbols.len() - 1 ==> #[trigger] rank_of(lines, symbols[j], symbols[j + 1]) is None {
        if exists|c: int| next_merge(lines, symbols, c) {
            let c = choose|c: int| next_merge(lines, symbols, c);
            assert(rank_at(lines, symbols, c) is Some);
            assert(rank_of(lines, symbols[c], symbols[c + 1]) is None);
        }
    }
}

/// The rank of a pair is the number of the first line that spells it: the left symbol, a space,
/// and the right symbol. A pair that no line spells has none.
pub proof fn law_rank_is_line_number(
    lines: Seq<Seq<char>>,
    l: Seq<char>,
    r: Seq<char>,
    i: int,
)
    requires
        !l.contains(' '),
        lines.len() <= u32::MAX,
    ensures
        0 <= i < lines.len() && lines[i] == l + seq![' '] + r && (forall|j: int|
            0 <= j < i ==> #[trigger] lines[j] != l + seq![' '] + r) ==> rank_of(lines, l, r) == Some(
            i as u32,
        ),
        !lines.contains(l + seq![' '] + r) ==> rank_of(lines, l, r) is None,
{
    let line = l + seq![' '] + r;
    assert forall|s: Seq<char>| #[trigger] names_pair(s, l, r) <==> s == line by {
        if names_pair(s, l, r) {
            s.index_of_first_ensures(' ');
            assert(s =~= line);
        }
        if s == line {
            lemma_line_sides(l, r);
        }
    }
    if 0 <= i < lines.len() && lines[i] == line && (forall|j: int|
        0 <= j < i ==> #[trigger] lines[j] != line) {
        assert(names_pair(lines[i], l, r));
        assert(first_naming(lines, l, r, i));
        let c = choose|c: int| first_naming(lines, l, r, c);
        if c < i {
            assert(names_pair(lines[c], l, r));
        }
        if i < c {
            assert(!names_pair(lines[i], l, r));
        }
    }
    if !lines.contains(line) {
        if exists|c: int| first_naming(lines, l, r, c) {
            let c = choose|c: int| first_naming(lines, l, r, c);
            assert(names_pair(lines[c], l, r));
            assert(lines[c] == line);
        }
    }
}

proof fn lemma_line_sides(l: Seq<char>, r: Seq<char>)
    requires
        !l.contains(' '),
    ensures
        sides(l + seq![' '] + r) == Some((l, r)),
{
    let line = l + seq![' '] + r;
    assert(line[l.len() as int] == ' ');
    line.index_of_first_ensures(' ');
    let k = line.index_of_first(' ')->0;
    if k < l.len() {
        assert(line[k] == l[k]);
        assert(l.contains(' '));
    }
    assert(k == l.len());
    assert(line.take(k) =~= l);
    assert(line.skip(k + 1) =~= r);
}

} // verus!

//! Holding generated tokens against expected ones.

use vstd::prelude::*;

verus! {

/// A place where another token came than was expected. `want` is absent where none was expected.
#[derive(Debug, Clone, Copy, PartialEq, Eq, Structural)]
pub struct Mismatch {
    pub step: usize,
    pub got: u32,
    pub want: Option<u32>,
}

/// The token expected at a step.
pub open spec fn expected_at(expected: Seq<u32>, step: int) -> Option<u32> {
    if step < expected.len() {
        Some(expected[step])
    } else {
        None
    }
}

/// How many tokens came as expected.
pub open spec fn matches_in(got: Seq<u32>, expected: Seq<u32>) -> nat
    decreases got.len(),
{
    if got.len() == 0 {
        0
    } else {
        matches_in(got.drop_last(), expected) + if expected_at(expected, got.len() - 1) == Some(
            got.last(),
        ) {
            1nat
        } else {
            0nat
        }
    }
}

/// The first token that did not come as expected.
pub open spec fn first_mismatch(got: Seq<u32>, expected: Seq<u32>) -> Option<Mismatch>
    decreases got.len(),
{
    if got.len() == 0 {
        None
    } else {
        match first_mismatch(got.drop_last(), expected) {
            Some(m) => Some(m),
            None => if expected_at(expected, got.len() - 1) == Some(got.last()) {
                None
            } else {
                Some(
                    Mismatch {
                        step: (got.len() - 1) as usize,
                        got: got.last(),
                        want: expected_at(expected, got.len() - 1),
                    },
                )
            },
        }
    }
}

/// Generated tokens, held against expected ones as they come.
pub struct Comparison {
    generated: Vec<u32>,
    expected: Vec<u32>,
    n_match: usize,
    mismatch: Option<Mismatch>,
}

impl Comparison {
    /// The tokens that have come.
    pub closed spec fn got(&self) -> Seq<u32> {
        self.generated@
    }

    /// The tokens that were expected.
    pub closed spec fn expected(&self) -> Seq<u32> {
        self.expected@
    }

    /// The counts are those of the tokens.
    pub closed spec fn wf(&self) -> bool {
        &&& self.n_match == matches_in(self.generated@, self.expected@)
        &&& self.n_match <= self.generated@.len()
        &&& self.mismatch == first_mismatch(self.generated@, self.expected@)
    }

    /// Nothing has come yet.
    pub fn new(expected: Vec<u32>) -> (res: Comparison)
        ensures
            res.wf(),
            res.got() == Seq::<u32>::empty(),
            res.expected() == expected@,
    {
        Comparison { generated: Vec::new(), expected, n_match: 0, mismatch: None }
    }

    /// The token that is expected next.
    pub fn expects(&self) -> (res: Option<u32>)
        ensures
            res == expected_at(self.expected(), self.got().len() as int),
    {
        if self.generated.len() < self.expected.len() {
            Some(self.expected[self.generated.len()])
        } else {
            None
        }
    }

    /// Takes the next token. Says whether it came as expected, and whether it is the first that
    /// did not.
    pub fn take(&mut self, token: u32) -> (res: (bool, bool))
        requires
            old(self).wf(),
            old(self).got().len() < usize::MAX,
        ensures
            final(self).wf(),
            final(self).got() == old(self).got().push(token),
            final(self).expected() == old(self).expected(),
            res.0 == (expected_at(old(self).expected(), old(self).got().len() as int) == Some(
                token,
            )),
            res.1 == (!res.0 && first_mismatch(old(self).got(), old(self).expected()) is None),
    {
        let want = self.expects();
        let step: usize = self.generated.len();
        let ghost before = self.generated@;
        self.generated.push(token);
        proof {
            assert(self.generated@.drop_last() =~= before);
        }
        let ok = match want {
            Some(w) => w == token,
            None => false,
        };
        let first = !ok && self.mismatch.is_none();
        if ok {
            self.n_match = self.n_match + 1;
        } else if first {
            self.mismatch = Some(Mismatch { step, got: token, want });
        }
        (ok, first)
    }

    /// The tokens that have come.
    pub fn generated(&self) -> (res: &[u32])
        ensures
            res@ == self.got(),
    {
        self.generated.as_slice()
    }

    /// How many tokens came as expected.
    pub fn n_match(&self) -> (res: usize)
        requires
            self.wf(),
        ensures
            res == matches_in(self.got(), self.expected()),
    {
        self.n_match
    }

    /// The first token that did not come as expected. A run without one has passed.
    pub fn verdict(&self) -> (res: Option<Mismatch>)
        requires
            self.wf(),
        ensures
            res == first_mismatch(self.got(), self.expected()),
    {
        self.mismatch
    }

    /// How many of the tokens the model has seen: all but the last.
    pub fn n_forward(&self) -> (res: usize)
        ensures
            res == if self.got().len() == 0 {
                0
            } else {
                self.got().len() - 1
            },
    {
        if self.generated.len() == 0 {
            0
        } else {
            self.generated.len() - 1
        }
    }
}

/// A run passes exactly where what came is a beginning of what was expected, and then every token
/// counts as a match. A mismatch names the first place where the two part.
pub proof fn law_verdict(got: Seq<u32>, expected: Seq<u32>)
    requires
        got.len() <= usize::MAX,
    ensures
        first_mismatch(got, expected) is None <==> got.len() <= expected.len() && got
            == expected.take(got.len() as int),
        first_mismatch(got, expected) is None <==> matches_in(got, expected) == got.len(),
        matches_in(got, expected) <= got.len(),
        first_mismatch(got, expected) matches Some(m) ==> {
            &&& m.step < got.len()
            &&& m.got == got[m.step as int]
            &&& m.want == expected_at(expected, m.step as int)
            &&& m.want != Some(m.got)
            &&& forall|i: int|
                0 <= i < m.step ==> expected_at(expected, i) == Some(#[trigger] got[i])
        },
    decreases got.len(),
{
    if got.len() > 0 {
        let front = got.drop_last();
        let n = front.len() as int;
        law_verdict(front, expected);
        if first_mismatch(got, expected) is None {
            assert(got =~= expected.take(n + 1));
        }
        if got.len() <= expected.len() && got == expected.take(got.len() as int) {
            assert(front =~= expected.take(n));
            assert(got.last() == expected[n]);
        }
        if first_mismatch(front, expected) is None && first_mismatch(got, expected) is Some {
            assert forall|i: int| 0 <= i < n implies expected_at(expected, i) == Some(
                #[trigger] got[i],
            ) by {
                assert(front[i] == got[i]);
                assert(expected.take(n)[i] == expected[i]);
            }
        }
        if let Some(m) = first_mismatch(front, expected) {
            assert forall|i: int| 0 <= i < m.step implies expected_at(expected, i) == Some(
                #[trigger] got[i],
            ) by {
                assert(front[i] == got[i]);
            }
        }
    } else {
        assert(got =~= expected.take(0));
    }
}

} // verus!

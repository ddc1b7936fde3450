//! All strings of a fixed length over given characters, in lexicographic order.
use vstd::prelude::*;

verus! {

/// The lexicographic successor of an index sequence whose indices are below `base`: the last
/// index goes up by one, and an index that would reach `base` goes back to zero and carries
/// into the one before it. `None` when every index carries.
pub open spec fn lex_successor(idx: Seq<usize>, base: nat) -> Option<Seq<usize>>
    decreases idx.len(),
{
    if idx.len() == 0 {
        None
    } else if idx.last() + 1 < base {
        Some(idx.drop_last().push((idx.last() + 1) as usize))
    } else {
        match lex_successor(idx.drop_last(), base) {
            Some(p) => Some(p.push(0usize)),
            None => None,
        }
    }
}

/// `n` zero indices.
pub open spec fn zeros(n: nat) -> Seq<usize> {
    Seq::new(n, |i: int| 0usize)
}

/// The strings of a fixed length over some characters, in lexicographic order of the indices
/// of their characters.
#[derive(Clone, Debug)]
pub struct LexFixedLengthStrings {
    /// The characters, in the order that decides the order of the strings.
    pub chars: Vec<char>,
    /// The character indices of the next string.
    pub indices: Vec<usize>,
    /// Whether every string has been produced.
    pub done: bool,
}

impl LexFixedLengthStrings {
    /// Until every string has been produced, every index names a character.
    pub open spec fn wf(&self) -> bool {
        !self.done ==> forall|i: int|
            0 <= i < self.indices@.len() ==> #[trigger] self.indices@[i] < self.chars@.len()
    }

    /// The string that the indices stand for.
    pub open spec fn word(&self) -> Seq<char> {
        self.indices@.map(|i: int, k: usize| self.chars@[k as int])
    }

    /// Produces the next string, or `None` once all have been produced.
    pub fn next(&mut self) -> (r: Option<Vec<char>>)
        requires
            old(self).wf(),
        ensures
            final(self).wf(),
            final(self).chars@ == old(self).chars@,
            old(self).done ==> r is None && final(self).done,
            !old(self).done ==> (r matches Some(w) && w@ == old(self).word()),
            !old(self).done ==> (final(self).done <==> lex_successor(
                old(self).indices@,
                old(self).chars@.len(),
            ) is None),
            !old(self).done && !final(self).done ==> Some(final(self).indices@) == lex_successor(
                old(self).indices@,
                old(self).chars@.len(),
            ),
    {
        if self.done {
            return None;
        }
        let ghost c0 = self.chars@;
        let mut w: Vec<char> = Vec::new();
        let mut j: usize = 0;
        while j < self.indices.len()
            invariant
                self.wf(),
                !self.done,
                self.chars@ == c0,
                j <= self.indices@.len(),
                w@ == self.word().take(j as int),
            decreases self.indices@.len() - j,
        {
            w.push(self.chars[self.indices[j]]);
            proof {
                assert(self.word().take(j + 1) =~= self.word().take(j as int).push(
                    self.chars@[self.indices@[j as int] as int],
                ));
            }
            j += 1;
        }
        proof {
            assert(self.word().take(j as int) =~= self.word());
        }
        let base = self.chars.len();
        let ghost s0 = self.indices@;
        let n = self.indices.len();
        let mut i = n;
        let mut found = false;
        proof {
            assert(s0.take(n as int) =~= s0);
            assert(zeros(0) =~= Seq::<usize>::empty());
            assert(s0.take(n as int) + zeros(0) =~= s0);
            lemma_successor_zeros(s0, base as nat, n as int);
        }
        while i > 0
            invariant_except_break
                !found,
                forall|k: int| i <= k < n ==> #[trigger] self.indices@[k] == 0,
                forall|k: int| 0 <= k < i ==> #[trigger] self.indices@[k] == s0[k],
                lex_successor(s0, base as nat) == match lex_successor(s0.take(i as int), base as nat) {
                    Some(p) => Some(p + zeros((n - i) as nat)),
                    None => None,
                },
            invariant
                i <= n,
                n == s0.len(),
                self.indices@.len() == n,
                self.chars@.len() == base,
                forall|k: int| 0 <= k < n ==> s0[k] < base,
                forall|k: int| 0 <= k < n ==> #[trigger] self.indices@[k] < base || (i == n && base
                    == 0),
                !self.done,
                self.chars@ == c0,
            ensures
                found ==> Some(self.indices@) == lex_successor(s0, base as nat),
                !found ==> lex_successor(s0, base as nat) is None,
                !found ==> i == 0,
            decreases i,
        {
            i -= 1;
            let x = self.indices[i];
            let ghost t = s0.take(i + 1);
            proof {
                assert(t.drop_last() =~= s0.take(i as int));
                assert(t.last() == x);
            }
            if x + 1 < base {
                let ghost before = self.indices@;
                self.indices.set(i, x + 1);
                found = true;
                proof {
                    assert(self.indices@ =~= s0.take(i as int).push((x + 1) as usize) + zeros(
                        (n - i - 1) as nat,
                    ));
                }
                break;
            }
            self.indices.set(i, 0);
            proof {
                match lex_successor(s0.take(i as int), base as nat) {
                    Some(p) => {
                        assert(p + zeros((n - i) as nat) =~= p.push(0usize) + zeros(
                            (n - i - 1) as nat,
                        ));
                    },
                    None => {},
                }
            }
        }
        proof {
            if !found {
                assert(i == 0);
                assert(s0.take(0).len() == 0);
            }
        }
        if !found {
            self.done = true;
        }
        Some(w)
    }
}

/// The carry invariant of `next` holds before its loop.
proof fn lemma_successor_zeros(s: Seq<usize>, base: nat, n: int)
    requires
        n == s.len(),
    ensures
        lex_successor(s, base) == match lex_successor(s.take(n), base) {
            Some(p) => Some(p + zeros(0)),
            None => None,
        },
{
    assert(s.take(n) =~= s);
    match lex_successor(s, base) {
        Some(p) => {
            assert(p + zeros(0) =~= p);
        },
        None => {},
    }
}

/// The strings of length `len` over `chars`, in lexicographic order of character positions.
pub fn lex_fixed_length_strings_using_chars(len: u64, chars: Vec<char>) -> (r:
    LexFixedLengthStrings)
    requires
        len <= usize::MAX,
    ensures
        r.wf(),
        r.chars@ == chars@,
        r.indices@ == zeros(len as nat),
        r.done == (len > 0 && chars@.len() == 0),
{
    let mut indices: Vec<usize> = Vec::new();
    let mut i: u64 = 0;
    while i < len
        invariant
            i <= len,
            indices@ == zeros(i as nat),
        decreases len - i,
    {
        indices.push(0);
        proof {
            assert(indices@ =~= zeros((i + 1) as nat));
        }
        i += 1;
    }
    let done = len > 0 && chars.len() == 0;
    LexFixedLengthStrings { chars, indices, done }
}

} // verus!

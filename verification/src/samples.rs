//! The random source of the simulation: a sequence of samples that the caller
//! draws beforehand from a standard normal distribution, in fixed-point units.
//! The simulation scales each sample by the deviation it needs. Once the
//! sequence is used up, every further sample is zero.

use vstd::prelude::*;

verus! {

/// A sequence of samples and how many of them were drawn.
pub struct Samples {
    pub values: Vec<i64>,
    pub next: usize,
}

/// The `k`-th of the upcoming samples `s`; zero past their end.
pub open spec fn sample_at(s: Seq<i64>, k: int) -> i64 {
    if 0 <= k < s.len() {
        s[k]
    } else {
        0
    }
}

/// The samples that are left of `s` once `n` were drawn.
pub open spec fn rest(s: Seq<i64>, n: int) -> Seq<i64> {
    if 0 <= n <= s.len() {
        s.skip(n)
    } else {
        Seq::empty()
    }
}

/// Looking ahead in what is left is looking further ahead in the whole.
pub proof fn lemma_rest_sample(s: Seq<i64>, n: int, k: int)
    requires
        0 <= n,
        0 <= k,
    ensures
        sample_at(rest(s, n), k) == sample_at(s, n + k),
{
}

/// Drawing `n` samples and then `m` leaves what drawing `n + m` leaves.
pub proof fn lemma_rest_rest(s: Seq<i64>, n: int, m: int)
    requires
        0 <= n,
        0 <= m,
    ensures
        rest(rest(s, n), m) =~= rest(s, n + m),
{
}

impl View for Samples {
    type V = Seq<i64>;

    /// The samples not drawn yet.
    open spec fn view(&self) -> Seq<i64> {
        if self.next <= self.values@.len() {
            self.values@.skip(self.next as int)
        } else {
            Seq::empty()
        }
    }
}

impl Samples {
    /// A source that hands out `values` in order.
    pub fn new(values: Vec<i64>) -> (s: Samples)
        ensures
            s@ == values@,
    {
        let s = Samples { values, next: 0 };
        assert(s@ =~= values@);
        s
    }

    /// How many samples are left.
    pub fn remaining(&self) -> (n: usize)
        ensures
            n == self@.len(),
    {
        if self.next <= self.values.len() {
            self.values.len() - self.next
        } else {
            0
        }
    }

    /// Takes the next sample.
    pub fn draw(&mut self) -> (v: i64)
        ensures
            v == sample_at(old(self)@, 0),
            final(self)@ == rest(old(self)@, 1),
    {
        if self.next < self.values.len() {
            let v = self.values[self.next];
            self.next = self.next + 1;
            assert(self@ =~= rest(old(self)@, 1));
            v
        } else {
            assert(self@ =~= rest(old(self)@, 1));
            0
        }
    }
}

} // verus!

//! Arbitration of a fixed set of connections.
//!
//! A pool owns a fixed number of connections for the life of the process;
//! it never grows or shrinks. Acquisition first scans for a connection
//! that is free right now; only when every one is held does the caller
//! have to wait for whichever is released first. This module is the
//! arbitration state itself — which connection is held and which is free —
//! and its rules: the embedding program supplies the actual locks and the
//! waiting, and no fairness among waiters is promised.

use vstd::prelude::*;

verus! {

/// The index of the first free connection, scanning from the start.
pub open spec fn first_free(s: Seq<bool>) -> Option<int>
    decreases s,
{
    if s.len() == 0 {
        None
    } else if !s[0] {
        Some(0)
    } else {
        match first_free(s.skip(1)) {
            Some(i) => Some(i + 1),
            None => None,
        }
    }
}

/// What `first_free` finds: a free connection every one before which is
/// held, or nothing only when every connection is held.
pub proof fn lemma_first_free(s: Seq<bool>)
    ensures
        match first_free(s) {
            Some(i) => 0 <= i < s.len() && !s[i] && forall|j: int| 0 <= j < i ==> s[j],
            None => forall|j: int| 0 <= j < s.len() ==> s[j],
        },
    decreases s,
{
    if s.len() > 0 && s[0] {
        lemma_first_free(s.skip(1));
        let t = s.skip(1);
        match first_free(t) {
            Some(i) => {
                assert(s[i + 1] == t[i]);
                assert forall|j: int| 0 <= j < i + 1 implies s[j] by {
                    if j > 0 {
                        assert(s[j] == t[j - 1]);
                    }
                }
            },
            None => {
                assert forall|j: int| 0 <= j < s.len() implies s[j] by {
                    if j > 0 {
                        assert(s[j] == t[j - 1]);
                    }
                }
            },
        }
    }
}

/// The held/free state of each connection of a pool, by index. `true`
/// means held by some caller; every connection starts out free.
pub struct PoolState {
    held: Vec<bool>,
}

impl PoolState {
    /// Which connections are held, by index.
    pub closed spec fn view(self) -> Seq<bool> {
        self.held@
    }

    /// A pool of `n` connections, all free.
    pub fn new(n: usize) -> (p: PoolState)
        ensures
            p@.len() == n,
            forall|i: int| 0 <= i < n ==> !p@[i],
    {
        let mut held: Vec<bool> = Vec::new();
        let mut j: usize = 0;
        while j < n
            invariant
                j <= n,
                held@.len() == j,
                forall|i: int| 0 <= i < j ==> !held@[i],
            decreases n - j,
        {
            held.push(false);
            j = j + 1;
        }
        PoolState { held }
    }

    /// How many connections the pool has; fixed for its whole life.
    pub fn size(&self) -> (n: usize)
        ensures
            n == self@.len(),
    {
        self.held.len()
    }

    /// Scan for a free connection without waiting: the first free one is
    /// marked held and handed out; when every connection is held nothing
    /// changes and the caller must wait for a release.
    pub fn try_acquire(&mut self) -> (r: Option<usize>)
        ensures
            final(self)@.len() == old(self)@.len(),
            match first_free(old(self)@) {
                Some(i) => r matches Some(g) && g == i && final(self)@ == old(self)@.update(
                    i,
                    true,
                ),
                None => r is None && final(self)@ == old(self)@,
            },
    {
        proof {
            lemma_first_free(self.held@);
        }
        let n = self.held.len();
        let mut j: usize = 0;
        while j < n
            invariant
                j <= n == self.held@.len(),
                self == old(self),
                forall|i: int| 0 <= i < j ==> self.held@[i],
            decreases n - j,
        {
            if !self.held[j] {
                self.held.set(j, true);
                proof {
                    lemma_first_free_is(old(self).held@, j as int);
                }
                return Some(j);
            }
            j = j + 1;
        }
        None
    }

    /// Return connection `i` to the free set. Only a held connection can
    /// be released, and nothing else changes hands.
    pub fn release(&mut self, i: usize)
        requires
            i < old(self)@.len(),
            old(self)@[i as int],
        ensures
            final(self)@ == old(self)@.update(i as int, false),
    {
        self.held.set(i, false);
    }
}

/// `first_free` finds exactly the first free index.
pub proof fn lemma_first_free_is(s: Seq<bool>, i: int)
    requires
        0 <= i < s.len(),
        !s[i],
        forall|j: int| 0 <= j < i ==> s[j],
    ensures
        first_free(s) == Some(i),
    decreases i,
{
    if i == 0 {
    } else {
        assert(s[0]);
        lemma_first_free_is(s.skip(1), i - 1);
    }
}

/// Saturation. With every one of the pool's connections held, one more
/// acquisition attempt cannot succeed — it must wait. As soon as any
/// holder releases its connection `i`, exactly that connection is granted
/// to exactly one waiter: the scan now finds `i`, and with `i` held again
/// the pool is saturated as before. Which waiter wins is not promised.
pub proof fn lemma_pool_saturation(s: Seq<bool>, i: int)
    requires
        forall|j: int| 0 <= j < s.len() ==> s[j],
        0 <= i < s.len(),
    ensures
        first_free(s) is None,
        first_free(s.update(i, false)) == Some(i),
        first_free(s.update(i, false).update(i, true)) is None,
{
    lemma_first_free(s);
    if first_free(s) is Some {
        assert(false);
    }
    lemma_first_free_is(s.update(i, false), i);
    let back = s.update(i, false).update(i, true);
    assert(back =~= s.update(i, true));
    lemma_first_free(back);
    if first_free(back) is Some {
        assert(false);
    }
}

} // verus!

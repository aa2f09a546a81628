use vstd::prelude::*;
use crate::arith::{ring, lemma_wrapping_add, lemma_wrapping_sub, lemma_wrapping_mul, lemma_ring_add};

verus! {

/// The share stored under `k` in a list of entries: the latest entry for `k` wins.
pub open spec fn find(e: Seq<(String, u64)>, k: Seq<char>) -> Option<u64>
    decreases e.len(),
{
    if e.len() == 0 {
        None
    } else if e.last().0@ == k {
        Some(e.last().1)
    } else {
        find(e.drop_last(), k)
    }
}

/// One party's store: its own share of every named value it holds.
pub struct Party {
    entries: Vec<(String, u64)>,
}

impl Party {
    /// The share held under each name.
    pub closed spec fn share(&self, k: Seq<char>) -> Option<u64> {
        find(self.entries@, k)
    }

    /// The share held under `k`, or `0` where there is none.
    pub open spec fn held(&self, k: Seq<char>) -> u64 {
        match self.share(k) {
            Some(v) => v,
            None => 0,
        }
    }

    pub fn new() -> (r: Self)
        ensures
            forall|k: Seq<char>| r.share(k) is None,
    {
        Party { entries: Vec::new() }
    }

    /// This party's share under `name`, if it holds one.
    pub fn get_fl(&self, name: &String) -> (r: Option<u64>)
        ensures
            r == self.share(name@),
    {
        let mut r: Option<u64> = None;
        let n = self.entries.len();
        let mut i: usize = 0;
        while i < n
            invariant
                n == self.entries@.len(),
                0 <= i <= n,
                r == find(self.entries@.take(i as int), name@),
            decreases n - i,
        {
            assert(self.entries@.take(i + 1).drop_last() =~= self.entries@.take(i as int));
            if self.entries[i].0 == *name {
                r = Some(self.entries[i].1);
            }
            i = i + 1;
        }
        assert(self.entries@.take(n as int) =~= self.entries@);
        r
    }

    /// Drops the share under `name`.
    pub fn remove_share(&mut self, name: &String)
        ensures
            final(self).share(name@) is None,
            forall|k: Seq<char>| k != name@ ==> final(self).share(k) == old(self).share(k),
    {
        let mut kept: Vec<(String, u64)> = Vec::new();
        let n = self.entries.len();
        let mut i: usize = 0;
        while i < n
            invariant
                n == self.entries@.len(),
                0 <= i <= n,
                find(kept@, name@) is None,
                forall|k: Seq<char>|
                    k != name@ ==> find(kept@, k) == find(self.entries@.take(i as int), k),
            decreases n - i,
        {
            assert(self.entries@.take(i + 1).drop_last() =~= self.entries@.take(i as int));
            assert(self.entries@.take(i + 1).last() == self.entries@[i as int]);
            let same = self.entries[i].0 == *name;
            if !same {
                let key = self.entries[i].0.clone();
                let v = self.entries[i].1;
                let ghost before = kept@;
                kept.push((key, v));
                assert(kept@.drop_last() =~= before);
                assert(kept@.last() == self.entries@[i as int]);
                assert forall|k: Seq<char>| k != name@ implies find(kept@, k) == find(
                    self.entries@.take(i + 1),
                    k,
                ) by {
                    assert(find(before, k) == find(self.entries@.take(i as int), k));
                }
            } else {
                assert forall|k: Seq<char>| k != name@ implies find(kept@, k) == find(
                    self.entries@.take(i + 1),
                    k,
                ) by {
                    assert(find(kept@, k) == find(self.entries@.take(i as int), k));
                }
            }
            i = i + 1;
        }
        assert(self.entries@.take(n as int) =~= self.entries@);
        self.entries = kept;
    }

    /// Stores `value` under `name`, replacing any earlier share there.
    pub fn apply_share(&mut self, name: String, value: u64)
        ensures
            final(self).share(name@) == Some(value),
            forall|k: Seq<char>| k != name@ ==> final(self).share(k) == old(self).share(k),
    {
        self.remove_share(&name);
        let ghost before = self.entries@;
        self.entries.push((name, value));
        assert(self.entries@.drop_last() =~= before);
    }
}

impl Party {
    /// Stores under `dest` the difference of the shares under `x` and `y`.
    pub fn self_subtraction(&mut self, dest: String, x: &String, y: &String)
        requires
            old(self).share(x@) is Some,
            old(self).share(y@) is Some,
        ensures
            final(self).share(dest@) == Some(old(self).held(x@).wrapping_sub(old(self).held(y@))),
            forall|k: Seq<char>| k != dest@ ==> final(self).share(k) == old(self).share(k),
    {
        let vx = self.get_fl(x).unwrap();
        let vy = self.get_fl(y).unwrap();
        self.apply_share(dest, vx.wrapping_sub(vy));
    }

    /// Stores under `dest` the sum of the shares under `x` and `y`.
    pub fn self_addition(&mut self, dest: String, x: &String, y: &String)
        requires
            old(self).share(x@) is Some,
            old(self).share(y@) is Some,
        ensures
            final(self).share(dest@) == Some(old(self).held(y@).wrapping_add(old(self).held(x@))),
            forall|k: Seq<char>| k != dest@ ==> final(self).share(k) == old(self).share(k),
    {
        let vx = self.get_fl(x).unwrap();
        let vy = self.get_fl(y).unwrap();
        self.apply_share(dest, vy.wrapping_add(vx));
    }

    /// Stores under `dest` this party's share of a product:
    /// `rho * a + sigma * b + c + spread`, over its shares of `a`, `b` and `c`.
    pub fn compute_z(
        &mut self,
        dest: String,
        sigma: u64,
        rho: u64,
        a: &String,
        b: &String,
        c: &String,
        spread: u64,
    )
        requires
            old(self).share(a@) is Some,
            old(self).share(b@) is Some,
            old(self).share(c@) is Some,
        ensures
            final(self).share(dest@) is Some,
            final(self).held(dest@) as int == ring(
                rho * old(self).held(a@) + sigma * old(self).held(b@) + old(self).held(c@)
                    + spread,
            ),
            forall|k: Seq<char>| k != dest@ ==> final(self).share(k) == old(self).share(k),
    {
        let va = self.get_fl(a).unwrap();
        let vb = self.get_fl(b).unwrap();
        let vc = self.get_fl(c).unwrap();
        let t1 = rho.wrapping_mul(va);
        let t2 = sigma.wrapping_mul(vb);
        let t3 = t1.wrapping_add(t2);
        let t4 = t3.wrapping_add(vc);
        let z = t4.wrapping_add(spread);
        proof {
            lemma_wrapping_mul(rho, va);
            lemma_wrapping_mul(sigma, vb);
            lemma_wrapping_add(t1, t2);
            lemma_wrapping_add(t3, vc);
            lemma_wrapping_add(t4, spread);
            lemma_ring_add(rho * va, sigma * vb);
            lemma_ring_add(rho * va + sigma * vb, vc as int);
            lemma_ring_add(rho * va + sigma * vb + vc, spread as int);
        }
        self.apply_share(dest, z);
    }
}

} // verus!

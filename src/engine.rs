use vstd::prelude::*;
use crate::arith::{ring, lemma_ring_mul, total, lemma_total_step, lemma_wrapping_add, lemma_wrapping_sub,
    lemma_wrapping_mul, lemma_ring_add, lemma_ring_sub, lemma_ring_small, lemma_total_linear,
    lemma_total_zero, lemma_total_spread, lemma_beaver};
use crate::store::Party;

verus! {

/// Why an operation on shared values could not be carried out.
#[derive(Debug, Copy, Clone, PartialEq, Eq, Structural)]
pub enum ShareError {
    /// Some party holds no share under a name that the operation reads.
    MissingShare,
    /// An engine needs at least one party.
    NoParties,
}

/// The shares of `value` for `blinds.len() + 1` parties: the blinds, then
/// what is left of `value` once they are taken off.
pub open spec fn split_spec(value: u64, blinds: Seq<u64>) -> Seq<u64> {
    blinds.push(ring(value - total(blinds)) as u64)
}

/// The part of the cross term `t` that party `i` of `n` adds: the quotient
/// `t / n` for each, and the remainder on top for the first.
pub open spec fn spread_part(t: u64, n: u32, i: int) -> u64 {
    if i == 0 {
        (t as int / n as int + t as int % n as int) as u64
    } else {
        (t as int / n as int) as u64
    }
}

/// Splits `value` into shares over the ring: the given blinds, then a last
/// share that makes the sum `value`.
pub fn split_with(value: u64, blinds: &Vec<u64>) -> (r: Vec<u64>)
    ensures
        r@ == split_spec(value, blinds@),
        ring(total(r@)) == value,
{
    let mut r: Vec<u64> = Vec::new();
    let mut acc: u64 = 0;
    let n = blinds.len();
    let mut i: usize = 0;
    while i < n
        invariant
            n == blinds@.len(),
            0 <= i <= n,
            r@ == blinds@.take(i as int),
            acc as int == ring(total(blinds@.take(i as int))),
        decreases n - i,
    {
        proof {
            lemma_total_step(blinds@, i as int);
            lemma_wrapping_add(acc, blinds[i as int]);
            lemma_ring_add(total(blinds@.take(i as int)), blinds[i as int] as int);
        }
        acc = acc.wrapping_add(blinds[i]);
        r.push(blinds[i]);
        assert(r@ =~= blinds@.take(i + 1));
        i = i + 1;
    }
    assert(blinds@.take(n as int) =~= blinds@);
    let last = value.wrapping_sub(acc);
    proof {
        lemma_wrapping_sub(value, acc);
        lemma_ring_sub(value as int, total(blinds@));
        lemma_ring_small(value as int);
    }
    r.push(last);
    proof {
        assert(r@.drop_last() =~= blinds@);
        lemma_ring_add(total(blinds@), last as int);
        lemma_ring_add(total(blinds@), value - total(blinds@));
        lemma_ring_small(value as int);
    }
    r
}

/// Relies on rand::random: a value drawn from the thread-local generator.
/// Nothing is known of the value drawn.
pub assume_specification<T>[ rand::random::<T> ]() -> (r: T)
    where
        rand::distributions::Standard: rand::distributions::Distribution<T>,
;

/// Draws `count` uniformly random ring elements.
fn draw_blinds(count: u32) -> (r: Vec<u64>)
    ensures
        r@.len() == count,
{
    let mut r: Vec<u64> = Vec::new();
    let mut i: u32 = 0;
    while i < count
        invariant
            0 <= i <= count,
            r@.len() == i,
        decreases count - i,
    {
        r.push(rand::random::<u64>());
        i = i + 1;
    }
    r
}

/// The name under which the first factor of the multiplication triple is kept.
pub open spec fn a_key() -> Seq<char> {
    "a"@
}

/// The name under which the second factor of the multiplication triple is kept.
pub open spec fn b_key() -> Seq<char> {
    "b"@
}

/// The name under which the product of the multiplication triple is kept.
pub open spec fn c_key() -> Seq<char> {
    "c"@
}

/// The name under which the blinded first operand of a product is kept.
pub open spec fn sigma_key() -> Seq<char> {
    "sigma"@
}

/// The name under which the blinded second operand of a product is kept.
pub open spec fn rho_key() -> Seq<char> {
    "rho"@
}

proof fn lemma_reserved_distinct()
    ensures
        sigma_key() != a_key(),
        sigma_key() != b_key(),
        sigma_key() != c_key(),
        rho_key() != a_key(),
        rho_key() != b_key(),
        rho_key() != c_key(),
        rho_key() != sigma_key(),
        a_key() != b_key(),
        a_key() != c_key(),
        b_key() != c_key(),
{
    reveal_strlit("a");
    reveal_strlit("b");
    reveal_strlit("c");
    reveal_strlit("sigma");
    reveal_strlit("rho");
    assert("a"@[0] != "b"@[0]);
    assert("a"@[0] != "c"@[0]);
    assert("b"@[0] != "c"@[0]);
    assert("rho"@[0] != "sigma"@[0]);
}

/// Splits `value` into `node_number` shares with fresh random blinds.
pub fn split_m(value: u64, node_number: u32) -> (r: Vec<u64>)
    ensures
        r@.len() == node_number,
        node_number >= 1 ==> ring(total(r@)) == value,
        node_number == 1 ==> r@ == seq![value],
{
    if node_number == 0 {
        return Vec::new();
    }
    let blinds = draw_blinds(node_number - 1);
    let r = split_with(value, &blinds);
    proof {
        if node_number == 1 {
            assert(blinds@ =~= Seq::<u64>::empty());
            lemma_ring_small(value as int);
            assert(r@ =~= seq![value]);
        }
    }
    r
}

/// `N` parties, each with its own store of shares.
pub struct PS {
    node_number: u32,
    ps: Vec<Party>,
}

impl PS {
    /// The engine keeps exactly one store per party, and at least one party.
    pub closed spec fn wf(&self) -> bool {
        &&& self.node_number >= 1
        &&& self.ps@.len() == self.node_number
    }

    /// The number of parties.
    pub closed spec fn parties(&self) -> nat {
        self.node_number as nat
    }

    /// Every party holds a share under `k`.
    pub closed spec fn holds(&self, k: Seq<char>) -> bool {
        forall|i: int| 0 <= i < self.ps@.len() ==> #[trigger] self.ps@[i].share(k) is Some
    }

    /// The parties' shares under `k`, party by party.
    pub closed spec fn shares(&self, k: Seq<char>) -> Seq<u64> {
        Seq::new(self.ps@.len(), |i: int| self.ps@[i].held(k))
    }

    /// The value that the shares under `k` stand for.
    pub open spec fn value(&self, k: Seq<char>) -> int {
        ring(total(self.shares(k)))
    }

    /// Every name but `k` holds in `self` what it holds in `other`.
    pub open spec fn same_except(&self, other: &PS, k: Seq<char>) -> bool {
        &&& self.parties() == other.parties()
        &&& forall|j: Seq<char>|
            j != k ==> self.holds(j) == other.holds(j) && self.shares(j) == other.shares(j)
    }

    closed spec fn parties_agree_except(&self, other: &PS, k: Seq<char>) -> bool {
        &&& self.ps@.len() == other.ps@.len()
        &&& forall|i: int, j: Seq<char>|
            0 <= i < self.ps@.len() && j != k ==> #[trigger] self.ps@[i].share(j)
                == other.ps@[i].share(j)
    }

    proof fn lemma_agree(&self, other: &PS, k: Seq<char>)
        requires
            self.parties_agree_except(other, k),
            self.node_number == other.node_number,
        ensures
            self.same_except(other, k),
    {
        assert forall|j: Seq<char>| j != k implies self.holds(j) == other.holds(j)
            && self.shares(j) == other.shares(j) by {
            assert(self.shares(j) =~= other.shares(j));
            if self.holds(j) {
                assert forall|i: int| 0 <= i < other.ps@.len() implies #[trigger] other.ps@[i].share(
                    j,
                ) is Some by {
                    assert(self.ps@[i].share(j) is Some);
                }
            }
            if other.holds(j) {
                assert forall|i: int| 0 <= i < self.ps@.len() implies #[trigger] self.ps@[i].share(
                    j,
                ) is Some by {
                    assert(other.ps@[i].share(j) is Some);
                }
            }
        }
    }

    /// An engine of `node_number` parties with empty stores.
    pub fn new(node_number: u32) -> (r: Result<PS, ShareError>)
        ensures
            node_number == 0 <==> r is Err,
            r is Err ==> r->Err_0 == ShareError::NoParties,
            r is Ok ==> r->Ok_0.wf() && r->Ok_0.parties() == node_number && forall|k: Seq<char>|
                !r->Ok_0.holds(k),
    {
        if node_number == 0 {
            return Err(ShareError::NoParties);
        }
        let mut ps: Vec<Party> = Vec::new();
        let mut i: u32 = 0;
        while i < node_number
            invariant
                0 <= i <= node_number,
                ps@.len() == i,
                forall|j: int, k: Seq<char>| 0 <= j < i ==> #[trigger] ps@[j].share(k) is None,
            decreases node_number - i,
        {
            ps.push(Party::new());
            i = i + 1;
        }
        let r = PS { node_number, ps };
        assert forall|k: Seq<char>| !r.holds(k) by {
            assert(r.ps@[0].share(k) is None);
        }
        Ok(r)
    }

    /// Whether every party holds a share under `name`.
    pub fn holds_all(&self, name: &String) -> (r: bool)
        requires
            self.wf(),
        ensures
            r == self.holds(name@),
    {
        let n = self.ps.len();
        let mut i: usize = 0;
        while i < n
            invariant
                n == self.ps@.len(),
                0 <= i <= n,
                forall|j: int| 0 <= j < i ==> #[trigger] self.ps@[j].share(name@) is Some,
            decreases n - i,
        {
            if self.ps[i].get_fl(name).is_none() {
                return false;
            }
            i = i + 1;
        }
        true
    }

    /// Opens the value under `name`: the sum of every party's share of it.
    pub fn decode(&self, name: &String) -> (r: Result<u64, ShareError>)
        requires
            self.wf(),
        ensures
            r is Ok <==> self.holds(name@),
            r is Ok ==> r->Ok_0 as int == self.value(name@),
            r is Err ==> r->Err_0 == ShareError::MissingShare,
    {
        let n = self.ps.len();
        let mut acc: u64 = 0;
        let mut i: usize = 0;
        while i < n
            invariant
                n == self.ps@.len(),
                0 <= i <= n,
                forall|j: int| 0 <= j < i ==> #[trigger] self.ps@[j].share(name@) is Some,
                acc as int == ring(total(self.shares(name@).take(i as int))),
            decreases n - i,
        {
            match self.ps[i].get_fl(name) {
                None => {
                    return Err(ShareError::MissingShare);
                },
                Some(v) => {
                    proof {
                        lemma_total_step(self.shares(name@), i as int);
                        lemma_wrapping_add(acc, v);
                        lemma_ring_add(total(self.shares(name@).take(i as int)), v as int);
                    }
                    acc = acc.wrapping_add(v);
                },
            }
            i = i + 1;
        }
        assert(self.shares(name@).take(n as int) =~= self.shares(name@));
        Ok(acc)
    }

    /// Hands share `i` of `shares` to party `i`, under `name`.
    pub fn let_shares(&mut self, name: String, shares: &Vec<u64>)
        requires
            old(self).wf(),
            shares@.len() == old(self).parties(),
        ensures
            final(self).wf(),
            final(self).holds(name@),
            final(self).shares(name@) == shares@,
            final(self).same_except(old(self), name@),
    {
        let n = self.ps.len();
        let ghost pre = *self;
        let mut i: usize = 0;
        while i < n
            invariant
                n == self.ps@.len(),
                n == pre.ps@.len(),
                self.node_number == pre.node_number,
                pre.wf(),
                shares@.len() == n,
                0 <= i <= n,
                forall|j: int| 0 <= j < i ==> #[trigger] self.ps@[j].share(name@) == Some(shares@[j]),
                forall|j: int| i <= j < n ==> #[trigger] self.ps@[j] == pre.ps@[j],
                self.parties_agree_except(&pre, name@),
            decreases n - i,
        {
            self.ps[i].apply_share(name.clone(), shares[i]);
            i = i + 1;
        }
        assert(self.shares(name@) =~= shares@);
        proof {
            self.lemma_agree(&pre, name@);
        }
    }

    /// Splits `value` over the parties with the given blinds, one fewer than
    /// the parties, and stores the shares under `name`.
    pub fn let_value_with_blinds(&mut self, name: String, value: u64, blinds: &Vec<u64>)
        requires
            old(self).wf(),
            blinds@.len() + 1 == old(self).parties(),
        ensures
            final(self).wf(),
            final(self).holds(name@),
            final(self).shares(name@) == split_spec(value, blinds@),
            final(self).value(name@) == value,
            final(self).same_except(old(self), name@),
    {
        let shares = split_with(value, blinds);
        self.let_shares(name, &shares);
    }

    /// Splits `value` over the parties with fresh random blinds and stores
    /// the shares under `name`.
    pub fn let_value(&mut self, name: String, value: u64)
        requires
            old(self).wf(),
        ensures
            final(self).wf(),
            final(self).holds(name@),
            final(self).value(name@) == value,
            final(self).same_except(old(self), name@),
    {
        let blinds = draw_blinds(self.node_number - 1);
        self.let_value_with_blinds(name, value, &blinds);
    }

    /// Every party stores under `dest` the difference of its shares under `x` and `y`.
    pub fn self_subtraction(&mut self, dest: String, x: &String, y: &String) -> (r: Result<
        (),
        ShareError,
    >)
        requires
            old(self).wf(),
        ensures
            final(self).wf(),
            r is Ok <==> old(self).holds(x@) && old(self).holds(y@),
            r is Err ==> r->Err_0 == ShareError::MissingShare && *final(self) == *old(self),
            r is Ok ==> final(self).holds(dest@) && final(self).value(dest@) == ring(
                old(self).value(x@) - old(self).value(y@),
            ) && final(self).same_except(old(self), dest@),
    {
        if !self.holds_all(x) || !self.holds_all(y) {
            return Err(ShareError::MissingShare);
        }
        let n = self.ps.len();
        let ghost pre = *self;
        let mut i: usize = 0;
        while i < n
            invariant
                n == self.ps@.len(),
                n == pre.ps@.len(),
                self.node_number == pre.node_number,
                pre.wf(),
                pre.holds(x@),
                pre.holds(y@),
                0 <= i <= n,
                forall|j: int| 0 <= j < i ==> #[trigger] self.ps@[j].share(dest@) == Some(
                    pre.ps@[j].held(x@).wrapping_sub(pre.ps@[j].held(y@)),
                ),
                forall|j: int| i <= j < n ==> #[trigger] self.ps@[j] == pre.ps@[j],
                self.parties_agree_except(&pre, dest@),
            decreases n - i,
        {
            assert(pre.ps@[i as int].share(x@) is Some);
            assert(pre.ps@[i as int].share(y@) is Some);
            self.ps[i].self_subtraction(dest.clone(), x, y);
            i = i + 1;
        }
        proof {
            self.lemma_agree(&pre, dest@);
            let zero = Seq::new(n as nat, |j: int| 0u64);
            assert forall|j: int| 0 <= j < n implies #[trigger] self.shares(dest@)[j] as int == ring(
                1 * pre.shares(x@)[j] + (-1) * pre.shares(y@)[j] + zero[j] + zero[j],
            ) by {
                lemma_wrapping_sub(pre.ps@[j].held(x@), pre.ps@[j].held(y@));
            }
            lemma_total_zero(zero);
            lemma_total_linear(self.shares(dest@), pre.shares(x@), pre.shares(y@), zero, zero, 1, -1);
            lemma_ring_sub(total(pre.shares(x@)), total(pre.shares(y@)));
            assert(self.holds(dest@)) by {
                assert forall|j: int| 0 <= j < n implies #[trigger] self.ps@[j].share(dest@) is Some by {
                }
            }
        }
        Ok(())
    }

    /// Every party stores under `dest` the sum of its shares under `x` and `y`:
    /// the shares under `dest` stand for `x + y`, with no value opened.
    pub fn add(&mut self, dest: String, x: &String, y: &String) -> (r: Result<(), ShareError>)
        requires
            old(self).wf(),
        ensures
            final(self).wf(),
            r is Ok <==> old(self).holds(x@) && old(self).holds(y@),
            r is Err ==> r->Err_0 == ShareError::MissingShare && *final(self) == *old(self),
            r is Ok ==> final(self).holds(dest@) && final(self).value(dest@) == ring(
                old(self).value(x@) + old(self).value(y@),
            ) && final(self).same_except(old(self), dest@),
    {
        if !self.holds_all(x) || !self.holds_all(y) {
            return Err(ShareError::MissingShare);
        }
        let n = self.ps.len();
        let ghost pre = *self;
        let mut i: usize = 0;
        while i < n
            invariant
                n == self.ps@.len(),
                n == pre.ps@.len(),
                self.node_number == pre.node_number,
                pre.wf(),
                pre.holds(x@),
                pre.holds(y@),
                0 <= i <= n,
                forall|j: int| 0 <= j < i ==> #[trigger] self.ps@[j].share(dest@) == Some(
                    pre.ps@[j].held(y@).wrapping_add(pre.ps@[j].held(x@)),
                ),
                forall|j: int| i <= j < n ==> #[trigger] self.ps@[j] == pre.ps@[j],
                self.parties_agree_except(&pre, dest@),
            decreases n - i,
        {
            assert(pre.ps@[i as int].share(x@) is Some);
            assert(pre.ps@[i as int].share(y@) is Some);
            self.ps[i].self_addition(dest.clone(), x, y);
            i = i + 1;
        }
        proof {
            self.lemma_agree(&pre, dest@);
            let zero = Seq::new(n as nat, |j: int| 0u64);
            assert forall|j: int| 0 <= j < n implies #[trigger] self.shares(dest@)[j] as int == ring(
                1 * pre.shares(x@)[j] + 1 * pre.shares(y@)[j] + zero[j] + zero[j],
            ) by {
                lemma_wrapping_add(pre.ps@[j].held(y@), pre.ps@[j].held(x@));
            }
            lemma_total_zero(zero);
            lemma_total_linear(self.shares(dest@), pre.shares(x@), pre.shares(y@), zero, zero, 1, 1);
            lemma_ring_add(total(pre.shares(x@)), total(pre.shares(y@)));
            assert(self.holds(dest@)) by {
                assert forall|j: int| 0 <= j < n implies #[trigger] self.ps@[j].share(dest@) is Some by {
                }
            }
        }
        Ok(())
    }

    /// Every party stores under `dest` its share of
    /// `rho * a + sigma * b + c + sigma * rho`, the cross term spread over the parties.
    fn compute_z(&mut self, dest: String, sigma: u64, rho: u64, a: &String, b: &String, c: &String)
        requires
            old(self).wf(),
            old(self).holds(a@),
            old(self).holds(b@),
            old(self).holds(c@),
        ensures
            final(self).wf(),
            final(self).holds(dest@),
            final(self).value(dest@) == ring(
                rho * total(old(self).shares(a@)) + sigma * total(old(self).shares(b@)) + total(
                    old(self).shares(c@),
                ) + ring(sigma * rho),
            ),
            final(self).same_except(old(self), dest@),
    {
        let n = self.ps.len();
        let nn = self.node_number;
        let ghost pre = *self;
        let t = sigma.wrapping_mul(rho);
        let q = t / (nn as u64);
        let rm = t % (nn as u64);
        proof {
            lemma_wrapping_mul(sigma, rho);
            vstd::arithmetic::div_mod::lemma_fundamental_div_mod(t as int, nn as int);
            assert(q + rm <= t) by (nonlinear_arith)
                requires
                    t == nn * q + rm,
                    nn >= 1,
                    q >= 0,
                    rm >= 0,
            ;
        }
        let mut i: usize = 0;
        while i < n
            invariant
                n == self.ps@.len(),
                n == pre.ps@.len(),
                nn == pre.node_number,
                self.node_number == pre.node_number,
                pre.wf(),
                pre.holds(a@),
                pre.holds(b@),
                pre.holds(c@),
                q == t / (nn as u64),
                rm == t % (nn as u64),
                q + rm <= t,
                0 <= i <= n,
                forall|j: int| 0 <= j < i ==> #[trigger] self.ps@[j].share(dest@) is Some && self.ps@[j].held(dest@)
                    as int == ring(
                    rho * pre.ps@[j].held(a@) + sigma * pre.ps@[j].held(b@) + pre.ps@[j].held(c@)
                        + spread_part(t, nn, j),
                ),
                forall|j: int| i <= j < n ==> #[trigger] self.ps@[j] == pre.ps@[j],
                self.parties_agree_except(&pre, dest@),
            decreases n - i,
        {
            assert(pre.ps@[i as int].share(a@) is Some);
            assert(pre.ps@[i as int].share(b@) is Some);
            assert(pre.ps@[i as int].share(c@) is Some);
            let spread = if i == 0 {
                q + rm
            } else {
                q
            };
            self.ps[i].compute_z(dest.clone(), sigma, rho, a, b, c, spread);
            i = i + 1;
        }
        proof {
            self.lemma_agree(&pre, dest@);
            let d = Seq::new(n as nat, |j: int| spread_part(t, nn, j));
            assert forall|j: int| 0 <= j < n implies #[trigger] self.shares(dest@)[j] as int == ring(
                rho * pre.shares(a@)[j] + sigma * pre.shares(b@)[j] + pre.shares(c@)[j] + d[j],
            ) by {
                assert(self.ps@[j].share(dest@) is Some);
            }
            lemma_total_linear(
                self.shares(dest@),
                pre.shares(a@),
                pre.shares(b@),
                pre.shares(c@),
                d,
                rho as int,
                sigma as int,
            );
            lemma_total_spread(d, q as int, rm as int);
            assert(self.holds(dest@)) by {
                assert forall|j: int| 0 <= j < n implies #[trigger] self.ps@[j].share(dest@) is Some by {
                }
            }
        }
    }

    /// Multiplies the values under `x` and `y` with the triple kept under
    /// `a`, `b` and `c`: the blinded `x - a` and `y - b` are opened under
    /// `sigma` and `rho`, and every party then stores its share of the product
    /// under `dest`. Where the triple holds `c = a * b`, the shares under `dest`
    /// stand for `x * y`.
    pub fn mul(&mut self, dest: String, x: &String, y: &String) -> (r: Result<(), ShareError>)
        requires
            old(self).wf(),
            y@ != sigma_key(),
        ensures
            final(self).wf(),
            final(self).parties() == old(self).parties(),
            r is Ok <==> old(self).holds(x@) && old(self).holds(y@) && old(self).holds(a_key())
                && old(self).holds(b_key()) && old(self).holds(c_key()),
            r is Err ==> r->Err_0 == ShareError::MissingShare && *final(self) == *old(self),
            r is Ok ==> final(self).holds(dest@),
            r is Ok && old(self).value(c_key()) == ring(
                old(self).value(a_key()) * old(self).value(b_key()),
            ) ==> final(self).value(dest@) == ring(old(self).value(x@) * old(self).value(y@)),
            r is Ok ==> forall|j: Seq<char>|
                j != dest@ && j != sigma_key() && j != rho_key() ==> final(self).holds(j)
                    == old(self).holds(j) && final(self).shares(j) == old(self).shares(j),
    {
        let a = "a".to_owned();
        let b = "b".to_owned();
        let c = "c".to_owned();
        let sigma_name = "sigma".to_owned();
        let rho_name = "rho".to_owned();
        proof {
            lemma_reserved_distinct();
        }
        if !self.holds_all(x) || !self.holds_all(y) || !self.holds_all(&a) || !self.holds_all(&b)
            || !self.holds_all(&c) {
            return Err(ShareError::MissingShare);
        }
        let ghost s0 = *self;
        match self.self_subtraction(sigma_name.clone(), x, &a) {
            Ok(()) => {},
            Err(e) => {
                return Err(e);
            },
        }
        let ghost s1 = *self;
        match self.self_subtraction(rho_name.clone(), y, &b) {
            Ok(()) => {},
            Err(e) => {
                return Err(e);
            },
        }
        let ghost s2 = *self;
        let sigma = match self.decode(&sigma_name) {
            Ok(v) => v,
            Err(e) => {
                return Err(e);
            },
        };
        let rho = match self.decode(&rho_name) {
            Ok(v) => v,
            Err(e) => {
                return Err(e);
            },
        };
        self.compute_z(dest, sigma, rho, &a, &b, &c);
        proof {
            let vx = s0.value(x@);
            let vy = s0.value(y@);
            let ta = total(s0.shares(a_key()));
            let tb = total(s0.shares(b_key()));
            let tc = total(s0.shares(c_key()));
            assert(s2.shares(a_key()) == s0.shares(a_key()));
            assert(s2.shares(b_key()) == s0.shares(b_key()));
            assert(s2.shares(c_key()) == s0.shares(c_key()));
            assert(s1.value(y@) == vy);
            lemma_ring_small(vx);
            lemma_ring_small(vy);
            lemma_ring_small(sigma as int);
            lemma_ring_small(rho as int);
            lemma_ring_sub(vx, ta);
            lemma_ring_sub(vy, tb);
            if s0.value(c_key()) == ring(s0.value(a_key()) * s0.value(b_key())) {
                lemma_ring_mul(ta, tb);
                lemma_beaver(vx, vy, ta, tb, tc, sigma as int, rho as int);
            }
        }
        Ok(())
    }

    /// Sets up a multiplication triple: splits `a`, `b` and their product
    /// over the parties under the names `a`, `b` and `c`.
    pub fn set_triple(&mut self, a: u64, b: u64)
        requires
            old(self).wf(),
        ensures
            final(self).wf(),
            final(self).parties() == old(self).parties(),
            final(self).holds(a_key()),
            final(self).holds(b_key()),
            final(self).holds(c_key()),
            final(self).value(a_key()) == a,
            final(self).value(b_key()) == b,
            final(self).value(c_key()) == ring(a * b),
            final(self).value(c_key()) == ring(final(self).value(a_key()) * final(self).value(
                b_key(),
            )),
    {
        proof {
            lemma_reserved_distinct();
        }
        self.let_value("a".to_owned(), a);
        self.let_value("b".to_owned(), b);
        let c = a.wrapping_mul(b);
        proof {
            lemma_wrapping_mul(a, b);
        }
        self.let_value("c".to_owned(), c);
        proof {
            lemma_ring_small(c as int);
        }
    }

    /// An engine of a hundred parties with the triple `9, 6, 54` set up.
    pub fn init() -> (r: Self)
        ensures
            r.wf(),
            r.parties() == 100,
            r.holds(a_key()),
            r.holds(b_key()),
            r.holds(c_key()),
            r.value(a_key()) == 9,
            r.value(b_key()) == 6,
            r.value(c_key()) == 54,
    {
        let mut ps = PS::new(100).unwrap();
        ps.set_triple(9, 6);
        proof {
            lemma_ring_small(54);
        }
        ps
    }

    /// Drops the shares under `name` from every party.
    pub fn remove_value(&mut self, name: &String)
        requires
            old(self).wf(),
        ensures
            final(self).wf(),
            !final(self).holds(name@),
            final(self).same_except(old(self), name@),
    {
        let n = self.ps.len();
        let ghost pre = *self;
        let mut i: usize = 0;
        while i < n
            invariant
                n == self.ps@.len(),
                n == pre.ps@.len(),
                self.node_number == pre.node_number,
                pre.wf(),
                0 <= i <= n,
                forall|j: int| 0 <= j < i ==> #[trigger] self.ps@[j].share(name@) is None,
                forall|j: int| i <= j < n ==> #[trigger] self.ps@[j] == pre.ps@[j],
                self.parties_agree_except(&pre, name@),
            decreases n - i,
        {
            self.ps[i].remove_share(name);
            i = i + 1;
        }
        assert(self.ps@[0].share(name@) is None);
        proof {
            self.lemma_agree(&pre, name@);
        }
    }
}

} // verus!

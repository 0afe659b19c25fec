//! A deterministic source of choices.
//!
//! Everything drawn is a function of a seed, so a run that found something can
//! be run again. A generator is split by label: each kind of decision takes a
//! stream of its own, and adding a decision does not move the others.

use vstd::prelude::*;

verus! {

/// What a generator's state moves on by at each draw.
pub const STEP: u64 = 0x9e37_79b9_7f4a_7c15;

/// A state with its bits spread over the whole word.
pub open spec fn scrambled(z: u64) -> u64 {
    let a = (z ^ (z >> 30)).wrapping_mul(0xbf58_476d_1ce4_e5b9);
    let b = (a ^ (a >> 27)).wrapping_mul(0x94d0_49bb_1331_11eb);
    b ^ (b >> 31)
}

/// The state whose scrambling a number is: there is one for every number.
pub open spec fn unscrambled(n: u64) -> u64 {
    let b = n ^ (n >> 31) ^ (n >> 62);
    let t = b.wrapping_mul(0x3196_42b2_d24d_8ec3);
    let a = t ^ (t >> 27) ^ (t >> 54);
    let u = a.wrapping_mul(0x96de_1b17_3f11_9089);
    u ^ (u >> 30) ^ (u >> 60)
}

/// A product is undone by the inverse of its factor.
proof fn lemma_product_undone(x: u64, d: u64, c: u64, k: int)
    requires
        d as int * c as int == 1 + k * 0x1_0000_0000_0000_0000,
    ensures
        x.wrapping_mul(d).wrapping_mul(c) == x,
{
    let m = 0x1_0000_0000_0000_0000int;
    let xd = x as int * d as int;
    vstd::arithmetic::div_mod::lemma_mul_mod_noop_left(xd, c as int, m);
    assert(xd * c as int == m * (x as int * k) + x as int) by (nonlinear_arith)
        requires
            xd == x as int * d as int,
            d as int * c as int == 1 + k * m,
    ;
    vstd::arithmetic::div_mod::lemma_mod_multiples_vanish(x as int * k, x as int, m);
}

/// Every number is the scrambling of some state.
pub proof fn law_every_number_is_drawn(n: u64)
    ensures
        scrambled(unscrambled(n)) == n,
{
    let b = n ^ (n >> 31) ^ (n >> 62);
    let t = b.wrapping_mul(0x3196_42b2_d24d_8ec3);
    let a = t ^ (t >> 27) ^ (t >> 54);
    let u = a.wrapping_mul(0x96de_1b17_3f11_9089);
    let z = u ^ (u >> 30) ^ (u >> 60);
    assert(z ^ (z >> 30) == u) by (bit_vector)
        requires
            z == u ^ (u >> 30) ^ (u >> 60),
    ;
    assert(a ^ (a >> 27) == t) by (bit_vector)
        requires
            a == t ^ (t >> 27) ^ (t >> 54),
    ;
    assert(b ^ (b >> 31) == n) by (bit_vector)
        requires
            b == n ^ (n >> 31) ^ (n >> 62),
    ;
    lemma_product_undone(a, 0x96de_1b17_3f11_9089, 0xbf58_476d_1ce4_e5b9, 8125545580553827436);
    lemma_product_undone(b, 0x3196_42b2_d24d_8ec3, 0x94d0_49bb_1331_11eb, 2077064247507883091);
}

fn scramble(z: u64) -> (r: u64)
    ensures
        r == scrambled(z),
{
    let a: u64 = (z ^ (z >> 30)).wrapping_mul(0xbf58_476d_1ce4_e5b9);
    let b: u64 = (a ^ (a >> 27)).wrapping_mul(0x94d0_49bb_1331_11eb);
    b ^ (b >> 31)
}

/// A label as a number.
pub open spec fn label_number(label: Seq<char>) -> u64
    decreases label.len(),
{
    if label.len() == 0 {
        0xcbf2_9ce4_8422_2325
    } else {
        (label_number(label.drop_last()) ^ (label.last() as u64)).wrapping_mul(0x100_0000_01b3)
    }
}

/// A source of choices.
#[derive(Debug, Clone)]
pub struct Rng {
    seed: u64,
    state: u64,
}

/// What a source of choices is: where it began, and where it stands.
pub struct RngView {
    pub seed: u64,
    pub state: u64,
}

impl View for Rng {
    type V = RngView;

    closed spec fn view(&self) -> RngView {
        RngView { seed: self.seed, state: self.state }
    }
}

impl RngView {
    /// A source that has given nothing yet.
    pub open spec fn fresh(seed: u64) -> RngView {
        RngView { seed, state: seed }
    }

    /// The source after one draw.
    pub open spec fn moved(self) -> RngView {
        RngView { seed: self.seed, state: self.state.wrapping_add(STEP) }
    }

    /// What the next draw gives.
    pub open spec fn number(self) -> u64 {
        scrambled(self.moved().state)
    }

    /// What the next draw from a range gives.
    pub open spec fn within(self, lo: u64, hi: u64) -> u64 {
        (lo as int + self.number() as int % (hi - lo)) as u64
    }

    /// Whether something with this many chances in a hundred comes up.
    pub open spec fn lands(self, percent: u32) -> bool {
        self.within(0, 100) < percent
    }

    /// How many draws come before the one that gives a number.
    pub open spec fn ahead(self, n: u64) -> u64 {
        unscrambled(n).wrapping_sub(self.moved().state).wrapping_mul(0xf1de_83e1_9937_733d)
    }

    /// The stream a label names.
    pub open spec fn labelled(self, label: Seq<char>) -> RngView {
        RngView::fresh(scrambled(self.seed ^ label_number(label)))
    }
}

/// A source gives every number some day: each draw brings it one nearer.
pub proof fn law_a_number_comes_nearer(source: RngView, n: u64)
    ensures
        source.ahead(n) == 0 ==> source.number() == n,
        source.ahead(n) > 0 ==> source.moved().ahead(n) == source.ahead(n) - 1,
{
    let m = 0x1_0000_0000_0000_0000int;
    let inverse = 0xf1de_83e1_9937_733du64;
    let k = 10771413168148108919int;
    let here = source.moved().state;
    let there = source.moved().moved().state;
    let gap = unscrambled(n).wrapping_sub(here);
    let next = unscrambled(n).wrapping_sub(there);
    law_every_number_is_drawn(n);
    lemma_product_undone(gap, inverse, STEP, k);
    if source.ahead(n) == 0 {
        assert(gap == 0);
        assert(here == unscrambled(n));
    } else {
        let left = source.ahead(n) as int;
        let whole = gap as int * inverse as int;
        let q = whole / m;
        let e = if next as int == gap - STEP {
            0int
        } else {
            1int
        };
        assert(next as int == gap - STEP + e * m);
        assert(whole == q * m + left);
        assert(next as int * inverse as int == m * (q - k + e * inverse as int) + (left - 1))
            by (nonlinear_arith)
            requires
                next as int == gap - STEP + e * m,
                gap as int * inverse as int == q * m + left,
                STEP as int * inverse as int == 1 + k * m,
        ;
        vstd::arithmetic::div_mod::lemma_mod_multiples_vanish(
            q - k + e * inverse as int,
            left - 1,
            m,
        );
        vstd::arithmetic::div_mod::lemma_small_mod((left - 1) as nat, m as nat);
    }
}

impl Rng {
    pub fn new(seed: u64) -> (r: Self)
        ensures
            r@ == RngView::fresh(seed),
    {
        Rng { seed, state: seed }
    }

    /// The next number.
    pub fn next_u64(&mut self) -> (r: u64)
        ensures
            r == old(self)@.number(),
            final(self)@ == old(self)@.moved(),
    {
        self.state = self.state.wrapping_add(STEP);
        scramble(self.state)
    }

    /// The next number at or above `lo` and below `hi`.
    pub fn range(&mut self, lo: u64, hi: u64) -> (r: u64)
        requires
            lo < hi,
        ensures
            r == old(self)@.within(lo, hi),
            lo <= r < hi,
            final(self)@ == old(self)@.moved(),
    {
        let n: u64 = self.next_u64();
        lo + n % (hi - lo)
    }

    /// Whether something with `percent` chances in a hundred comes up.
    pub fn chance(&mut self, percent: u32) -> (r: bool)
        ensures
            r == old(self)@.lands(percent),
            percent == 0 ==> !r,
            percent >= 100 ==> r,
            final(self)@ == old(self)@.moved(),
    {
        let n: u64 = self.range(0, 100);
        n < percent as u64
    }

    /// The stream a label names. It is a function of the seed and the label,
    /// whatever was drawn or split before.
    pub fn split(&mut self, label: &str) -> (r: Rng)
        ensures
            r@ == old(self)@.labelled(label@),
            final(self)@ == old(self)@,
    {
        let count: usize = label.unicode_len();
        let mut number: u64 = 0xcbf2_9ce4_8422_2325;
        let mut i: usize = 0;
        assert(label@.take(0) =~= Seq::<char>::empty());
        while i < count
            invariant
                i <= count,
                count == label@.len(),
                number == label_number(label@.take(i as int)),
            decreases count - i,
        {
            let c: char = label.get_char(i);
            number = (number ^ (c as u64)).wrapping_mul(0x100_0000_01b3);
            i = i + 1;
            proof {
                assert(label@.take(i as int).drop_last() =~= label@.take(i - 1));
            }
        }
        proof {
            assert(label@.take(count as int) =~= label@);
        }
        Rng::new(scramble(self.seed ^ number))
    }
}

/// Streams do not depend on the order they were split off in, nor on what was
/// drawn before.
pub proof fn law_streams_do_not_disturb_each_other(rng: RngView, label: Seq<char>)
    ensures
        rng.moved().labelled(label) == rng.labelled(label),
{
}

/// A draw from a range stays in the range.
pub proof fn law_a_draw_stays_in_its_range(rng: RngView, lo: u64, hi: u64)
    requires
        lo < hi,
    ensures
        lo <= rng.within(lo, hi) < hi,
{
}

} // verus!

//! What a simulation draws: the numbers of a deterministic generator that starts from a seed, or
//! numbers that are handed in.

use vstd::prelude::*;

verus! {

/// One step of the xorshift generator.
pub open spec fn xorshift(s: u64) -> u64 {
    let a = s ^ (s << 13u64);
    let b = a ^ (a >> 7u64);
    b ^ (b << 17u64)
}

/// The state after a number of steps.
pub open spec fn rng_after(s: u64, n: nat) -> u64
    decreases n,
{
    if n == 0 {
        s
    } else {
        xorshift(rng_after(s, (n - 1) as nat))
    }
}

/// The state with which a generator starts from a seed. It is not zero, where a generator would
/// stay.
pub open spec fn first_state(seed: u64) -> u64 {
    if seed == 0 {
        0x9e37_79b9_7f4a_7c15
    } else {
        seed
    }
}

/// The low byte of a number.
pub open spec fn low_byte(x: u64) -> u8 {
    (x & 0xff) as u8
}

/// Where a simulation stands in what it draws: in the numbers of a generator, or in numbers that
/// are handed in, which come one after the other and then from the first again.
pub enum DrawsView {
    /// The state of the generator.
    Seed(u64),
    /// The numbers, and the place of the next one.
    List(Seq<u64>, int),
}

/// The number that is drawn next.
pub open spec fn drawn(s: DrawsView) -> u64 {
    match s {
        DrawsView::Seed(x) => xorshift(x),
        DrawsView::List(ns, i) => if 0 <= i < ns.len() {
            ns[i]
        } else {
            0
        },
    }
}

/// Where a simulation stands after a draw.
pub open spec fn after_draw(s: DrawsView) -> DrawsView {
    match s {
        DrawsView::Seed(x) => DrawsView::Seed(xorshift(x)),
        DrawsView::List(ns, i) => DrawsView::List(
            ns,
            if i + 1 < ns.len() {
                i + 1
            } else {
                0
            },
        ),
    }
}

/// Where a simulation stands after a number of draws.
pub open spec fn after_draws(s: DrawsView, n: nat) -> DrawsView
    decreases n,
{
    if n == 0 {
        s
    } else {
        after_draw(after_draws(s, (n - 1) as nat))
    }
}

/// The bytes that are drawn one by one.
pub open spec fn drawn_bytes(s: DrawsView, n: nat) -> Seq<u8> {
    Seq::new(n, |i: int| low_byte(drawn(after_draws(s, i as nat))))
}

/// Where a simulation that draws from a seed starts.
pub open spec fn from_seed(seed: u64) -> DrawsView {
    DrawsView::Seed(first_state(seed))
}

/// Simple deterministic generator for reproducibility.
#[derive(Clone, Copy, Debug)]
pub struct SimpleRng {
    state: u64,
}

impl SimpleRng {
    /// The state of the generator.
    pub closed spec fn spec_state(&self) -> u64 {
        self.state
    }

    /// Creates a generator from a seed.
    pub fn new(seed: u64) -> (r: Self)
        ensures
            r.spec_state() == seed,
    {
        SimpleRng { state: seed }
    }

    /// Creates a generator from a seed that draws from zero too.
    pub fn seeded(seed: u64) -> (r: Self)
        ensures
            r.spec_state() == first_state(seed),
    {
        SimpleRng { state: if seed == 0 { 0x9e37_79b9_7f4a_7c15 } else { seed } }
    }

    /// Draws a number.
    pub fn next(&mut self) -> (r: u64)
        ensures
            r == xorshift(old(self).spec_state()),
            final(self).spec_state() == r,
    {
        self.state = self.state ^ (self.state << 13u64);
        self.state = self.state ^ (self.state >> 7u64);
        self.state = self.state ^ (self.state << 17u64);
        self.state
    }

    /// Draws a number below `max`.
    pub fn next_usize(&mut self, max: usize) -> (r: usize)
        requires
            max > 0,
        ensures
            r == (xorshift(old(self).spec_state()) as usize) % max,
            final(self).spec_state() == xorshift(old(self).spec_state()),
    {
        (self.next() as usize) % max
    }

    /// Draws a 64-bit number below `max`.
    pub fn next_below(&mut self, max: u64) -> (r: u64)
        requires
            max > 0,
        ensures
            r == xorshift(old(self).spec_state()) % max,
            final(self).spec_state() == xorshift(old(self).spec_state()),
    {
        self.next() % max
    }
}

/// What a simulation draws from: a generator, or numbers that are handed in.
#[derive(Clone, Debug)]
pub struct Draws {
    rng: SimpleRng,
    numbers: Vec<u64>,
    next: usize,
    listed: bool,
}

impl Draws {
    /// Where the simulation stands.
    pub closed spec fn spec_state(&self) -> DrawsView {
        if self.listed {
            DrawsView::List(self.numbers@, self.next as int)
        } else {
            DrawsView::Seed(self.rng.spec_state())
        }
    }

    /// Draws from a generator that starts from a seed.
    pub fn seeded(seed: u64) -> (r: Self)
        ensures
            r.spec_state() == from_seed(seed),
    {
        Draws { rng: SimpleRng::seeded(seed), numbers: Vec::new(), next: 0, listed: false }
    }

    /// Draws the given numbers one after the other, and then from the first again; zeros where
    /// there are none.
    pub fn listed(numbers: Vec<u64>) -> (r: Self)
        ensures
            r.spec_state() == DrawsView::List(numbers@, 0),
    {
        Draws { rng: SimpleRng::new(0), numbers, next: 0, listed: true }
    }

    /// Draws a number.
    pub fn next(&mut self) -> (r: u64)
        ensures
            r == drawn(old(self).spec_state()),
            final(self).spec_state() == after_draw(old(self).spec_state()),
    {
        if self.listed {
            let i = self.next;
            let n = self.numbers.len();
            let r: u64 = if i < n {
                self.numbers[i]
            } else {
                0
            };
            self.next = if i < n && i + 1 < n {
                i + 1
            } else {
                0
            };
            r
        } else {
            self.rng.next()
        }
    }

    /// Draws a number below `max`.
    pub fn next_usize(&mut self, max: usize) -> (r: usize)
        requires
            max > 0,
        ensures
            r == (drawn(old(self).spec_state()) as usize) % max,
            final(self).spec_state() == after_draw(old(self).spec_state()),
    {
        (self.next() as usize) % max
    }

    /// Draws a 64-bit number below `max`.
    pub fn next_below(&mut self, max: u64) -> (r: u64)
        requires
            max > 0,
        ensures
            r == drawn(old(self).spec_state()) % max,
            final(self).spec_state() == after_draw(old(self).spec_state()),
    {
        self.next() % max
    }

    /// Draws bytes.
    pub fn next_bytes(&mut self, count: usize) -> (r: Vec<u8>)
        ensures
            r@ == drawn_bytes(old(self).spec_state(), count as nat),
            final(self).spec_state() == after_draws(old(self).spec_state(), count as nat),
    {
        let ghost s = self.spec_state();
        let mut r: Vec<u8> = Vec::new();
        let mut i: usize = 0;
        while i < count
            invariant
                i <= count,
                self.spec_state() == after_draws(s, i as nat),
                r@ == drawn_bytes(s, i as nat),
            decreases count - i,
        {
            let x = self.next();
            r.push((x & 0xff) as u8);
            i += 1;
            assert(r@ =~= drawn_bytes(s, i as nat));
        }
        r
    }
}

/// A generator that starts from a seed never gets stuck.
pub proof fn law_seed_is_alive(seed: u64, n: nat)
    ensures
        rng_after(first_state(seed), n) != 0,
{
    law_rng_stays_alive(first_state(seed), n);
}

/// Draws from numbers that are handed in give each in turn.
pub proof fn law_listed_in_turn(ns: Seq<u64>, n: nat)
    requires
        ns.len() > 0,
    ensures
        after_draws(DrawsView::List(ns, 0), n) == DrawsView::List(ns, n as int % ns.len() as int),
        drawn(after_draws(DrawsView::List(ns, 0), n)) == ns[n as int % ns.len() as int],
    decreases n,
{
    let d = ns.len() as int;
    if n == 0 {
        assert(0int % d == 0) by (nonlinear_arith)
            requires
                d > 0,
        ;
    } else {
        law_listed_in_turn(ns, (n - 1) as nat);
        vstd::arithmetic::div_mod::lemma_add_mod_noop(n - 1, 1, d);
        vstd::arithmetic::div_mod::lemma_mod_bound(n - 1, d);
        let r = (n - 1) % d;
        if d == 1 {
            vstd::arithmetic::div_mod::lemma_mod_bound(n as int, d);
        } else {
            vstd::arithmetic::div_mod::lemma_small_mod(1, d as nat);
            if r + 1 < d {
                vstd::arithmetic::div_mod::lemma_small_mod((r + 1) as nat, d as nat);
            } else {
                vstd::arithmetic::div_mod::lemma_mod_self_0(d);
            }
        }
    }
}

/// The generator never gets stuck: from a state other than zero it never reaches zero.
pub proof fn law_rng_stays_alive(s: u64, n: nat)
    requires
        s != 0,
    ensures
        rng_after(s, n) != 0,
    decreases n,
{
    if n > 0 {
        law_rng_stays_alive(s, (n - 1) as nat);
        let t = rng_after(s, (n - 1) as nat);
        assert(t != 0 ==> xorshift(t) != 0) by (bit_vector);
    }
}

/// What the generator gives for two states taken together, bit by bit, is what it gives for each
/// taken together.
pub proof fn law_draws_combine(a: u64, b: u64)
    ensures
        xorshift(a ^ b) == xorshift(a) ^ xorshift(b),
{
    assert(xorshift(a ^ b) == xorshift(a) ^ xorshift(b)) by (bit_vector);
}

/// For a state of four bits what the generator gives is the state at six places: at the bits 0, 6,
/// 13, 17, 23 and 30.
pub proof fn law_draw_places(s: u64)
    requires
        s < 16,
    ensures
        xorshift(s) == s * 0x4082_2041,
{
    assert(s < 16 ==> xorshift(s) == s * 0x4082_2041u64) by (bit_vector);
}

/// Different states give different numbers, so no state is reached twice before the first.
pub proof fn law_draws_differ(a: u64, b: u64)
    requires
        a != b,
    ensures
        xorshift(a) != xorshift(b),
{
    law_draws_combine(a, b);
    let x = a ^ b;
    assert(a != b ==> (a ^ b) != 0) by (bit_vector);
    assert(x != 0 ==> xorshift(x) != 0) by (bit_vector);
    let (p, q) = (xorshift(a), xorshift(b));
    assert((p ^ q) != 0 ==> p != q) by (bit_vector);
}

} // verus!

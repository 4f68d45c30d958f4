//! Random sampling used by the SLA support point generator: the 32-bit
//! Mersenne Twister (`mt19937`), the rejection-sampling uniform integer
//! distribution and the Fisher-Yates shuffle with the two-swaps-per-draw fast
//! path, drawing exactly the numbers of the libstdc++ definitions; and the
//! overlap test between islands.
use vstd::prelude::*;
use vstd::wrapping::u32_specs;
use crate::geometry::{ExPolygon, point_ok, points_ok, expoly_ok, expoly_overlaps, expoly_rings, expoly_view, polys_view, ring_hits_region};

verus! {

/// Number of state words.
pub const MT_N: usize = 624;

/// Middle word offset of the recurrence.
pub const MT_M: usize = 397;

pub const MT_MATRIX_A: u32 = 0x9908_b0df;

pub const MT_UPPER_MASK: u32 = 0x8000_0000;

pub const MT_LOWER_MASK: u32 = 0x7fff_ffff;

/// The default seed of `std::mt19937`.
pub const MT_DEFAULT_SEED: u32 = 5489;

/// Abstract state of the engine: the state words and the position of the
/// next word to temper.
pub struct MtState {
    pub words: Seq<u32>,
    pub index: int,
}

/// The initialization recurrence for word `i` from word `i - 1`.
pub open spec fn init_word(prev: u32, i: int) -> u32 {
    u32_specs::wrapping_add(
        u32_specs::wrapping_mul(1_812_433_253u32, prev ^ (prev >> 30u32)),
        i as u32,
    )
}

/// The first `n` state words produced from a seed.
pub open spec fn init_words(seed: u32, n: nat) -> Seq<u32>
    decreases n,
{
    if n == 0 {
        Seq::empty()
    } else if n == 1 {
        seq![seed]
    } else {
        let p = init_words(seed, (n - 1) as nat);
        p.push(init_word(p.last(), n - 1))
    }
}

/// The engine state after seeding.
pub open spec fn mt_seeded(seed: u32) -> MtState {
    MtState { words: init_words(seed, MT_N as nat), index: MT_N as int }
}

/// The new value of word `i` computed from the (partially twisted) words `t`.
pub open spec fn twist_word(t: Seq<u32>, i: int) -> u32 {
    let y = (t[i] & MT_UPPER_MASK) | (t[(i + 1) % (MT_N as int)] & MT_LOWER_MASK);
    let next = t[(i + MT_M as int) % (MT_N as int)] ^ (y >> 1u32);
    if y & 1u32 != 0 {
        next ^ MT_MATRIX_A
    } else {
        next
    }
}

/// The words after the first `n` of them have been regenerated in order.
pub open spec fn twist_prefix(s: Seq<u32>, n: nat) -> Seq<u32>
    decreases n,
{
    if n == 0 {
        s
    } else {
        let t = twist_prefix(s, (n - 1) as nat);
        t.update(n - 1, twist_word(t, n - 1))
    }
}

/// Tempering of a state word into an output value.
pub open spec fn temper(x: u32) -> u32 {
    let y1 = x ^ (x >> 11u32);
    let y2 = y1 ^ ((y1 << 7u32) & 0x9d2c_5680u32);
    let y3 = y2 ^ ((y2 << 15u32) & 0xefc6_0000u32);
    y3 ^ (y3 >> 18u32)
}

/// One draw: the output value and the following state.
pub open spec fn mt_next(st: MtState) -> (u32, MtState) {
    let (w, i) = if st.index >= MT_N as int {
        (twist_prefix(st.words, MT_N as nat), 0int)
    } else {
        (st.words, st.index)
    };
    (temper(w[i]), MtState { words: w, index: i + 1 })
}

/// A state that the engine can be in.
pub open spec fn mt_wf(st: MtState) -> bool {
    st.words.len() == MT_N && 0 <= st.index <= MT_N
}

proof fn lemma_init_words_len(seed: u32, n: nat)
    ensures
        init_words(seed, n).len() == n,
    decreases n,
{
    if n > 1 {
        lemma_init_words_len(seed, (n - 1) as nat);
    }
}

proof fn lemma_twist_prefix_len(s: Seq<u32>, n: nat)
    requires
        n <= s.len(),
    ensures
        twist_prefix(s, n).len() == s.len(),
    decreases n,
{
    if n > 0 {
        lemma_twist_prefix_len(s, (n - 1) as nat);
    }
}

/// The next state of a well-formed state is well formed.
pub proof fn lemma_mt_next_wf(st: MtState)
    requires
        mt_wf(st),
    ensures
        mt_wf(mt_next(st).1),
{
    lemma_twist_prefix_len(st.words, MT_N as nat);
}

/// `std::mt19937`, the 32-bit Mersenne Twister.
pub struct Mt19937 {
    mt: Vec<u32>,
    index: usize,
}

impl View for Mt19937 {
    type V = MtState;

    closed spec fn view(&self) -> MtState {
        MtState { words: self.mt@, index: self.index as int }
    }
}

impl Mt19937 {
    /// The engine seeded with the default seed 5489.
    pub fn new() -> (r: Mt19937)
        ensures
            r@ == mt_seeded(MT_DEFAULT_SEED),
            mt_wf(r@),
    {
        Self::with_seed(MT_DEFAULT_SEED)
    }

    fn seeded_words(seed: u32) -> (r: Vec<u32>)
        ensures
            r@ == init_words(seed, MT_N as nat),
    {
        let mut mt: Vec<u32> = Vec::new();
        mt.push(seed);
        let mut i: usize = 1;
        while i < MT_N
            invariant
                1 <= i <= MT_N,
                mt@ == init_words(seed, i as nat),
            decreases MT_N - i,
        {
            proof {
                lemma_init_words_len(seed, i as nat);
            }
            let prev = mt[i - 1];
            let next = 1_812_433_253u32.wrapping_mul(prev ^ (prev >> 30)).wrapping_add(i as u32);
            mt.push(next);
            i += 1;
        }
        mt
    }

    /// The engine seeded per the standard initialization.
    pub fn with_seed(seed: u32) -> (r: Mt19937)
        ensures
            r@ == mt_seeded(seed),
            mt_wf(r@),
    {
        let mt = Self::seeded_words(seed);
        proof {
            lemma_init_words_len(seed, MT_N as nat);
        }
        Mt19937 { mt, index: MT_N }
    }

    /// Re-seed the engine.
    pub fn seed(&mut self, s: u32)
        ensures
            final(self)@ == mt_seeded(s),
            mt_wf(final(self)@),
    {
        *self = Self::with_seed(s);
    }

    /// Regenerate all the state words.
    fn generate(&mut self)
        requires
            mt_wf(old(self)@),
        ensures
            final(self)@ == (MtState { words: twist_prefix(old(self)@.words, MT_N as nat), index: 0 }),
    {
        let ghost s0 = self.mt@;
        let mut i: usize = 0;
        while i < MT_N
            invariant
                0 <= i <= MT_N,
                s0.len() == MT_N,
                self.mt@ == twist_prefix(s0, i as nat),
                self.index == old(self).index,
            decreases MT_N - i,
        {
            proof {
                lemma_twist_prefix_len(s0, i as nat);
            }
            let y = (self.mt[i] & MT_UPPER_MASK) | (self.mt[(i + 1) % MT_N] & MT_LOWER_MASK);
            let mut next = self.mt[(i + MT_M) % MT_N] ^ (y >> 1);
            if y & 1 != 0 {
                next = next ^ MT_MATRIX_A;
            }
            self.mt.set(i, next);
            i += 1;
        }
        self.index = 0;
    }

    /// The next 32-bit output.
    pub fn next_u32(&mut self) -> (r: u32)
        requires
            mt_wf(old(self)@),
        ensures
            mt_wf(final(self)@),
            r == mt_next(old(self)@).0,
            final(self)@ == mt_next(old(self)@).1,
    {
        if self.index >= MT_N {
            self.generate();
        }
        proof {
            lemma_twist_prefix_len(old(self)@.words, MT_N as nat);
        }
        let mut y = self.mt[self.index];
        self.index = self.index + 1;
        y = y ^ (y >> 11);
        y = y ^ ((y << 7) & 0x9d2c_5680);
        y = y ^ ((y << 15) & 0xefc6_0000);
        y = y ^ (y >> 18);
        y
    }
}


/// `max - min` of the engine's outputs.
pub const URNG_RANGE: u64 = 0xffff_ffff;

/// Cap on the number of rejected draws of one distribution invocation.
/// Each draw is accepted with probability at least one half, so the cap is
/// never reached in practice; when it is, the largest admissible value is
/// returned.
pub const MAX_REJECTIONS: u64 = 0xffff_ffff_ffff_ffff;

/// Rejection sampling with downscaling: draw until a value below `past`.
pub open spec fn draw_below(st: MtState, past: u64, fuel: nat) -> (u64, MtState, bool)
    decreases fuel,
{
    let (x, st1) = mt_next(st);
    if (x as u64) < past {
        (x as u64, st1, true)
    } else if fuel == 0 {
        (x as u64, st1, false)
    } else {
        draw_below(st1, past, (fuel - 1) as nat)
    }
}

/// `std::uniform_int_distribution<uint64_t>{0, urange}` applied to the
/// engine: the value drawn and the engine state after the draw.
pub open spec fn uniform_int_spec(st: MtState, urange: u64) -> (u64, MtState)
    decreases urange, 1nat, 0nat,
{
    if URNG_RANGE > urange {
        let uerange = (urange + 1) as u64;
        let scaling = (URNG_RANGE / uerange) as u64;
        let past = (uerange * scaling) as u64;
        let (x, st1, ok) = draw_below(st, past, MAX_REJECTIONS as nat);
        if ok {
            ((x / scaling) as u64, st1)
        } else {
            (urange, st1)
        }
    } else if URNG_RANGE < urange {
        upscaled_spec(st, urange, MAX_REJECTIONS as nat)
    } else {
        let (x, st1) = mt_next(st);
        (x as u64, st1)
    }
}

/// The upscaling branch: a high part drawn recursively and a low part drawn
/// from the engine, repeated until the combination lies in range.
pub open spec fn upscaled_spec(st: MtState, urange: u64, fuel: nat) -> (u64, MtState)
    decreases urange, 0nat, fuel,
{
    if urange <= URNG_RANGE {
        (0, st)
    } else {
        let (hi, st1) = uniform_int_spec(st, urange / 0x1_0000_0000u64);
        let tmp = vstd::wrapping::u64_specs::wrapping_mul(0x1_0000_0000u64, hi);
        let (lo, st2) = mt_next(st1);
        let ret = vstd::wrapping::u64_specs::wrapping_add(tmp, lo as u64);
        if !(ret > urange || ret < tmp) {
            (ret, st2)
        } else if fuel == 0 {
            (if ret > urange {
                urange
            } else {
                ret
            }, st2)
        } else {
            upscaled_spec(st2, urange, (fuel - 1) as nat)
        }
    }
}

proof fn lemma_draw_below_wf(st: MtState, past: u64, fuel: nat)
    requires
        mt_wf(st),
    ensures
        mt_wf(draw_below(st, past, fuel).1),
        draw_below(st, past, fuel).2 ==> draw_below(st, past, fuel).0 < past,
        draw_below(st, past, fuel).0 <= URNG_RANGE,
    decreases fuel,
{
    lemma_mt_next_wf(st);
    if fuel > 0 {
        lemma_draw_below_wf(mt_next(st).1, past, (fuel - 1) as nat);
    }
}

proof fn lemma_div_below(x: int, a: int, b: int)
    requires
        0 <= x < a * b,
        a > 0,
        b > 0,
    ensures
        x / b < a,
{
    assert(x / b < a) by (nonlinear_arith)
        requires
            0 <= x < a * b,
            a > 0,
            b > 0,
    ;
}

/// Every draw of the distribution lies in `[0, urange]` and leaves the engine
/// in a valid state.
pub proof fn lemma_uniform_int_range(st: MtState, urange: u64)
    requires
        mt_wf(st),
    ensures
        uniform_int_spec(st, urange).0 <= urange,
        mt_wf(uniform_int_spec(st, urange).1),
    decreases urange, 1nat, 0nat,
{
    if URNG_RANGE > urange {
        let uerange = (urange + 1) as u64;
        let scaling = (URNG_RANGE / uerange) as u64;
        assert(scaling >= 1) by (nonlinear_arith)
            requires
                1 <= uerange <= URNG_RANGE,
                scaling == URNG_RANGE / uerange,
        ;
        assert(uerange * scaling <= URNG_RANGE) by (nonlinear_arith)
            requires
                uerange >= 1,
                scaling == URNG_RANGE / uerange,
        ;
        let past = (uerange * scaling) as u64;
        lemma_draw_below_wf(st, past, MAX_REJECTIONS as nat);
        let (x, st1, ok) = draw_below(st, past, MAX_REJECTIONS as nat);
        if ok {
            lemma_div_below(x as int, uerange as int, scaling as int);
        }
    } else if URNG_RANGE < urange {
        lemma_upscaled_range(st, urange, MAX_REJECTIONS as nat);
    } else {
        lemma_mt_next_wf(st);
    }
}

proof fn lemma_upscaled_range(st: MtState, urange: u64, fuel: nat)
    requires
        mt_wf(st),
    ensures
        upscaled_spec(st, urange, fuel).0 <= urange,
        mt_wf(upscaled_spec(st, urange, fuel).1),
    decreases urange, 0nat, fuel,
{
    if urange > URNG_RANGE {
        lemma_uniform_int_range(st, urange / 0x1_0000_0000u64);
        let (hi, st1) = uniform_int_spec(st, urange / 0x1_0000_0000u64);
        lemma_mt_next_wf(st1);
        let (lo, st2) = mt_next(st1);
        if fuel > 0 {
            lemma_upscaled_range(st2, urange, (fuel - 1) as nat);
        }
    }
}

/// `std::uniform_int_distribution<uint64_t>{0, urange}(g)`.
pub fn uniform_int_u64(g: &mut Mt19937, urange: u64) -> (r: u64)
    requires
        mt_wf(old(g)@),
    ensures
        r == uniform_int_spec(old(g)@, urange).0,
        final(g)@ == uniform_int_spec(old(g)@, urange).1,
        mt_wf(final(g)@),
        r <= urange,
    decreases urange,
{
    proof {
        lemma_uniform_int_range(g@, urange);
    }
    let urngrange: u64 = URNG_RANGE;
    if urngrange > urange {
        let uerange = urange + 1;
        let scaling = urngrange / uerange;
        proof {
            assert(scaling >= 1) by (nonlinear_arith)
                requires
                    1 <= uerange <= URNG_RANGE,
                    scaling == URNG_RANGE / uerange,
            ;
            assert(uerange * scaling <= URNG_RANGE) by (nonlinear_arith)
                requires
                    uerange >= 1,
                    scaling == URNG_RANGE / uerange,
            ;
        }
        let past = uerange * scaling;
        let ghost st0 = g@;
        let mut tries: u64 = 0;
        let mut ret: u64;
        loop
            invariant
                mt_wf(g@),
                st0 == old(g)@,
                tries <= MAX_REJECTIONS,
                urange < URNG_RANGE,
                uerange == urange + 1,
                scaling >= 1,
                scaling == URNG_RANGE / uerange,
                past == uerange * scaling,
                draw_below(st0, past, MAX_REJECTIONS as nat) == draw_below(
                    g@,
                    past,
                    (MAX_REJECTIONS - tries) as nat,
                ),
            decreases MAX_REJECTIONS - tries,
        {
            let ghost st = g@;
            proof {
                lemma_mt_next_wf(st);
            }
            ret = g.next_u32() as u64;
            if ret < past {
                proof {
                    lemma_div_below(ret as int, uerange as int, scaling as int);
                }
                return ret / scaling;
            }
            if tries == MAX_REJECTIONS {
                return urange;
            }
            tries = tries + 1;
        }
    } else if urngrange < urange {
        let ghost st0 = g@;
        let mut tries: u64 = 0;
        loop
            invariant
                mt_wf(g@),
                st0 == old(g)@,
                urange > URNG_RANGE,
                urngrange == URNG_RANGE,
                tries <= MAX_REJECTIONS,
                upscaled_spec(st0, urange, MAX_REJECTIONS as nat) == upscaled_spec(
                    g@,
                    urange,
                    (MAX_REJECTIONS - tries) as nat,
                ),
            decreases MAX_REJECTIONS - tries,
        {
            let uerngrange: u64 = urngrange.wrapping_add(1);
            assert(uerngrange == 0x1_0000_0000u64);
            let hi = uniform_int_u64(g, urange / uerngrange);
            let tmp = uerngrange.wrapping_mul(hi);
            let ghost st1 = g@;
            proof {
                lemma_mt_next_wf(st1);
            }
            let lo = g.next_u32() as u64;
            let ret = tmp.wrapping_add(lo);
            if !(ret > urange || ret < tmp) {
                return ret;
            }
            if tries == MAX_REJECTIONS {
                return if ret > urange {
                    urange
                } else {
                    ret
                };
            }
            tries = tries + 1;
        }
    } else {
        g.next_u32() as u64
    }
}

/// One distribution invocation producing two positions: a value `x` in
/// `[0, b0 * b1)` split as `(x / b1, x % b1)`.
pub fn gen_two_uniform_ints(b0: u64, b1: u64, g: &mut Mt19937) -> (r: (u64, u64))
    requires
        mt_wf(old(g)@),
        b0 >= 1,
        b1 >= 1,
        b0 * b1 <= u64::MAX,
    ensures
        ({
            let x = uniform_int_spec(old(g)@, (b0 * b1 - 1) as u64).0;
            r == ((x / b1) as u64, (x % b1) as u64)
        }),
        final(g)@ == uniform_int_spec(old(g)@, (b0 * b1 - 1) as u64).1,
        mt_wf(final(g)@),
        r.0 < b0,
        r.1 < b1,
{
    assert(b0 * b1 >= 1) by (nonlinear_arith)
        requires
            b0 >= 1,
            b1 >= 1,
    ;
    let x = uniform_int_u64(g, b0 * b1 - 1);
    proof {
        lemma_div_below(x as int, b0 as int, b1 as int);
    }
    (x / b1, x % b1)
}

/// The sequence with the elements at `a` and `b` exchanged.
pub open spec fn seq_swap<T>(s: Seq<T>, a: int, b: int) -> Seq<T> {
    Seq::new(
        s.len(),
        |k: int|
            if k == b {
                s[a]
            } else if k == a {
                s[b]
            } else {
                s[k]
            },
    )
}

/// Exchange two elements of a vector (`<[T]>::swap`).
#[verifier::external_body]
fn vec_swap<T>(v: &mut Vec<T>, a: usize, b: usize)
    requires
        a < old(v)@.len(),
        b < old(v)@.len(),
    ensures
        final(v)@ == seq_swap(old(v)@, a as int, b as int),
{
    v.swap(a, b);
}

/// The two-swaps-per-draw pass, from position `i` to the end.
pub open spec fn shuffle_pairs_spec<T>(s: Seq<T>, st: MtState, i: int) -> (Seq<T>, MtState)
    decreases s.len() - i,
{
    if i + 1 >= s.len() || i < 0 {
        (s, st)
    } else {
        let r = i + 1;
        let (x, st1) = uniform_int_spec(st, (r * (r + 1) - 1) as u64);
        let p0 = (x as int) / (r + 1);
        let p1 = (x as int) % (r + 1);
        shuffle_pairs_spec(seq_swap(seq_swap(s, i, p0 as int), i + 1, p1 as int), st1, i + 2)
    }
}

/// The one-swap-per-draw pass, from position `i` to the end.
pub open spec fn shuffle_singles_spec<T>(s: Seq<T>, st: MtState, i: int) -> (Seq<T>, MtState)
    decreases s.len() - i,
{
    if i >= s.len() || i < 0 {
        (s, st)
    } else {
        let (d, st1) = uniform_int_spec(st, i as u64);
        shuffle_singles_spec(seq_swap(s, i, d as int), st1, i + 1)
    }
}

/// `std::shuffle(v.begin(), v.end(), g)`: the shuffled sequence and the
/// engine state afterwards.
pub open spec fn shuffle_spec<T>(s: Seq<T>, st: MtState) -> (Seq<T>, MtState) {
    let n = s.len();
    if n == 0 {
        (s, st)
    } else if (URNG_RANGE as int) / (n as int) >= n {
        if n % 2 == 0 {
            let (d, st1) = uniform_int_spec(st, 1);
            shuffle_pairs_spec(seq_swap(s, 1, d as int), st1, 2)
        } else {
            shuffle_pairs_spec(s, st, 1)
        }
    } else {
        shuffle_singles_spec(s, st, 1)
    }
}

proof fn lemma_swap_permutes<T>(s: Seq<T>, a: int, b: int)
    requires
        0 <= a < s.len(),
        0 <= b < s.len(),
    ensures
        seq_swap(s, a, b).to_multiset() == s.to_multiset(),
        seq_swap(s, a, b).len() == s.len(),
{
    broadcast use
        vstd::seq_lib::to_multiset_update,
        vstd::seq_lib::to_multiset_contains,
        vstd::multiset::group_multiset_axioms,
        vstd::multiset::group_multiset_properties,
    ;

    if a == b {
        assert(seq_swap(s, a, b) =~= s);
    } else {
        let t = s.update(a, s[b]);
        assert(seq_swap(s, a, b) =~= t.update(b, s[a]));
        let m = s.to_multiset();
        assert(s.contains(s[a]));
        assert(m.count(s[a]) > 0);
        assert(t.to_multiset() == m.insert(s[b]).remove(s[a]));
        assert(t[b] == s[b]);
        assert(t.update(b, s[a]).to_multiset() == t.to_multiset().insert(s[a]).remove(s[b]));
        assert(m.insert(s[b]).remove(s[a]).insert(s[a]).remove(s[b]) =~= m);
    }
}

proof fn lemma_pairs_permutes<T>(s: Seq<T>, st: MtState, i: int)
    requires
        mt_wf(st),
        1 <= i <= s.len(),
        (s.len() - i) % 2 == 0,
        s.len() <= 0x1_0000,
    ensures
        shuffle_pairs_spec(s, st, i).0.to_multiset() == s.to_multiset(),
        shuffle_pairs_spec(s, st, i).0.len() == s.len(),
        mt_wf(shuffle_pairs_spec(s, st, i).1),
    decreases s.len() - i,
{
    if i < s.len() {
        let r = i + 1;
        assert(r * (r + 1) <= 0x1_0001 * 0x1_0002) by (nonlinear_arith)
            requires
                1 <= r <= 0x1_0001,
        ;
        assert(r * (r + 1) >= 1) by (nonlinear_arith)
            requires
                1 <= r,
        ;
        lemma_uniform_int_range(st, (r * (r + 1) - 1) as u64);
        let (x, st1) = uniform_int_spec(st, (r * (r + 1) - 1) as u64);
        lemma_div_below(x as int, r, r + 1);
        let p0 = (x as int) / (r + 1);
        let p1 = (x as int) % (r + 1);
        let s1 = seq_swap(s, i, p0 as int);
        lemma_swap_permutes(s, i, p0 as int);
        lemma_swap_permutes(s1, i + 1, p1 as int);
        lemma_pairs_permutes(seq_swap(s1, i + 1, p1 as int), st1, i + 2);
    }
}

proof fn lemma_singles_permutes<T>(s: Seq<T>, st: MtState, i: int)
    requires
        mt_wf(st),
        1 <= i <= s.len(),
        s.len() <= u64::MAX,
    ensures
        shuffle_singles_spec(s, st, i).0.to_multiset() == s.to_multiset(),
        shuffle_singles_spec(s, st, i).0.len() == s.len(),
        mt_wf(shuffle_singles_spec(s, st, i).1),
    decreases s.len() - i,
{
    if i < s.len() {
        lemma_uniform_int_range(st, i as u64);
        let (d, st1) = uniform_int_spec(st, i as u64);
        lemma_swap_permutes(s, i, d as int);
        lemma_singles_permutes(seq_swap(s, i, d as int), st1, i + 1);
    }
}

/// Shuffling only reorders the elements: the result is a permutation of the
/// input.
pub proof fn lemma_shuffle_permutes<T>(s: Seq<T>, st: MtState)
    requires
        mt_wf(st),
        s.len() <= u64::MAX,
    ensures
        shuffle_spec(s, st).0.to_multiset() == s.to_multiset(),
        shuffle_spec(s, st).0.len() == s.len(),
        mt_wf(shuffle_spec(s, st).1),
{
    let n = s.len();
    if n > 0 {
        if (URNG_RANGE as int) / (n as int) >= n {
            assert(n <= 0x1_0000) by (nonlinear_arith)
                requires
                    n >= 1,
                    (URNG_RANGE as int) / (n as int) >= n,
            ;
            if n % 2 == 0 {
                lemma_uniform_int_range(st, 1);
                let (d, st1) = uniform_int_spec(st, 1);
                lemma_swap_permutes(s, 1, d as int);
                lemma_pairs_permutes(seq_swap(s, 1, d as int), st1, 2);
            } else {
                lemma_pairs_permutes(s, st, 1);
            }
        } else {
            lemma_singles_permutes(s, st, 1);
        }
    }
}

/// `std::shuffle(v.begin(), v.end(), g)`.
pub fn shuffle<T>(v: &mut Vec<T>, g: &mut Mt19937)
    requires
        mt_wf(old(g)@),
    ensures
        final(v)@ == shuffle_spec(old(v)@, old(g)@).0,
        final(g)@ == shuffle_spec(old(v)@, old(g)@).1,
        final(v)@.to_multiset() == old(v)@.to_multiset(),
        mt_wf(final(g)@),
{
    let n = v.len();
    proof {
        lemma_shuffle_permutes(v@, g@);
    }
    if n == 0 {
        return;
    }
    let urngrange: u64 = URNG_RANGE;
    let urange: u64 = v.len() as u64;
    if urngrange / urange >= urange {
        proof {
            assert(urange <= 0x1_0000) by (nonlinear_arith)
                requires
                    urange >= 1,
                    (URNG_RANGE as int) / (urange as int) >= urange,
            ;
        }
        let mut i: usize = 1;
        if urange % 2 == 0 {
            let d = uniform_int_u64(g, 1);
            vec_swap(v, i, d as usize);
            i += 1;
        }
        let ghost v1 = v@;
        let ghost g1 = g@;
        while i != v.len()
            invariant
                1 <= i <= v@.len(),
                v@.len() == urange,
                urange <= 0x1_0000,
                (v@.len() - i) % 2 == 0,
                mt_wf(g@),
                shuffle_pairs_spec(v@, g@, i as int) == shuffle_spec(old(v)@, old(g)@),
            decreases v@.len() - i,
        {
            let swap_range: u64 = i as u64 + 1;
            proof {
                assert(swap_range * (swap_range + 1) <= 0x1_0001 * 0x1_0002) by (nonlinear_arith)
                    requires
                        1 <= swap_range <= 0x1_0001,
                ;
            }
            let pair = gen_two_uniform_ints(swap_range, swap_range + 1, g);
            vec_swap(v, i, pair.0 as usize);
            i += 1;
            vec_swap(v, i, pair.1 as usize);
            i += 1;
        }
        return;
    }
    let mut i: usize = 1;
    while i < v.len()
        invariant
            1 <= i <= v@.len(),
            v@.len() == urange,
            mt_wf(g@),
            shuffle_singles_spec(v@, g@, i as int) == shuffle_spec(old(v)@, old(g)@),
        decreases v@.len() - i,
    {
        let d = uniform_int_u64(g, i as u64);
        vec_swap(v, i, d as usize);
        i += 1;
    }
}

/// Whether `this` overlaps `other`: a ring of `other`, as a closed polyline,
/// meets the region of `this`, or `other` holds the first contour vertex of
/// `this`.
pub fn expolygon_overlaps(this: &ExPolygon, other: &ExPolygon) -> (r: bool)
    requires
        expoly_ok(expoly_view(*this)),
        expoly_ok(expoly_view(*other)),
        this.contour.points@.len() > 0,
    ensures
        r == expoly_overlaps(expoly_view(*this), expoly_view(*other)),
{
    let ghost a = expoly_view(*this);
    let ghost b = expoly_view(*other);
    let ghost rs = expoly_rings(b);
    assert(rs[0] == other.contour.points@);
    if this.ring_hits(&other.contour.points) {
        return true;
    }
    let mut h: usize = 0;
    while h < other.holes.len()
        invariant
            h <= other.holes@.len(),
            a == expoly_view(*this),
            b == expoly_view(*other),
            rs == expoly_rings(b),
            rs.len() == other.holes@.len() + 1,
            expoly_ok(a),
            expoly_ok(b),
            forall|k: int| 0 <= k < h + 1 ==> !#[trigger] ring_hits_region(rs[k], a),
        decreases other.holes@.len() - h,
    {
        assert(rs[h + 1] == other.holes@[h as int].points@);
        assert(b.1 == polys_view(other.holes@));
        assert(points_ok(b.1[h as int]));
        if this.ring_hits(&other.holes[h].points) {
            return true;
        }
        h += 1;
    }
    assert(point_ok(a.0[0]));
    other.contains_point(&this.contour.points[0])
}

} // verus!

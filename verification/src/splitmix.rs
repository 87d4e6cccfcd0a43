//! SplitMix64: a Weyl-sequence counter followed by a bit mixer.

use vstd::prelude::*;

verus! {

/// Increment added to the counter on every draw (the 64-bit golden ratio).
pub const GOLDEN_GAMMA: u64 = 0x9E37_79B9_7F4A_7C15;

/// First multiplier of the output mixer.
pub const MIX_MUL_1: u64 = 0xBF58_476D_1CE4_E5B9;

/// Second multiplier of the output mixer.
pub const MIX_MUL_2: u64 = 0x94D0_49BB_1331_11EB;

/// Product modulo 2^64.
pub open spec fn wrap_mul(x: u64, y: u64) -> u64 {
    vstd::wrapping::u64_specs::wrapping_mul(x, y)
}

/// The output function applied to a counter value.
pub open spec fn mix(z: u64) -> u64 {
    let a = wrap_mul(z ^ (z >> 30), MIX_MUL_1);
    let b = wrap_mul(a ^ (a >> 27), MIX_MUL_2);
    b ^ (b >> 31)
}

/// The counter after `k` draws starting from `state`.
pub open spec fn advance(state: u64, k: nat) -> u64 {
    ((state as nat + k * (GOLDEN_GAMMA as nat)) % 0x1_0000_0000_0000_0000nat) as u64
}


/// What a generator holds: its counter and the normal deviate kept for the
/// next call of `normal`, written as the bits of an `f64`.
pub struct GeneratorView {
    pub state: u64,
    pub spare: Option<u64>,
}

/// What a call of `normal` hands back.
#[derive(Clone, Copy, Debug, PartialEq, Eq, Structural)]
pub enum NormalDraw {
    /// The deviate kept from the previous pair, as the bits of an `f64`.
    Spare(u64),
    /// Two fresh uniform numerators `u1`, `u2` (each below 2^53) from which
    /// the Box-Muller transform makes a new pair of deviates.
    Fresh(u64, u64),
}

/// The numerator `v` of a uniform draw `(v + 0.5) / 2^53` in the open unit
/// interval: the top 53 bits of a 64-bit output.
pub open spec fn numerator(out: u64) -> u64 {
    out >> 11
}

/// The effect of `normal` on a generator, and what it hands back.
pub open spec fn normal_step(g: GeneratorView) -> (GeneratorView, NormalDraw) {
    match g.spare {
        Some(z) => (GeneratorView { state: g.state, spare: None }, NormalDraw::Spare(z)),
        None => (
            GeneratorView { state: advance(g.state, 2), spare: None },
            NormalDraw::Fresh(
                numerator(mix(advance(g.state, 1))),
                numerator(mix(advance(g.state, 2))),
            ),
        ),
    }
}

/// A deterministic SplitMix64 generator with room for one cached normal
/// deviate.
pub struct SplitMix64 {
    state: u64,
    spare_normal: Option<u64>,
}

impl View for SplitMix64 {
    type V = GeneratorView;

    closed spec fn view(&self) -> GeneratorView {
        GeneratorView { state: self.state, spare: self.spare_normal }
    }
}

proof fn lemma_wrapping_add_is_advance(s: u64)
    ensures
        vstd::wrapping::u64_specs::wrapping_add(s, GOLDEN_GAMMA) == advance(s, 1),
{
}

/// Running the counter `a` steps and then `b` steps is running it `a + b`
/// steps.
pub proof fn lemma_advance_compose(s: u64, a: nat, b: nat)
    ensures
        advance(advance(s, a), b) == advance(s, a + b),
{
    let m: int = 0x1_0000_0000_0000_0000;
    let g: int = GOLDEN_GAMMA as int;
    let x: int = s as int + a * g;
    let y: int = b * g;
    assert(a * g >= 0 && b * g >= 0 && (a + b) * g == a * g + b * g) by (nonlinear_arith)
        requires
            g >= 0,
    ;
    let xm: int = x % m;
    vstd::arithmetic::div_mod::lemma_mod_bound(x, m);
    assert(advance(s, a) as int == xm);
    vstd::arithmetic::div_mod::lemma_add_mod_noop(x, y, m);
    vstd::arithmetic::div_mod::lemma_add_mod_noop(xm, y, m);
    vstd::arithmetic::div_mod::lemma_mod_twice(x, m);
    assert((xm + y) % m == (x + y) % m);
    vstd::arithmetic::div_mod::lemma_mod_bound(x + y, m);
    assert(advance(advance(s, a), b) as int == (xm + y) % m);
    assert(advance(s, a + b) as int == (x + y) % m);
}

/// Zero steps leave the counter where it is.
pub proof fn lemma_advance_zero(s: u64)
    ensures
        advance(s, 0) == s,
{
    vstd::arithmetic::div_mod::lemma_small_mod(s as nat, 0x1_0000_0000_0000_0000nat);
}

/// The outputs of `n` successive calls of `next_u64` on a generator whose
/// counter is `state`.
pub open spec fn outputs(state: u64, n: nat) -> Seq<u64>
    decreases n,
{
    if n == 0 {
        Seq::empty()
    } else {
        seq![mix(advance(state, 1))] + outputs(advance(state, 1), (n - 1) as nat)
    }
}

/// The stream is a function of the seed and the position alone: the `k`-th
/// output (counting from 0) after seeding with `s` is `mix(s + (k + 1) * GAMMA)`.
pub proof fn lemma_outputs_nth(s: u64, n: nat)
    ensures
        outputs(s, n).len() == n,
        forall|k: int| 0 <= k < n ==> #[trigger] outputs(s, n)[k] == mix(advance(s, (k + 1) as nat)),
    decreases n,
{
    if n > 0 {
        let t = advance(s, 1);
        lemma_outputs_nth(t, (n - 1) as nat);
        assert forall|k: int| 0 <= k < n implies #[trigger] outputs(s, n)[k] == mix(
            advance(s, (k + 1) as nat),
        ) by {
            if k > 0 {
                assert(outputs(s, n)[k] == outputs(t, (n - 1) as nat)[k - 1]);
                lemma_advance_compose(s, 1, k as nat);
            }
        }
    }
}

/// Two calls of `normal` with the second deviate kept in between: the first
/// consumes two outputs, the second hands back exactly the kept deviate and
/// consumes nothing, so each pair of deviates costs two 64-bit draws.
pub proof fn lemma_normal_pair(s: u64, z: u64)
    ensures
        ({
            let (g1, d1) = normal_step(GeneratorView { state: s, spare: None });
            let (g2, d2) = normal_step(GeneratorView { state: g1.state, spare: Some(z) });
            &&& d1 == NormalDraw::Fresh(
                numerator(mix(advance(s, 1))),
                numerator(mix(advance(s, 2))),
            )
            &&& d2 == NormalDraw::Spare(z)
            &&& g2 == (GeneratorView { state: advance(s, 2), spare: None })
        }),
{
}

/// The output mixer is the fixed SplitMix64 finalizer for every counter
/// value: multiply-xorshift with shifts 30, 27, 31 and the two published
/// multipliers, each product taken modulo 2^64.
pub proof fn lemma_mix_is_finalizer(z: u64)
    ensures
        ({
            let a = (((z ^ (z >> 30u64)) as nat * 0xBF58_476D_1CE4_E5B9nat)
                % 0x1_0000_0000_0000_0000nat) as u64;
            let b = (((a ^ (a >> 27u64)) as nat * 0x94D0_49BB_1331_11EBnat)
                % 0x1_0000_0000_0000_0000nat) as u64;
            mix(z) == b ^ (b >> 31u64)
        }),
{
}

/// The first output of the generator seeded as the experiment seeds it.
pub proof fn lemma_experiment_seed_first_output()
    ensures
        advance(20260916, 1) == 0x9E37_79B9_807F_A449u64,
        mix(0x9E37_79B9_807F_A449u64) == 0xD2AD_6709_886E_3D64u64,
{
    assert(0x9E37_79B9_807F_A449u64 ^ (0x9E37_79B9_807F_A449u64 >> 30u64)
        == 0x9E37_79BB_F8A2_42AFu64) by (bit_vector);
    assert(wrap_mul(0x9E37_79BB_F8A2_42AFu64, MIX_MUL_1) == 0x4B54_3B91_5AC4_BB77u64);
    assert(0x4B54_3B91_5AC4_BB77u64 ^ (0x4B54_3B91_5AC4_BB77u64 >> 27u64)
        == 0x4B54_3B98_3043_C95Cu64) by (bit_vector);
    assert(wrap_mul(0x4B54_3B98_3043_C95Cu64, MIX_MUL_2) == 0xD2AD_6708_2D34_F374u64);
    assert(0xD2AD_6708_2D34_F374u64 ^ (0xD2AD_6708_2D34_F374u64 >> 31u64)
        == 0xD2AD_6709_886E_3D64u64) by (bit_vector);
}

/// A numerator is the top 53 bits of the output it comes from: the output
/// lies in `[v * 2^11, (v + 1) * 2^11)`.
pub proof fn lemma_numerator_is_top_bits(out: u64)
    ensures
        numerator(out) * 2048 <= out < numerator(out) * 2048 + 2048,
        numerator(out) == out / 2048,
{
    let v = out >> 11;
    assert(v == out / 2048) by (bit_vector)
        requires
            v == out >> 11,
    ;
}

/// `normal` never leaves anything in the cache, hands back a kept deviate
/// exactly when one was kept (and then draws nothing), and otherwise hands
/// back the top 53 bits of the next two outputs.
pub proof fn lemma_normal_draw(g: GeneratorView)
    ensures
        normal_step(g).0.spare is None,
        g.spare is Some ==> normal_step(g).1 == NormalDraw::Spare(g.spare->0)
            && normal_step(g).0.state == g.state,
        g.spare is None ==> normal_step(g).0.state == advance(g.state, 2) && normal_step(g).1
            == NormalDraw::Fresh(
            mix(advance(g.state, 1)) / 2048,
            mix(advance(g.state, 2)) / 2048,
        ),
{
    lemma_numerator_is_top_bits(mix(advance(g.state, 1)));
    lemma_numerator_is_top_bits(mix(advance(g.state, 2)));
}

/// Two calls of `normal` with nothing kept in between both draw fresh: the
/// second pair comes from the third and fourth outputs.
pub proof fn lemma_normal_twice_without_keep(s: u64)
    ensures
        ({
            let (g1, d1) = normal_step(GeneratorView { state: s, spare: None });
            let (g2, d2) = normal_step(g1);
            &&& g1.spare is None
            &&& d1 == NormalDraw::Fresh(mix(advance(s, 1)) / 2048, mix(advance(s, 2)) / 2048)
            &&& d2 == NormalDraw::Fresh(mix(advance(s, 3)) / 2048, mix(advance(s, 4)) / 2048)
            &&& g2 == (GeneratorView { state: advance(s, 4), spare: None })
        }),
{
    let g0 = GeneratorView { state: s, spare: None };
    lemma_normal_draw(g0);
    let g1 = normal_step(g0).0;
    lemma_normal_draw(g1);
    lemma_advance_compose(s, 2, 1);
    lemma_advance_compose(s, 2, 2);
}

proof fn lemma_numerator_bound(out: u64)
    ensures
        numerator(out) < 0x20_0000_0000_0000u64,
{
    assert((out >> 11) < 0x20_0000_0000_0000u64) by (bit_vector);
}

impl SplitMix64 {
    /// A generator whose counter starts at `seed`, with no cached deviate.
    pub fn new(seed: u64) -> (g: Self)
        ensures
            g@ == (GeneratorView { state: seed, spare: None }),
    {
        SplitMix64 { state: seed, spare_normal: None }
    }

    /// Advances the counter by one step and returns the mixed counter.
    pub fn next_u64(&mut self) -> (out: u64)
        ensures
            final(self)@.state == advance(old(self)@.state, 1),
            final(self)@.spare == old(self)@.spare,
            out == mix(final(self)@.state),
    {
        proof {
            lemma_wrapping_add_is_advance(self.state);
        }
        self.state = self.state.wrapping_add(GOLDEN_GAMMA);
        let mut z = self.state;
        z = (z ^ (z >> 30)).wrapping_mul(MIX_MUL_1);
        z = (z ^ (z >> 27)).wrapping_mul(MIX_MUL_2);
        z ^ (z >> 31)
    }

    /// Draws the numerator `v < 2^53` of the uniform value `(v + 0.5) / 2^53`,
    /// which lies strictly between 0 and 1.
    pub fn uniform_numerator(&mut self) -> (v: u64)
        ensures
            final(self)@.state == advance(old(self)@.state, 1),
            final(self)@.spare == old(self)@.spare,
            v == numerator(mix(final(self)@.state)),
            v < 0x20_0000_0000_0000u64,
            v * 2048 <= mix(final(self)@.state) < v * 2048 + 2048,
    {
        let out = self.next_u64();
        proof {
            lemma_numerator_bound(out);
            lemma_numerator_is_top_bits(out);
        }
        out >> 11
    }

    /// The decision half of a standard-normal draw: hands back the cached
    /// deviate when there is one, and otherwise two fresh uniform numerators
    /// for the Box-Muller transform. The cache is empty afterwards.
    pub fn normal(&mut self) -> (d: NormalDraw)
        ensures
            (final(self)@, d) == normal_step(old(self)@),
            final(self)@.spare is None,
    {
        match self.spare_normal {
            Some(z) => {
                self.spare_normal = None;
                NormalDraw::Spare(z)
            },
            None => {
                proof {
                    lemma_advance_compose(self.state, 1, 1);
                }
                let u1 = self.uniform_numerator();
                let u2 = self.uniform_numerator();
                NormalDraw::Fresh(u1, u2)
            },
        }
    }

    /// Keeps the second deviate of a fresh pair (as the bits of an `f64`)
    /// for the next call of `normal`.
    pub fn keep_spare(&mut self, z: u64)
        ensures
            final(self)@ == (GeneratorView { state: old(self)@.state, spare: Some(z) }),
    {
        self.spare_normal = Some(z);
    }
}

} // verus!

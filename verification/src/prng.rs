//! Deterministic pseudo-random numbers.
use vstd::prelude::*;

verus! {

/// The state increment of [`SplitMix64`].
pub const GAMMA: u64 = 0x9E37_79B9_7F4A_7C15;

/// The two multipliers of the output function.
pub const MIX_A: u64 = 0xBF58_476D_1CE4_E5B9;

pub const MIX_B: u64 = 0x94D0_49BB_1331_11EB;

/// The output function: three xor-shifts with two multiplications between them.
pub open spec fn mix(z: u64) -> u64 {
    let a = (z ^ (z >> 30)).wrapping_mul(MIX_A);
    let b = (a ^ (a >> 27)).wrapping_mul(MIX_B);
    b ^ (b >> 31)
}

/// The state after `k` draws from `state`.
pub open spec fn state_after(state: u64, k: nat) -> u64
    decreases k,
{
    if k == 0 {
        state
    } else {
        state_after(state, (k - 1) as nat).wrapping_add(GAMMA)
    }
}

/// The number that draw `k`, counted from zero, gives from `state` on.
pub open spec fn draw(state: u64, k: nat) -> u64 {
    mix(state_after(state, k + 1))
}

/// A deterministic generator: a counter that advances by a fixed odd step, seen through [`mix`].
pub struct SplitMix64 {
    state: u64,
}

impl View for SplitMix64 {
    type V = u64;

    closed spec fn view(&self) -> u64 {
        self.state
    }
}

impl SplitMix64 {
    pub fn new(seed: u64) -> (r: Self)
        ensures
            r@ == seed,
    {
        SplitMix64 { state: seed }
    }

    pub fn next_u64(&mut self) -> (r: u64)
        ensures
            final(self)@ == old(self)@.wrapping_add(GAMMA),
            r == mix(final(self)@),
    {
        self.state = self.state.wrapping_add(GAMMA);
        let z: u64 = self.state;
        let z: u64 = (z ^ (z >> 30)).wrapping_mul(MIX_A);
        let z: u64 = (z ^ (z >> 27)).wrapping_mul(MIX_B);
        z ^ (z >> 31)
    }
}

/// One more round of mixing a number into a seed.
pub open spec fn mix_in(mixed: u64, part: u64) -> u64 {
    mix(mixed.wrapping_add(part).wrapping_add(GAMMA))
}

/// The parts mixed into one seed, one after the other.
pub open spec fn mixed_seed(parts: Seq<u64>) -> u64
    decreases parts.len(),
{
    if parts.len() == 0 {
        0
    } else {
        mix_in(mixed_seed(parts.drop_last()), parts.last())
    }
}

/// Derives one seed from several numbers.
pub fn mix_seeds(parts: &[u64]) -> (r: u64)
    ensures
        r == mixed_seed(parts@),
{
    let mut mixed: u64 = 0;
    let mut k: usize = 0;
    while k < parts.len()
        invariant
            k <= parts@.len(),
            mixed == mixed_seed(parts@.take(k as int)),
        decreases parts@.len() - k,
    {
        assert(parts@.take(k + 1).drop_last() =~= parts@.take(k as int));
        mixed = mixed.wrapping_add(parts[k]).wrapping_add(GAMMA);
        mixed = (mixed ^ (mixed >> 30)).wrapping_mul(MIX_A);
        mixed = (mixed ^ (mixed >> 27)).wrapping_mul(MIX_B);
        mixed = mixed ^ (mixed >> 31);
        k += 1;
    }
    assert(parts@.take(k as int) =~= parts@);
    mixed
}

/// The number of 64-bit words.
pub open spec fn words() -> int {
    0x1_0000_0000_0000_0000
}

/// The multiplicative inverses of the three odd constants, modulo [`words`].
const GAMMA_INVERSE: u64 = 0xF1DE_83E1_9937_733D;

const MIX_A_INVERSE: u64 = 0x96DE_1B17_3F11_9089;

const MIX_B_INVERSE: u64 = 0x3196_42B2_D24D_8EC3;

/// Multiplying by an odd constant is undone by multiplying by its inverse.
proof fn lemma_unmultiply(v: u64, inverse: u64, constant: u64)
    requires
        (inverse * constant) % words() == 1,
    ensures
        v.wrapping_mul(inverse).wrapping_mul(constant) == v,
{
    let p = v * inverse;
    let x = p % words();
    assert((x * constant) % words() == (p * constant) % words()) by {
        vstd::arithmetic::div_mod::lemma_mul_mod_noop_left(p, constant as int, words());
    }
    assert(p * constant == v * (inverse * constant)) by (nonlinear_arith)
        requires
            p == v * inverse,
    ;
    assert((v * (inverse * constant)) % words() == (v * ((inverse * constant) % words())) % words()) by {
        vstd::arithmetic::div_mod::lemma_mul_mod_noop_right(v as int, inverse * constant, words());
    }
    assert(v * 1 == v);
    assert((v as int) % words() == v) by {
        vstd::arithmetic::div_mod::lemma_small_mod(v as nat, words() as nat);
    }
}

/// The state whose output is `v`.
pub closed spec fn unmix(v: u64) -> u64 {
    let b = v ^ (v >> 31) ^ (v >> 62);
    let b = b.wrapping_mul(MIX_B_INVERSE);
    let a = b ^ (b >> 27) ^ (b >> 54);
    let a = a.wrapping_mul(MIX_A_INVERSE);
    a ^ (a >> 30) ^ (a >> 60)
}

/// Every number is the output of some state.
pub proof fn lemma_mix_onto(v: u64)
    ensures
        mix(unmix(v)) == v,
{
    let b1 = v ^ (v >> 31) ^ (v >> 62);
    let b2 = b1.wrapping_mul(MIX_B_INVERSE);
    let a1 = b2 ^ (b2 >> 27) ^ (b2 >> 54);
    let a2 = a1.wrapping_mul(MIX_A_INVERSE);
    let z = a2 ^ (a2 >> 30) ^ (a2 >> 60);
    assert((a2 ^ (a2 >> 30) ^ (a2 >> 60)) ^ ((a2 ^ (a2 >> 30) ^ (a2 >> 60)) >> 30) == a2)
        by (bit_vector);
    lemma_unmultiply(a1, MIX_A_INVERSE, MIX_A);
    assert((b2 ^ (b2 >> 27) ^ (b2 >> 54)) ^ ((b2 ^ (b2 >> 27) ^ (b2 >> 54)) >> 27) == b2)
        by (bit_vector);
    lemma_unmultiply(b1, MIX_B_INVERSE, MIX_B);
    assert((v ^ (v >> 31) ^ (v >> 62)) ^ ((v ^ (v >> 31) ^ (v >> 62)) >> 31) == v) by (bit_vector);
}

/// The output gives the state back.
pub proof fn lemma_unmix(z: u64)
    ensures
        unmix(mix(z)) == z,
{
    let a1 = z ^ (z >> 30);
    let a2 = a1.wrapping_mul(MIX_A);
    let b1 = a2 ^ (a2 >> 27);
    let b2 = b1.wrapping_mul(MIX_B);
    let v = b2 ^ (b2 >> 31);
    assert((b2 ^ (b2 >> 31)) ^ ((b2 ^ (b2 >> 31)) >> 31) ^ ((b2 ^ (b2 >> 31)) >> 62) == b2)
        by (bit_vector);
    lemma_unmultiply(b1, MIX_B, MIX_B_INVERSE);
    assert((a2 ^ (a2 >> 27)) ^ ((a2 ^ (a2 >> 27)) >> 27) ^ ((a2 ^ (a2 >> 27)) >> 54) == a2)
        by (bit_vector);
    lemma_unmultiply(a1, MIX_A, MIX_A_INVERSE);
    assert((z ^ (z >> 30)) ^ ((z ^ (z >> 30)) >> 30) ^ ((z ^ (z >> 30)) >> 60) == z)
        by (bit_vector);
}

/// Different states have different outputs.
pub proof fn lemma_mix_one_to_one(y: u64, z: u64)
    requires
        mix(y) == mix(z),
    ensures
        y == z,
{
    lemma_unmix(y);
    lemma_unmix(z);
}

/// Every part counts: where two lists of parts differ at exactly one place, they give different
/// seeds.
pub proof fn lemma_mixed_seed(parts: Seq<u64>, others: Seq<u64>, j: int)
    requires
        parts.len() == others.len(),
        0 <= j < parts.len(),
        parts[j] != others[j],
        forall|i: int| 0 <= i < parts.len() && i != j ==> #[trigger] parts[i] == others[i],
    ensures
        mixed_seed(parts) != mixed_seed(others),
    decreases parts.len(),
{
    let a = parts.drop_last();
    let b = others.drop_last();
    let x = mixed_seed(a);
    let y = mixed_seed(b);
    let p = parts.last();
    let q = others.last();
    if j < parts.len() - 1 {
        assert forall|i: int| 0 <= i < a.len() && i != j implies #[trigger] a[i] == b[i] by {
            assert(parts[i] == others[i]);
        }
        lemma_mixed_seed(a, b, j);
        assert(parts[parts.len() - 1] == others[parts.len() - 1]);
    } else {
        assert(a =~= b);
    }
    if mixed_seed(parts) == mixed_seed(others) {
        lemma_mix_one_to_one(
            x.wrapping_add(p).wrapping_add(GAMMA),
            y.wrapping_add(q).wrapping_add(GAMMA),
        );
    }
}

/// For every list of parts and every seed there is a next part that gives this seed.
pub proof fn lemma_any_seed(parts: Seq<u64>, seed: u64)
    ensures
        exists|p: u64| mixed_seed(#[trigger] parts.push(p)) == seed,
{
    lemma_mix_onto(seed);
    let z = unmix(seed);
    let p = z.wrapping_sub(GAMMA).wrapping_sub(mixed_seed(parts));
    assert(parts.push(p).drop_last() =~= parts);
    assert(mixed_seed(parts).wrapping_add(p).wrapping_add(GAMMA) == z);
    assert(mixed_seed(parts.push(p)) == seed);
}

/// How many steps of the counter lead from `state` to `target`.
pub closed spec fn steps_to(state: u64, target: u64) -> nat {
    (((target - state) * GAMMA_INVERSE) % words()) as nat
}

/// The counter passes through every state: no steps are left exactly at the target, and each step
/// elsewhere leaves one step less.
pub proof fn lemma_full_period(state: u64, target: u64)
    ensures
        steps_to(state, target) == 0 <==> state == target,
        state != target ==> steps_to(state.wrapping_add(GAMMA), target) == steps_to(state, target)
            - 1,
{
    let d = target - state;
    let g = GAMMA as int;
    let h = GAMMA_INVERSE as int;
    assert((g * h) % words() == 1);
    // Multiplying the distance by the constant again gives the distance.
    assert((d * h * g) % words() == d % words()) by {
        assert(d * h * g == d * (h * g)) by (nonlinear_arith);
        vstd::arithmetic::div_mod::lemma_mul_mod_noop_right(d, h * g, words());
    }
    if steps_to(state, target) == 0 {
        assert((d * h * g) % words() == 0) by {
            vstd::arithmetic::div_mod::lemma_mul_mod_noop_left(d * h, g, words());
        }
        assert(d % words() == 0);
        assert(-words() < d < words());
        assert(d == 0);
    }
    if state == target {
        assert(d * h == 0) by (nonlinear_arith)
            requires
                d == 0,
        ;
    } else {
        let next = state.wrapping_add(GAMMA);
        let wraps = state + GAMMA - next;
        assert(wraps == 0 || wraps == words());
        let d2 = target - next;
        assert(d2 == d - g + wraps);
        assert(d2 * h == d * h - g * h + wraps * h) by (nonlinear_arith)
            requires
                d2 == d - g + wraps,
        ;
        let q = (g * h - 1) / words();
        assert(g * h == q * words() + 1);
        let w = if wraps == 0 { 0 } else { h };
        assert(wraps * h == w * words()) by (nonlinear_arith)
            requires
                wraps == 0 && w == 0 || wraps == words() && w == h,
        ;
        assert(d2 * h == (d * h - 1) + words() * (w - q)) by (nonlinear_arith)
            requires
                d2 * h == d * h - g * h + wraps * h,
                g * h == q * words() + 1,
                wraps * h == w * words(),
        ;
        vstd::arithmetic::div_mod::lemma_mod_multiples_vanish(w - q, d * h - 1, words());
        assert((d * h - 1) % words() == (d * h) % words() - 1);
    }
}

/// Drawing once and then `k` times more is drawing `k + 1` times.
pub proof fn lemma_state_after_shift(state: u64, k: nat)
    ensures
        state_after(state.wrapping_add(GAMMA), k) == state_after(state, k + 1),
    decreases k,
{
    if k > 0 {
        lemma_state_after_shift(state, (k - 1) as nat);
    } else {
        assert(state_after(state, 1) == state_after(state, 0).wrapping_add(GAMMA));
    }
}

/// Drawing `j` times and then `k` times more is drawing `j + k` times.
pub proof fn lemma_state_after_sum(state: u64, j: nat, k: nat)
    ensures
        state_after(state_after(state, j), k) == state_after(state, j + k),
    decreases k,
{
    if k > 0 {
        lemma_state_after_sum(state, j, (k - 1) as nat);
    }
}

/// The counter arrives at the target after as many steps as lead there.
proof fn lemma_reaches(state: u64, target: u64)
    ensures
        state_after(state, steps_to(state, target)) == target,
    decreases steps_to(state, target),
{
    lemma_full_period(state, target);
    if state != target {
        let next = state.wrapping_add(GAMMA);
        lemma_reaches(next, target);
        lemma_state_after_shift(state, steps_to(next, target));
    }
}

/// From every state on, every number is drawn sooner or later.
pub proof fn lemma_every_value_is_drawn(state: u64, v: u64)
    ensures
        exists|k: nat| #[trigger] draw(state, k) == v,
{
    let next = state.wrapping_add(GAMMA);
    let k = steps_to(next, unmix(v));
    lemma_reaches(next, unmix(v));
    lemma_state_after_shift(state, k);
    lemma_mix_onto(v);
    assert(draw(state, k) == v);
}

/// Every number is the first that is drawn from some state.
pub proof fn lemma_first_draw(v: u64) -> (state: u64)
    ensures
        draw(state, 0) == v,
{
    let state = unmix(v).wrapping_sub(GAMMA);
    lemma_mix_onto(v);
    assert(state.wrapping_add(GAMMA) == unmix(v));
    assert(state_after(state, 1) == state_after(state, 0).wrapping_add(GAMMA));
    state
}

/// Every number is draw `k` from some state.
pub proof fn lemma_some_draw(k: nat, v: u64) -> (state: u64)
    ensures
        draw(state, k) == v,
    decreases k,
{
    if k == 0 {
        lemma_first_draw(v)
    } else {
        let next = lemma_some_draw((k - 1) as nat, v);
        let state = next.wrapping_sub(GAMMA);
        assert(state.wrapping_add(GAMMA) == next);
        lemma_state_after_shift(state, k);
        state
    }
}

/// Different multiples of the increment are different.
pub proof fn lemma_gamma_multiples(a: u64, b: u64)
    requires
        a.wrapping_mul(GAMMA) == b.wrapping_mul(GAMMA),
    ensures
        a == b,
{
    assert((GAMMA * GAMMA_INVERSE) % words() == 1);
    lemma_unmultiply(a, GAMMA, GAMMA_INVERSE);
    lemma_unmultiply(b, GAMMA, GAMMA_INVERSE);
}

} // verus!

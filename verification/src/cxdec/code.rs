//! The x-code: a small program that the scheme derives from a seed and
//! runs on a 32-bit parameter.
//!
//! A program is grown from a seeded random number generator, stage by stage;
//! a stage whose machine code would exceed 0x80 bytes is abandoned and the next,
//! shallower stage is tried with the generator where it stopped.

use vstd::prelude::*;
use vstd::wrapping::u32_specs;
use vstd::arithmetic::power2::pow2;
use super::CxDecScheme;

verus! {

/// The generator state after one step: `1103515245 * s + 12345` modulo 2^32.
pub open spec fn rng_step(s: u32) -> u32 {
    ((1103515245 * s as nat + 12345) % 0x1_0000_0000) as u32
}

/// The number that one step from state `s` yields.
pub open spec fn rng_output(s: u32) -> u32 {
    rng_step(s) ^ (s << 16u32) ^ (s >> 16u32)
}

proof fn lemma_low_ten_bits(x: u32)
    by (bit_vector)
    ensures
        x & 0x3FFu32 < 0x400u32,
{
}

proof fn lemma_low_four_bits(x: u32)
    by (bit_vector)
    ensures
        x & 0x0Fu32 < 32u32,
{
}

/// Random number generator.
#[derive(Clone, Copy)]
pub struct Rng(u32);

impl View for Rng {
    type V = u32;

    closed spec fn view(&self) -> u32 {
        self.0
    }
}

proof fn lemma_mask_all(x: u32)
    by (bit_vector)
    ensures
        x & 0xFFFFFFFFu32 == x,
{
}

impl Rng {
    /// A generator in state `seed`.
    pub fn new(seed: u32) -> (r: Rng)
        ensures
            r@ == seed,
    {
        Rng(seed)
    }

    /// Advances the generator and gives the number of this step.
    pub fn next(&mut self) -> (r: u32)
        ensures
            final(self)@ == rng_step(old(self)@),
            r == rng_output(old(self)@),
    {
        let old_seed = self.0;
        let m = old_seed.wrapping_mul(1103515245);
        let s = m.wrapping_add(12345);
        proof {
            let p = old_seed as nat * 1103515245;
            assert(m as nat == p % 0x1_0000_0000);
            vstd::arithmetic::div_mod::lemma_add_mod_noop(p as int, 12345, 0x1_0000_0000);
            vstd::arithmetic::div_mod::lemma_mod_bound(12345, 0x1_0000_0000);
            assert(s as nat == (p + 12345) % 0x1_0000_0000);
            lemma_mask_all(s);
            lemma_mask_all(s ^ (old_seed << 16u32) ^ (old_seed >> 16u32));
        }
        self.0 = s & 0xFFFFFFFF;
        (self.0 ^ (old_seed << 16) ^ (old_seed >> 16)) & 0xFFFFFFFF
    }

    /// Puts the generator in state `seed`.
    pub fn set_seed(&mut self, seed: u32)
        ensures
            final(self)@ == seed,
    {
        self.0 = seed;
    }
}

/// The outcome of growing part of a program: its value (`None` when the
/// machine code outgrew its buffer), and the generator state and the code
/// length at that point.
pub struct Run {
    pub value: Option<u32>,
    pub rng: u32,
    pub len: int,
}

/// The largest machine code a program may take, in bytes.
pub open spec fn code_limit() -> int {
    0x80
}

pub open spec fn fail(rng: u32, len: int) -> Run {
    Run { value: None, rng, len }
}

pub open spec fn done(v: u32, rng: u32, len: int) -> Run {
    Run { value: Some(v), rng, len }
}

/// Emits `n` more bytes of code and, where they fit, yields `v`.
pub open spec fn emit(v: u32, rng: u32, len: int, n: int) -> Run {
    if len + n > code_limit() {
        fail(rng, len + n)
    } else {
        done(v, rng, len + n)
    }
}

/// A leaf: a control-block word, a random constant, or the parameter.
pub open spec fn first_stage(rng: u32, len: int, param: u32, ctrl: Seq<u32>) -> Run {
    let routine = rng_output(rng) % 3;
    let rng1 = rng_step(rng);
    if routine == 0 {
        if len + 7 > code_limit() {
            fail(rng1, if len + 5 > code_limit() { len + 5 } else { len + 7 })
        } else {
            let tmp = rng_output(rng1) & 0x3FF;
            emit(ctrl[tmp as int], rng_step(rng1), len + 7, 4)
        }
    } else if routine == 1 {
        if len + 1 > code_limit() {
            fail(rng1, len + 1)
        } else {
            emit(rng_output(rng1), rng_step(rng1), len + 1, 4)
        }
    } else {
        emit(param, rng1, len, 2)
    }
}

/// Swaps the even and odd bits of `x`.
pub open spec fn swap_bit_pairs(x: u32) -> u32 {
    ((x & 0x55555555) << 1u32) | ((x & 0xAAAAAAAA) >> 1u32)
}

/// A unary operation applied to a subprogram of stage `stage - 1`.
pub open spec fn strategy_0(stage: u32, rng: u32, len: int, param: u32, ctrl: Seq<u32>) -> Run
    decreases stage, 1u32,
{
    if stage <= 1 {
        first_stage(rng, len, param, ctrl)
    } else {
        let pick = rng_output(rng) & 1;
        let sub = if pick == 0 {
            strategy_0((stage - 1) as u32, rng_step(rng), len, param, ctrl)
        } else {
            strategy_1((stage - 1) as u32, rng_step(rng), len, param, ctrl)
        };
        match sub.value {
            None => sub,
            Some(eax) => unary_step(eax, sub.rng, sub.len, ctrl),
        }
    }
}

/// The unary step that a strategy-0 program applies to the value `eax` of
/// its subprogram, from generator state `rng` and code length `len`.
pub open spec fn unary_step(eax: u32, rng: u32, len: int, ctrl: Seq<u32>) -> Run {
    let routine = rng_output(rng) % 8;
    let r = rng_step(rng);
    let l = len;
    if routine == 4 {
        emit(eax ^ 0xFFFFFFFF, r, l, 2)
    } else if routine == 6 {
        emit(u32_specs::wrapping_sub(eax, 1), r, l, 1)
    } else if routine == 3 {
        emit(u32_specs::wrapping_sub(0, eax), r, l, 2)
    } else if routine == 7 {
        emit(u32_specs::wrapping_add(eax, 1), r, l, 1)
    } else if routine == 1 {
        emit(ctrl[(eax & 0x3FF) as int], r, l, 13)
    } else if routine == 0 {
        emit(swap_bit_pairs(eax), r, l, 21)
    } else if routine == 2 {
        if l + 1 > code_limit() {
            fail(r, l + 1)
        } else {
            emit(eax ^ rng_output(r), rng_step(r), l + 1, 4)
        }
    } else {
        let add = rng_output(r) & 1 != 0;
        let r2 = rng_step(r);
        if l + 1 > code_limit() {
            fail(r2, l + 1)
        } else if add {
            emit(u32_specs::wrapping_add(eax, rng_output(r2)), rng_step(r2), l + 1, 4)
        } else {
            emit(u32_specs::wrapping_sub(eax, rng_output(r2)), rng_step(r2), l + 1, 4)
        }
    }
}

/// A binary operation applied to two subprograms of stage `stage - 1`.
pub open spec fn strategy_1(stage: u32, rng: u32, len: int, param: u32, ctrl: Seq<u32>) -> Run
    decreases stage, 0u32,
{
    if stage <= 1 {
        first_stage(rng, len, param, ctrl)
    } else if len + 1 > code_limit() {
        fail(rng, len + 1)
    } else {
        let pick1 = rng_output(rng) & 1;
        let sub1 = if pick1 == 0 {
            strategy_0((stage - 1) as u32, rng_step(rng), len + 1, param, ctrl)
        } else {
            strategy_1((stage - 1) as u32, rng_step(rng), len + 1, param, ctrl)
        };
        match sub1.value {
            None => sub1,
            Some(ebx) => {
                if sub1.len + 2 > code_limit() {
                    fail(sub1.rng, sub1.len + 2)
                } else {
                    let pick2 = rng_output(sub1.rng) & 1;
                    let sub2 = if pick2 == 0 {
                        strategy_0((stage - 1) as u32, rng_step(sub1.rng), sub1.len + 2, param, ctrl)
                    } else {
                        strategy_1((stage - 1) as u32, rng_step(sub1.rng), sub1.len + 2, param, ctrl)
                    };
                    match sub2.value {
                        None => sub2,
                        Some(eax) => binary_step(eax, ebx, sub2.rng, sub2.len),
                    }
                }
            },
        }
    }
}

/// The binary step that a strategy-1 program applies to the values `eax`
/// of its second subprogram and `ebx` of its first, from generator state
/// `rng` and code length `len`, with the closing `pop ebx`.
pub open spec fn binary_step(eax: u32, ebx: u32, rng: u32, len: int) -> Run {
    let routine = rng_output(rng) % 6;
    let r = rng_step(rng);
    let op = if routine == 1 {
        emit(eax >> (ebx & 0x0F), r, len, 9)
    } else if routine == 4 {
        emit(eax << (ebx & 0x0F), r, len, 9)
    } else if routine == 0 {
        emit(u32_specs::wrapping_add(eax, ebx), r, len, 2)
    } else if routine == 2 {
        emit(u32_specs::wrapping_sub(ebx, eax), r, len, 4)
    } else if routine == 3 {
        emit(u32_specs::wrapping_mul(eax, ebx), r, len, 3)
    } else {
        emit(u32_specs::wrapping_sub(eax, ebx), r, len, 2)
    };
    match op.value {
        None => op,
        Some(v) => emit(v, op.rng, op.len, 1),
    }
}

/// One attempt at a program of stage `stage`, with its prologue and epilogue.
#[verifier::opaque]
pub open spec fn try_stage(stage: u32, rng: u32, param: u32, ctrl: Seq<u32>) -> Run {
    let body = strategy_1(stage, rng, 9, param, ctrl);
    match body.value {
        None => body,
        Some(v) => emit(v, body.rng, body.len, 6),
    }
}

/// Tries the stages `stage`, `stage - 1`, ... down to 1 and gives the value of
/// the first program that fits.
pub open spec fn run_stages(stage: u32, rng: u32, param: u32, ctrl: Seq<u32>) -> u32
    decreases stage,
{
    if stage == 0 {
        0
    } else {
        let r = try_stage(stage, rng, param, ctrl);
        match r.value {
            Some(v) => v,
            None => run_stages((stage - 1) as u32, r.rng, param, ctrl),
        }
    }
}

/// The value that the x-code of `seed` computes from `param`.
pub open spec fn xcode(seed: u32, param: u32, ctrl: Seq<u32>) -> u32 {
    run_stages(5, seed, param, ctrl)
}

/// The bytes of code that the leaf grown from `rng` emits first.
pub open spec fn leaf_first_append(rng: u32) -> int {
    let routine = rng_output(rng) % 3;
    if routine == 0 {
        5
    } else if routine == 1 {
        1
    } else {
        2
    }
}

/// The bytes of code that `strategy_1` emits first.
pub open spec fn first_append_1(stage: u32, rng: u32) -> int {
    if stage <= 1 {
        leaf_first_append(rng)
    } else {
        1
    }
}

/// The bytes of code that `strategy_0` emits first: that of the subprogram
/// it picks.
pub open spec fn first_append_0(stage: u32, rng: u32) -> int
    decreases stage,
{
    if stage <= 1 {
        leaf_first_append(rng)
    } else if rng_output(rng) & 1 == 0 {
        first_append_0((stage - 1) as u32, rng_step(rng))
    } else {
        first_append_1((stage - 1) as u32, rng_step(rng))
    }
}

/// A program of stage 1 always fits, so the stage loop never runs out.
pub proof fn lemma_stage_one_fits(rng: u32, param: u32, ctrl: Seq<u32>)
    ensures
        try_stage(1, rng, param, ctrl).value is Some,
{
    reveal(try_stage);
}

/// At stage 1 both strategies grow the same leaf: a program of stage 1 is a
/// leaf whichever strategy grows it.
pub proof fn lemma_stage_one_is_a_leaf(rng: u32, len: int, param: u32, ctrl: Seq<u32>)
    ensures
        strategy_0(1, rng, len, param, ctrl) == first_stage(rng, len, param, ctrl),
        strategy_1(1, rng, len, param, ctrl) == first_stage(rng, len, param, ctrl),
{
}

/// The subprogram that a program of stage `stage` grows first, from the
/// generator state after one draw: grown by strategy 0 where the draw is
/// even, by strategy 1 where it is odd.
pub open spec fn subprogram(stage: u32, rng: u32, len: int, param: u32, ctrl: Seq<u32>) -> Run {
    if rng_output(rng) % 2 == 0 {
        strategy_0((stage - 1) as u32, rng_step(rng), len, param, ctrl)
    } else {
        strategy_1((stage - 1) as u32, rng_step(rng), len, param, ctrl)
    }
}

proof fn lemma_unary_bits(x: u32, r: u32)
    by (bit_vector)
    ensures
        r & 1u32 == r % 2,
        (x ^ 0xFFFFFFFFu32) + x == 0xFFFF_FFFFu32,
        forall|i: u32| #![auto] i < 32 ==> (swap_bit_pairs(x) >> i) & 1u32 == (x >> (i ^ 1u32)) & 1u32,
        (x ^ r) ^ x == r,
        x & 0x3FFu32 == x % 0x400,
{
}

/// What the unary step of a strategy-0 program does, by its number `op`
/// (the next draw modulo 8) and its x86 encoding, to the value `x` of the
/// subprogram: 0 swaps each even bit with the odd bit above it (21 bytes),
/// 1 reads the control-block word at `x` modulo 0x400 (13 bytes), 2 XORs a
/// random word in (5 bytes), 3 negates in two's complement, so that
/// `x + v` is 0 modulo 2^32 (`neg eax`, 2 bytes), 4 complements every bit, so
/// that `x + v` is 2^32 - 1 (`not eax`, 2 bytes), 5 adds or subtracts a
/// random word modulo 2^32 as the draw after it is odd or even (5 bytes),
/// 6 takes one off modulo 2^32 (`dec eax`, 1 byte) and 7 adds one
/// (`inc eax`, 1 byte). A step yields a value exactly where the code still
/// fits in 0x80 bytes.
pub proof fn lemma_unary_step(stage: u32, rng: u32, len: int, param: u32, ctrl: Seq<u32>)
    requires
        stage >= 2,
    ensures
        ({
            let sub = subprogram(stage, rng, len, param, ctrl);
            let run = strategy_0(stage, rng, len, param, ctrl);
            &&& sub.value is None ==> run == sub
            &&& sub.value matches Some(x) ==> {
                let op = rng_output(sub.rng) % 8;
                let r = rng_step(sub.rng);
                let l = sub.len;
                let n = if op == 0 { 21int } else if op == 1 { 13int } else if op == 2 || op == 5 { 5int }
                    else if op == 3 || op == 4 { 2int } else { 1int };
                &&& run.value is Some <==> l + n <= 0x80
                &&& run.value matches Some(v) ==> {
                    &&& run.len == l + n
                    &&& op == 0 ==> run.rng == r && forall|i: u32| #![auto] i < 32 ==> (v >> i) & 1 == (x >> (i ^ 1))
                        & 1
                    &&& op == 1 ==> run.rng == r && v == ctrl[(x % 0x400) as int]
                    &&& op == 2 ==> run.rng == rng_step(r) && v ^ x == rng_output(r)
                    &&& op == 3 ==> run.rng == r && (x + v) % 0x1_0000_0000 == 0
                    &&& op == 4 ==> run.rng == r && x + v == 0xFFFF_FFFF
                    &&& op == 5 ==> {
                        let k = rng_output(rng_step(r));
                        &&& run.rng == rng_step(rng_step(r))
                        &&& rng_output(r) % 2 == 1 ==> (x + k) % 0x1_0000_0000 == v
                        &&& rng_output(r) % 2 == 0 ==> (v + k) % 0x1_0000_0000 == x
                    }
                    &&& op == 6 ==> run.rng == r && (v + 1) % 0x1_0000_0000 == x
                    &&& op == 7 ==> run.rng == r && (x + 1) % 0x1_0000_0000 == v
                }
            }
        }),
{
    lemma_unary_bits(0, rng_output(rng));
    let sub = subprogram(stage, rng, len, param, ctrl);
    assert(strategy_0(stage, rng, len, param, ctrl) == match sub.value {
        None => sub,
        Some(eax) => unary_step(eax, sub.rng, sub.len, ctrl),
    });
    if let Some(x) = sub.value {
        lemma_unary_step_value(x, sub.rng, sub.len, ctrl);
    }
}

proof fn lemma_unary_step_value(x: u32, rng: u32, l: int, ctrl: Seq<u32>)
    ensures
        ({
            let run = unary_step(x, rng, l, ctrl);
            let op = rng_output(rng) % 8;
            let r = rng_step(rng);
            let n = if op == 0 { 21int } else if op == 1 { 13int } else if op == 2 || op == 5 { 5int }
                else if op == 3 || op == 4 { 2int } else { 1int };
            &&& run.value is Some <==> l + n <= 0x80
            &&& run.value matches Some(v) ==> {
                &&& run.len == l + n
                &&& op == 0 ==> run.rng == r && forall|i: u32| #![auto] i < 32 ==> (v >> i) & 1 == (x >> (i ^ 1))
                    & 1
                &&& op == 1 ==> run.rng == r && v == ctrl[(x % 0x400) as int]
                &&& op == 2 ==> run.rng == rng_step(r) && v ^ x == rng_output(r)
                &&& op == 3 ==> run.rng == r && (x + v) % 0x1_0000_0000 == 0
                &&& op == 4 ==> run.rng == r && x + v == 0xFFFF_FFFF
                &&& op == 5 ==> {
                    let k = rng_output(rng_step(r));
                    &&& run.rng == rng_step(rng_step(r))
                    &&& rng_output(r) % 2 == 1 ==> (x + k) % 0x1_0000_0000 == v
                    &&& rng_output(r) % 2 == 0 ==> (v + k) % 0x1_0000_0000 == x
                }
                &&& op == 6 ==> run.rng == r && (v + 1) % 0x1_0000_0000 == x
                &&& op == 7 ==> run.rng == r && (x + 1) % 0x1_0000_0000 == v
            }
        }),
{
    let op = rng_output(rng) % 8;
    let r = rng_step(rng);
    if op == 2 || op == 5 {
        lemma_unary_bits(x, rng_output(r));
    } else if op == 0 || op == 4 || op == 1 {
        lemma_unary_bits(x, 0);
    }
}

proof fn lemma_shift_bits(x: u32, k: u32)
    by (bit_vector)
    requires
        k < 16,
    ensures
        (x << k) as u64 == ((x as u64) << (k as u64)) & 0xFFFF_FFFFu64,
{
}

proof fn lemma_low_word(y: u64)
    by (bit_vector)
    ensures
        y & 0xFFFF_FFFFu64 == y % 0x1_0000_0000,
{
}

proof fn lemma_count_bits(y: u32)
    by (bit_vector)
    ensures
        y & 0x0Fu32 == y % 16,
{
}

/// Shifting left by `k < 16` multiplies by 2^k modulo 2^32, and shifting
/// right divides by 2^k.
proof fn lemma_shifts(x: u32, k: u32)
    requires
        k < 16,
    ensures
        (x << k) as int == (x * pow2(k as nat)) % 0x1_0000_0000,
        (x >> k) as nat == x as nat / pow2(k as nat),
{
    vstd::bits::lemma_u32_shr_is_div(x, k);
    vstd::arithmetic::power2::lemma2_to64();
    vstd::arithmetic::power2::lemma_pow2_strictly_increases(k as nat, 16);
    let p = pow2(k as nat);
    assert(x * p <= u64::MAX) by (nonlinear_arith)
        requires
            x < 0x1_0000_0000,
            p < 0x10000,
    ;
    vstd::bits::lemma_u64_shl_is_mul(x as u64, k as u64);
    lemma_shift_bits(x, k);
    lemma_low_word((x as u64) << (k as u64));
}

/// What the binary step of a strategy-1 program does, by its number `op`
/// (the draw modulo 6) and its x86 encoding, to the values `eax` of the
/// second subprogram and `ebx` of the first, with `k = ebx % 16`: 0 adds
/// them modulo 2^32 (2 bytes), 1 divides `eax` by 2^k (`shr`, 9 bytes),
/// 2 takes `eax` from `ebx` modulo 2^32 (4 bytes), 3 multiplies them modulo
/// 2^32 (3 bytes), 4 multiplies `eax` by 2^k modulo 2^32 (`shl`, 9 bytes)
/// and 5 takes `ebx` from `eax` modulo 2^32 (2 bytes); then `pop ebx` takes
/// one more byte. A step yields a value exactly where the code still fits
/// in 0x80 bytes.
pub proof fn lemma_binary_step_value(eax: u32, ebx: u32, rng: u32, l: int)
    ensures
        ({
            let run = binary_step(eax, ebx, rng, l);
            let op = rng_output(rng) % 6;
            let k = (ebx % 16) as nat;
            let n = if op == 1 || op == 4 { 9int } else if op == 2 { 4int } else if op == 3 { 3int } else { 2int };
            &&& run.value is Some <==> l + n + 1 <= 0x80
            &&& run.value matches Some(v) ==> {
                &&& run.len == l + n + 1
                &&& run.rng == rng_step(rng)
                &&& op == 0 ==> (eax + ebx) % 0x1_0000_0000 == v
                &&& op == 1 ==> v == eax as nat / pow2(k)
                &&& op == 2 ==> (v + eax) % 0x1_0000_0000 == ebx
                &&& op == 3 ==> (eax * ebx) % 0x1_0000_0000 == v
                &&& op == 4 ==> v == (eax * pow2(k)) % 0x1_0000_0000
                &&& op == 5 ==> (v + ebx) % 0x1_0000_0000 == eax
            }
        }),
{
    lemma_count_bits(ebx);
    lemma_shifts(eax, ebx & 0x0F);
}

/// The binary step of a strategy-1 program of stage 2 or more: `push ebx`
/// (1 byte) before the first subprogram and `mov ebx, eax` (2 bytes) after
/// it, then the second subprogram, grown from the generator state that the
/// first left, then combines the two values by `binary_step`, whose value
/// `lemma_binary_step_value` gives in plain arithmetic,
/// failing wherever the code outgrows 0x80 bytes.
pub proof fn lemma_binary_step(stage: u32, rng: u32, len: int, param: u32, ctrl: Seq<u32>)
    requires
        stage >= 2,
    ensures
        ({
            let run = strategy_1(stage, rng, len, param, ctrl);
            let sub1 = subprogram(stage, rng, len + 1, param, ctrl);
            let sub2 = subprogram(stage, sub1.rng, sub1.len + 2, param, ctrl);
            &&& len + 1 > 0x80 ==> run.value is None
            &&& len + 1 <= 0x80 && sub1.value is None ==> run == sub1
            &&& len + 1 <= 0x80 && sub1.value is Some && sub1.len + 2 > 0x80 ==> run.value is None
            &&& len + 1 <= 0x80 && sub1.value is Some && sub1.len + 2 <= 0x80 && sub2.value is None ==> run == sub2
            &&& len + 1 <= 0x80 && sub1.value is Some && sub1.len + 2 <= 0x80 && sub2.value is Some ==> run
                == binary_step(sub2.value.unwrap(), sub1.value.unwrap(), sub2.rng, sub2.len)
        }),
{
    lemma_unary_bits(0, rng_output(rng));
    let sub1 = subprogram(stage, rng, len + 1, param, ctrl);
    lemma_unary_bits(0, rng_output(sub1.rng));
}

/// What a leaf does, by its number (the draw modulo 3) and its x86
/// encoding: 0 loads the control-block word at the next draw modulo 0x400
/// (7 + 4 bytes), 1 loads the next draw itself (`mov eax, imm32`, 5 bytes)
/// and 2 loads the parameter (`mov eax, edi`, 2 bytes). A leaf yields its
/// value exactly where the code still fits in 0x80 bytes.
pub proof fn lemma_leaf(rng: u32, len: int, param: u32, ctrl: Seq<u32>)
    ensures
        ({
            let run = first_stage(rng, len, param, ctrl);
            let op = rng_output(rng) % 3;
            let r1 = rng_step(rng);
            let n = if op == 0 { 11int } else if op == 1 { 5int } else { 2int };
            &&& run.value is Some <==> len + n <= 0x80
            &&& run.value matches Some(v) ==> {
                &&& run.len == len + n
                &&& op == 0 ==> run.rng == rng_step(r1) && v == ctrl[(rng_output(r1) % 0x400) as int]
                &&& op == 1 ==> run.rng == rng_step(r1) && v == rng_output(r1)
                &&& op == 2 ==> run.rng == r1 && v == param
            }
        }),
{
    lemma_unary_bits(rng_output(rng_step(rng)), 0);
}

/// X-code executor for one seed.
#[derive(Clone, Copy)]
pub struct Code<'a> {
    rng: Rng,
    seed: u32,
    parameter: u32,
    code_len: usize,
    scheme: &'a CxDecScheme,
}

impl<'a> Code<'a> {
    /// The seed the program is grown from.
    pub closed spec fn seed(&self) -> u32 {
        self.seed
    }

    /// The control block the program reads.
    pub closed spec fn control(&self) -> Seq<u32> {
        self.scheme.control_block@
    }

    /// The state of the program's generator.
    pub closed spec fn generator(&self) -> u32 {
        self.rng@
    }

    /// The parameter of the last run.
    pub closed spec fn parameter(&self) -> u32 {
        self.parameter
    }

    /// The length of the machine code of the last program grown.
    pub closed spec fn code_len(&self) -> int {
        self.code_len as int
    }

    /// The control block has the 0x400 words that programs index.
    pub open spec fn wf(&self) -> bool {
        self.control().len() >= 0x400
    }

    /// Creates the code of seed `seed` over the scheme's control block.
    pub fn new(seed: u32, scheme: &'a CxDecScheme) -> (r: Code<'a>)
        ensures
            r.seed() == seed,
            r.control() == scheme.control_block@,
            r.generator() == seed,
            r.parameter() == 0,
            r.code_len() == 0,
    {
        let rng = Rng::new(seed);
        Code { rng, seed, parameter: 0, code_len: 0, scheme }
    }

    /// Executes the code on `code` and gives its value.
    pub fn execute(&mut self, code: u32) -> (r: u32)
        requires
            old(self).wf(),
        ensures
            r == xcode(old(self).seed(), code, old(self).control()),
            final(self).seed() == old(self).seed(),
            final(self).control() == old(self).control(),
            final(self).parameter() == code,
            17 <= final(self).code_len() <= code_limit(),
    {
        self.rng.set_seed(self.seed);
        self.parameter = code;
        let ghost seed = self.seed;
        let mut stage: u32 = 5;
        while stage >= 1
            invariant
                1 <= stage <= 5,
                self.wf(),
                self.seed == seed,
                seed == old(self).seed,
                self.parameter == code,
                self.control() == old(self).control(),
                run_stages(stage, self.rng@, code, self.control()) == xcode(seed, code, self.control()),
            decreases stage,
        {
            proof {
                lemma_stage_one_fits(self.rng@, code, self.control());
            }
            let ghost rng0 = self.rng@;
            let res = self.try_execute(stage);
            assert(res is Some ==> 17 <= self.code_len <= code_limit());
            assert(res == try_stage(stage, rng0, code, self.control()).value);
            match res {
                Some(v) => {
                    assert(v == run_stages(stage, rng0, code, self.control()));
                    return v;
                },
                None => {},
            }
            stage = stage - 1;
        }
        proof {
            assert(false);
        }
        0
    }

    fn try_execute(&mut self, stage: u32) -> (r: Option<u32>)
        requires
            old(self).wf(),
            stage >= 1,
        ensures
            r == try_stage(stage, old(self).rng@, old(self).parameter, old(self).control()).value,
            final(self).rng@ == try_stage(stage, old(self).rng@, old(self).parameter, old(self).control()).rng,
            final(self).seed == old(self).seed,
            final(self).parameter == old(self).parameter,
            final(self).scheme == old(self).scheme,
            r is Some ==> 17 <= final(self).code_len <= code_limit(),
            r is None ==> final(self).code_len > code_limit(),
            stage == 1 ==> r is Some && (final(self).code_len == 17 || final(self).code_len == 20
                || final(self).code_len == 26),
    {
        proof {
            reveal(try_stage);
        }
        self.code_len = 0;
        self.append_code(9)?;
        let val = self.strategy_1(stage)?;
        self.append_code(6)?;
        Some(val)
    }

    fn append_code(&mut self, len: usize) -> (r: Option<()>)
        requires
            old(self).code_len + len <= usize::MAX,
        ensures
            final(self).code_len == old(self).code_len + len,
            r is Some <==> final(self).code_len <= code_limit(),
            final(self).rng == old(self).rng,
            final(self).seed == old(self).seed,
            final(self).parameter == old(self).parameter,
            final(self).scheme == old(self).scheme,
    {
        self.code_len += len;
        if self.code_len > 0x80 {
            None
        } else {
            Some(())
        }
    }

    fn run_first_stage(&mut self) -> (r: Option<u32>)
        requires
            old(self).wf(),
            old(self).code_len <= code_limit() || old(self).code_len + leaf_first_append(old(self).rng@) <= usize::MAX,
        ensures
            ({
                let run = first_stage(old(self).rng@, old(self).code_len as int, old(self).parameter, old(self).control());
                &&& r == run.value
                &&& final(self).rng@ == run.rng
                &&& final(self).code_len == run.len
            }),
            r is None <==> final(self).code_len > code_limit(),
            r is Some ==> final(self).code_len == old(self).code_len + 2 || final(self).code_len
                == old(self).code_len + 5 || final(self).code_len == old(self).code_len + 11,
            final(self).code_len >= old(self).code_len,
            old(self).code_len <= code_limit() ==> final(self).code_len <= code_limit() + 21,
            final(self).seed == old(self).seed,
            final(self).parameter == old(self).parameter,
            final(self).scheme == old(self).scheme,
    {
        let routine = self.rng.next() % 3;
        if routine == 0 {
            // mov esi, &control_block
            self.append_code(5)?;
            // mov eax, dword ptr ds:[esi+((rand() & 0x3FF) * 4]
            self.append_code(2)?;
            let raw = self.rng.next();
            let tmp = raw & 0x3FF;
            self.append_code(4)?;
            proof {
                lemma_low_ten_bits(raw);
            }
            Some(self.scheme.control_block[tmp as usize])
        } else if routine == 1 {
            // mov eax, rand()
            self.append_code(1)?;
            let tmp = self.rng.next();
            self.append_code(4)?;
            Some(tmp)
        } else {
            // mov eax, edi
            self.append_code(2)?;
            Some(self.parameter)
        }
    }

    fn strategy_0(&mut self, stage: u32) -> (r: Option<u32>)
        requires
            old(self).wf(),
            old(self).code_len <= code_limit() || old(self).code_len + first_append_0(stage, old(self).rng@) <= usize::MAX,
            stage >= 1,
        ensures
            ({
                let run = strategy_0(stage, old(self).rng@, old(self).code_len as int, old(self).parameter, old(self).control());
                &&& r == run.value
                &&& final(self).rng@ == run.rng
                &&& final(self).code_len == run.len
            }),
            r is None <==> final(self).code_len > code_limit(),
            r is Some ==> final(self).code_len >= old(self).code_len + 2,
            final(self).code_len >= old(self).code_len,
            old(self).code_len <= code_limit() ==> final(self).code_len <= code_limit() + 21,
            final(self).seed == old(self).seed,
            final(self).parameter == old(self).parameter,
            final(self).scheme == old(self).scheme,
        decreases stage, 1u32,
    {
        if stage == 1 {
            return self.run_first_stage();
        }
        let mut eax = if self.rng.next() & 0x01 == 0 {
            self.strategy_0(stage - 1)?
        } else {
            self.strategy_1(stage - 1)?
        };
        let routine = self.rng.next() % 8;
        if routine == 4 {
            // not eax
            self.append_code(2)?;
            eax ^= 0xFFFFFFFF;
        } else if routine == 6 {
            // dec eax
            self.append_code(1)?;
            eax = eax.wrapping_sub(1);
        } else if routine == 3 {
            // neg eax
            self.append_code(2)?;
            eax = 0u32.wrapping_sub(eax);
        } else if routine == 7 {
            // inc eax
            self.append_code(1)?;
            eax = eax.wrapping_add(1);
        } else if routine == 1 {
            // mov esi, &control_block; and eax, 3ff; mov eax, dword ptr ds:[esi+eax*4]
            self.append_code(13)?;
            proof {
                lemma_low_ten_bits(eax);
            }
            eax = self.scheme.control_block[(eax & 0x3FF) as usize];
        } else if routine == 0 {
            // swap the even and odd bits through ebx
            self.append_code(21)?;
            let mut ebx = eax;
            ebx &= 0xAAAAAAAA;
            eax &= 0x55555555;
            ebx >>= 1;
            eax <<= 1;
            eax |= ebx;
        } else if routine == 2 {
            // xor eax, rand()
            self.append_code(1)?;
            let tmp = self.rng.next();
            self.append_code(4)?;
            eax ^= tmp;
        } else {
            if (self.rng.next() & 1) != 0 {
                // add eax, rand()
                self.append_code(1)?;
                let tmp = self.rng.next();
                self.append_code(4)?;
                eax = eax.wrapping_add(tmp);
            } else {
                // sub eax, rand()
                self.append_code(1)?;
                let tmp = self.rng.next();
                self.append_code(4)?;
                eax = eax.wrapping_sub(tmp);
            }
        }
        Some(eax)
    }

    fn strategy_1(&mut self, stage: u32) -> (r: Option<u32>)
        requires
            old(self).wf(),
            old(self).code_len <= code_limit() || old(self).code_len + first_append_1(stage, old(self).rng@) <= usize::MAX,
            stage >= 1,
        ensures
            ({
                let run = strategy_1(stage, old(self).rng@, old(self).code_len as int, old(self).parameter, old(self).control());
                &&& r == run.value
                &&& final(self).rng@ == run.rng
                &&& final(self).code_len == run.len
            }),
            r is None <==> final(self).code_len > code_limit(),
            r is Some ==> final(self).code_len >= old(self).code_len + 2,
            final(self).code_len >= old(self).code_len,
            old(self).code_len <= code_limit() ==> final(self).code_len <= code_limit() + 21,
            final(self).seed == old(self).seed,
            final(self).parameter == old(self).parameter,
            final(self).scheme == old(self).scheme,
        decreases stage, 0u32,
    {
        if stage == 1 {
            return self.run_first_stage();
        }
        // push ebx
        self.append_code(1)?;
        let mut eax = if self.rng.next() & 0x01 == 0 {
            self.strategy_0(stage - 1)?
        } else {
            self.strategy_1(stage - 1)?
        };
        // mov ebx, eax
        self.append_code(2)?;
        let ebx = eax;
        eax = if self.rng.next() & 0x01 == 0 {
            self.strategy_0(stage - 1)?
        } else {
            self.strategy_1(stage - 1)?
        };
        let routine = self.rng.next() % 6;
        if routine == 1 {
            // shr eax, cl with ecx = ebx & 0f
            self.append_code(9)?;
            let ecx = ebx & 0x0F;
            proof {
                lemma_low_four_bits(ebx);
            }
            eax >>= ecx;
        } else if routine == 4 {
            // shl eax, cl with ecx = ebx & 0f
            self.append_code(9)?;
            let ecx = ebx & 0x0F;
            proof {
                lemma_low_four_bits(ebx);
            }
            eax <<= ecx;
        } else if routine == 0 {
            // add eax, ebx
            self.append_code(2)?;
            eax = eax.wrapping_add(ebx);
        } else if routine == 2 {
            // neg eax; add eax, ebx
            self.append_code(4)?;
            eax = ebx.wrapping_sub(eax);
        } else if routine == 3 {
            // imul eax, ebx
            self.append_code(3)?;
            eax = eax.wrapping_mul(ebx);
        } else {
            // sub eax, ebx
            self.append_code(2)?;
            eax = eax.wrapping_sub(ebx);
        }
        // pop ebx
        self.append_code(1)?;
        Some(eax)
    }
}

} // verus!

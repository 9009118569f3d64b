use vstd::arithmetic::div_mod::{
    lemma_basic_div, lemma_fundamental_div_mod_converse, lemma_mod_division_less_than_divisor,
};
use vstd::arithmetic::power::{lemma_pow_increases, pow};
use vstd::arithmetic::power2::{
    lemma2_to64, lemma2_to64_rest, lemma_pow2_pos, lemma_pow2_strictly_increases,
    lemma_pow2_unfold, pow2,
};
use vstd::prelude::*;

use crate::errors::CodecError;

verus! {

// ---------------------------------------------------------------------------
// The mathematical model of the code
// ---------------------------------------------------------------------------

/// The tap mask denoted by an octal-digit-encoded integer: each decimal
/// digit of `p` (a value in `0..=7`) contributes three mask bits, the least
/// significant decimal digit giving the least significant three bits.
pub open spec fn octal_mask(p: nat) -> nat
    decreases p,
{
    if p == 0 {
        0
    } else {
        p % 10 + 8 * octal_mask(p / 10)
    }
}

/// Every decimal digit of `p` is a valid octal digit, `0..=7`.
pub open spec fn octal_digits_ok(p: nat) -> bool
    decreases p,
{
    if p == 0 {
        true
    } else {
        p % 10 <= 7 && octal_digits_ok(p / 10)
    }
}

/// The tap mask of `p`, clamped to the `k` low bits of the register width.
pub open spec fn poly_mask(p: nat, k: nat) -> nat {
    octal_mask(p) % pow2(k)
}

/// The tap masks of a whole polynomial list, in order.
pub open spec fn poly_masks(polys: Seq<u32>, k: nat) -> Seq<u32> {
    Seq::new(polys.len(), |j: int| poly_mask(polys[j] as nat, k) as u32)
}

/// Every polynomial in the list is made of octal digits only.
pub open spec fn all_digits_ok(polys: Seq<u32>) -> bool {
    forall|j: int| 0 <= j < polys.len() ==> octal_digits_ok(#[trigger] polys[j] as nat)
}

/// The register after shifting in the bit `b`: the old contents move one
/// position up, `b` enters at the bottom, and only the `k - 1` low bits are
/// kept.
pub open spec fn step_state(k: nat, s: u32, b: bool) -> u32
    recommends
        1 <= k <= 32,
{
    ((2 * (s as nat) + (if b {
        1nat
    } else {
        0nat
    })) % pow2((k - 1) as nat)) as u32
}

/// The parity (true for odd) of the number of bit positions at which both
/// `a` and `b` have a set bit: the XOR-fold of `a AND b`.
pub open spec fn and_parity(a: nat, b: nat) -> bool
    decreases a,
{
    if a == 0 || b == 0 {
        false
    } else {
        ((a % 2 == 1) && (b % 2 == 1)) != and_parity(a / 2, b / 2)
    }
}

/// The parity bit that the tap mask `mask` produces for register `s`.
pub open spec fn out_bit(s: u32, mask: u32) -> bool {
    and_parity(s as nat, mask as nat)
}

/// The parity bits emitted for register `s`, one per tap mask, in mask order.
pub open spec fn step_output(masks: Seq<u32>, s: u32) -> Seq<bool> {
    Seq::new(masks.len(), |j: int| out_bit(s, masks[j]))
}

/// The register contents after feeding `input`, bit by bit, into a register
/// that held `s0`.
pub open spec fn end_state(k: nat, s0: u32, input: Seq<bool>) -> u32
    decreases input.len(),
{
    if input.len() == 0 {
        s0
    } else {
        step_state(k, end_state(k, s0, input.drop_last()), input.last())
    }
}

/// The whole coded stream for `input`: the parity bits for input bit `i`
/// (computed from the register just after that bit was shifted in) stand at
/// positions `i*n .. i*n + n`, where `n` is the number of masks.
pub open spec fn conv_output(k: nat, masks: Seq<u32>, s0: u32, input: Seq<bool>) -> Seq<bool>
    recommends
        masks.len() > 0,
{
    Seq::new(
        input.len() * masks.len(),
        |t: int|
            {
                let n = masks.len() as int;
                out_bit(end_state(k, s0, input.take(t / n + 1)), masks[t % n])
            },
    )
}

/// The model of a convolutional encoder: its constraint length, its parsed
/// tap masks, and the current shift-register contents.
pub struct EncoderModel {
    pub constraint_length: u32,
    pub masks: Seq<u32>,
    pub state: u32,
}

impl EncoderModel {
    /// The structural invariant: a constraint length that fits the 32-bit
    /// register, at least one mask, every mask clamped to the register
    /// width, and register contents of at most `constraint_length - 1` bits.
    pub open spec fn wf(self) -> bool {
        &&& 1 <= self.constraint_length <= 32
        &&& self.masks.len() > 0
        &&& (forall|j: int|
            0 <= j < self.masks.len() ==> ((#[trigger] self.masks[j]) as nat) < pow2(self.constraint_length as nat))
        &&& (self.state as nat) < pow2((self.constraint_length - 1) as nat)
    }
}

// ---------------------------------------------------------------------------
// Shared executable helpers
// ---------------------------------------------------------------------------

/// Computes `pow2(e)` for exponents that fit a `u64`.
pub(crate) fn pow2_u64(e: u32) -> (r: u64)
    requires
        e <= 63,
    ensures
        r as nat == pow2(e as nat),
{
    let mut r: u64 = 1;
    let mut i: u32 = 0;
    proof {
        vstd::arithmetic::power::lemma_pow0(2);
    }
    while i < e
        invariant
            i <= e <= 63,
            r as nat == pow2(i as nat),
        decreases e - i,
    {
        proof {
            lemma_pow2_unfold((i + 1) as nat);
            if ((i + 1) as nat) < 63 {
                lemma_pow2_strictly_increases((i + 1) as nat, 63);
            }
            lemma2_to64_rest();
        }
        r = r * 2;
        i = i + 1;
    }
    r
}

/// Computes the XOR-fold of `a AND m`: the parity bit of one tap mask.
pub(crate) fn parity_bit(a: u32, m: u32) -> (r: bool)
    ensures
        r == and_parity(a as nat, m as nat),
{
    let mut x: u32 = a;
    let mut y: u32 = m;
    let mut p: bool = false;
    while x != 0 && y != 0
        invariant
            and_parity(a as nat, m as nat) == (p != and_parity(x as nat, y as nat)),
        decreases x,
    {
        if x % 2 == 1 && y % 2 == 1 {
            p = !p;
        }
        x = x / 2;
        y = y / 2;
    }
    p
}

/// The parity bits of every mask for the register `s`, in mask order.
pub(crate) fn outputs_for(masks: &Vec<u32>, s: u32) -> (r: Vec<bool>)
    ensures
        r@ == step_output(masks@, s),
{
    let mut r: Vec<bool> = Vec::new();
    let mut j: usize = 0;
    while j < masks.len()
        invariant
            j <= masks@.len(),
            r@.len() == j,
            forall|jj: int| 0 <= jj < j ==> r@[jj] == out_bit(s, masks@[jj]),
        decreases masks@.len() - j,
    {
        let b = parity_bit(s, masks[j]);
        r.push(b);
        j = j + 1;
    }
    proof {
        assert(r@ =~= step_output(masks@, s));
    }
    r
}

/// Parses one octal-digit-encoded polynomial into a tap mask clamped to
/// `k` bits, rejecting any decimal digit outside `0..=7`.
pub(crate) fn parse_mask(p: u32, k: u32) -> (r: Result<u32, CodecError>)
    requires
        1 <= k <= 32,
    ensures
        r is Ok <==> octal_digits_ok(p as nat),
        r matches Ok(m) ==> m as nat == poly_mask(p as nat, k as nat),
        r is Err ==> r == Err::<u32, CodecError>(CodecError::InvalidPolynomial),
{
    let mut mask: u64 = 0;
    let mut mult: u64 = 1;
    let mut octal: u32 = p;
    let ghost mut i: nat = 0;
    proof {
        vstd::arithmetic::power::lemma_pow0(8);
        vstd::arithmetic::power::lemma_pow0(10);
        vstd::arithmetic::div_mod::lemma_div_basics(p as int);
    }
    while octal > 0
        invariant
            mult as nat == pow(8, i),
            (octal as int) <= (p as int) / pow(10, i),
            (mask as nat) < mult as nat,
            (mask as nat) + (mult as nat) * octal_mask(octal as nat) == octal_mask(p as nat),
            octal_digits_ok(p as nat) <==> octal_digits_ok(octal as nat),
        decreases octal,
    {
        let digit: u32 = octal % 10;
        if digit > 7 {
            return Err(CodecError::InvalidPolynomial);
        }
        proof {
            // Fewer than ten decimal digits remain, so `mult` stays small.
            reveal_with_fuel(pow, 11);
            if i >= 10 {
                lemma_pow_increases(10, 10, i);
                assert(pow(10, 10) == 10000000000);
                lemma_basic_div(p as int, pow(10, i) as int);
                assert(false);
            }
            lemma_pow_increases(8, i, 9);
            assert(pow(8, 9) == 134217728);
            assert((octal as int) / 10 <= ((p as int) / pow(10, i)) / 10);
            vstd::arithmetic::div_mod::lemma_div_denominator(
                p as int,
                pow(10, i) as int,
                10,
            );
            assert(pow(10, i) * 10 == pow(10, i + 1)) by {
                vstd::arithmetic::power::lemma_pow_adds(10, i, 1);
                assert(pow(10, 1nat) == 10);
            }
            assert(pow(8, i) * 8 == pow(8, i + 1)) by {
                vstd::arithmetic::power::lemma_pow_adds(8, i, 1);
                assert(pow(8, 1nat) == 8);
            }
            // The defining step of the mask: low digit plus eight times the rest.
            assert(octal_mask(octal as nat) == (octal as nat) % 10 + 8 * octal_mask(
                (octal as nat) / 10,
            ));
            assert((mask as nat) + (mult as nat) * ((octal as nat) % 10) + ((mult as nat) * 8)
                * octal_mask((octal as nat) / 10) == (mask as nat) + (mult as nat) * octal_mask(
                octal as nat,
            )) by (nonlinear_arith)
                requires
                    octal_mask(octal as nat) == (octal as nat) % 10 + 8 * octal_mask(
                        (octal as nat) / 10,
                    ),
            ;
            assert((digit as nat) * (mult as nat) <= 939524096) by (nonlinear_arith)
                requires
                    digit as nat <= 7,
                    mult as nat <= 134217728,
            ;
            assert((mask as nat) + (digit as nat) * (mult as nat) < 8 * (mult as nat))
                by (nonlinear_arith)
                requires
                    (mask as nat) < (mult as nat),
                    digit as nat <= 7,
            ;
        }
        mask = mask + (digit as u64) * mult;
        mult = mult * 8;
        octal = octal / 10;
        proof {
            i = i + 1;
        }
    }
    let pw: u64 = pow2_u64(k);
    proof {
        lemma_pow2_pos(k as nat);
        lemma_mod_division_less_than_divisor(mask as int, pw as int);
        if ((k as nat)) < 32 {
            lemma_pow2_strictly_increases(k as nat, 32);
        }
        lemma2_to64();
    }
    let m64: u64 = mask % pw;
    proof {
        assert(octal == 0);
        assert(octal_mask(0nat) == 0);
        assert((mask as nat) + (mult as nat) * octal_mask(octal as nat) == octal_mask(p as nat));
        assert((mult as nat) * octal_mask(octal as nat) == 0) by (nonlinear_arith)
            requires
                octal_mask(octal as nat) == 0,
        ;
        assert(mask as nat == octal_mask(p as nat));
        assert(m64 as nat == octal_mask(p as nat) % pow2(k as nat));
        assert(m64 < 0x100000000);
    }
    Ok(m64 as u32)
}

// ---------------------------------------------------------------------------
// The encoder
// ---------------------------------------------------------------------------

/// A rate 1/n convolutional encoder: a shift register of
/// `constraint_length - 1` bits and one parity output per tap mask.
pub struct ConvolutionalEncoder {
    constraint_length: u32,
    polynomials: Vec<u32>,
    rate_denominator: usize,
    state: u32,
}

impl View for ConvolutionalEncoder {
    type V = EncoderModel;

    closed spec fn view(&self) -> EncoderModel {
        EncoderModel {
            constraint_length: self.constraint_length,
            masks: self.polynomials@,
            state: self.state,
        }
    }
}

impl ConvolutionalEncoder {
    /// The encoder's invariant: a well-formed model, and a cached rate
    /// denominator equal to the number of masks.
    pub closed spec fn wf(&self) -> bool {
        &&& self@.wf()
        &&& self.rate_denominator == self.polynomials@.len()
    }

    /// Builds an encoder from a constraint length and a list of
    /// octal-digit-encoded generator polynomials, with the register cleared.
    pub fn new(constraint_length: u32, polynomials: Vec<u32>) -> (r: Result<
        ConvolutionalEncoder,
        CodecError,
    >)
        ensures
            r is Ok <==> (1 <= constraint_length <= 32 && polynomials@.len() > 0 && all_digits_ok(
                polynomials@,
            )),
            r matches Ok(e) ==> e.wf() && e@.wf() && e@.constraint_length == constraint_length
                && e@.masks == poly_masks(polynomials@, constraint_length as nat) && e@.state == 0,
            (constraint_length == 0 || constraint_length > 32 || polynomials@.len() == 0) ==> r
                == Err::<ConvolutionalEncoder, CodecError>(CodecError::InvalidConfiguration),
            (1 <= constraint_length <= 32 && polynomials@.len() > 0 && !all_digits_ok(
                polynomials@,
            )) ==> r == Err::<ConvolutionalEncoder, CodecError>(CodecError::InvalidPolynomial),
    {
        if constraint_length == 0 || constraint_length > 32 || polynomials.len() == 0 {
            return Err(CodecError::InvalidConfiguration);
        }
        let n = polynomials.len();
        let mut masks: Vec<u32> = Vec::new();
        let mut idx: usize = 0;
        while idx < polynomials.len()
            invariant
                1 <= constraint_length <= 32,
                n == polynomials@.len(),
                idx <= polynomials@.len(),
                masks@.len() == idx,
                forall|j: int|
                    0 <= j < idx ==> (#[trigger] masks@[j]) as nat == poly_mask(
                        polynomials@[j] as nat,
                        constraint_length as nat,
                    ),
                forall|j: int| 0 <= j < idx ==> octal_digits_ok(#[trigger] polynomials@[j] as nat),
            decreases polynomials@.len() - idx,
        {
            match parse_mask(polynomials[idx], constraint_length) {
                Ok(m) => {
                    masks.push(m);
                },
                Err(e) => {
                    assert(!octal_digits_ok(polynomials@[idx as int] as nat));
                    return Err(e);
                },
            }
            idx = idx + 1;
        }
        let enc = ConvolutionalEncoder {
            constraint_length,
            polynomials: masks,
            rate_denominator: n,
            state: 0,
        };
        proof {
            assert(enc@.masks =~= poly_masks(polynomials@, constraint_length as nat));
            assert forall|j: int| 0 <= j < enc@.masks.len() implies ((#[trigger] enc@.masks[j]) as nat) < pow2(constraint_length as nat) by {
                lemma_pow2_pos(constraint_length as nat);
                lemma_mod_division_less_than_divisor(
                    octal_mask(polynomials@[j] as nat) as int,
                    pow2(constraint_length as nat) as int,
                );
            }
            lemma_pow2_pos((constraint_length - 1) as nat);
        }
        Ok(enc)
    }

    /// Clears the shift register for a fresh stream.
    pub fn reset(&mut self)
        requires
            old(self).wf(),
        ensures
            final(self).wf(),
            final(self)@.constraint_length == old(self)@.constraint_length,
            final(self)@.masks == old(self)@.masks,
            final(self)@.state == 0,
    {
        proof {
            lemma_pow2_pos((self.constraint_length - 1) as nat);
        }
        self.state = 0;
    }

    /// Encodes a bit sequence: for each input bit, the register shifts the
    /// bit in and one parity bit per polynomial is appended to the output.
    /// The register keeps its contents across calls, modelling a continuous
    /// stream.
    pub fn encode(&mut self, input: &[bool]) -> (r: Vec<bool>)
        requires
            old(self).wf(),
        ensures
            final(self).wf(),
            final(self)@.constraint_length == old(self)@.constraint_length,
            final(self)@.masks == old(self)@.masks,
            final(self)@.state == end_state(
                old(self)@.constraint_length as nat,
                old(self)@.state,
                input@,
            ),
            r@ == conv_output(
                old(self)@.constraint_length as nat,
                old(self)@.masks,
                old(self)@.state,
                input@,
            ),
            r@.len() == input@.len() * old(self)@.masks.len(),
    {
        let ghost k_spec: nat = self.constraint_length as nat;
        let ghost masks0: Seq<u32> = self.polynomials@;
        let ghost s0: u32 = self.state;
        let k = self.constraint_length;
        let modulus64 = pow2_u64(k - 1);
        proof {
            if ((k - 1) as nat) < 31 {
                lemma_pow2_strictly_increases((k - 1) as nat, 31);
            }
            lemma2_to64();
            lemma_pow2_pos((k - 1) as nat);
        }
        let modulus = modulus64 as u32;
        let n = self.polynomials.len();
        let mut output: Vec<bool> = Vec::new();
        let mut i: usize = 0;
        while i < input.len()
            invariant
                self.constraint_length == k,
                k_spec == k as nat,
                1 <= k <= 32,
                self.polynomials@ == masks0,
                self.rate_denominator == masks0.len(),
                n == masks0.len(),
                n > 0,
                modulus as nat == pow2((k - 1) as nat),
                i <= input@.len(),
                (self.state as nat) < pow2((k_spec - 1) as nat),
                self.state == end_state(k_spec, s0, input@.take(i as int)),
                output@.len() == i * n,
                forall|t: int|
                    0 <= t < i * n ==> output@[t] == out_bit(
                        end_state(k_spec, s0, input@.take(t / (n as int) + 1)),
                        #[trigger] masks0[t % (n as int)],
                    ),
            decreases input@.len() - i,
        {
            let b = input[i];
            let bit: u32 = if b {
                1
            } else {
                0
            };
            proof {
                if ((k - 1) as nat) < 31 {
                    lemma_pow2_strictly_increases((k - 1) as nat, 31);
                }
                lemma2_to64();
            }
            let shifted: u32 = self.state * 2 + bit;
            let ghost prev_state: u32 = self.state;
            self.state = shifted % modulus;
            proof {
                lemma_mod_division_less_than_divisor(shifted as int, modulus as int);
                assert(self.state == step_state(k_spec, prev_state, b));
                assert(input@.take(i + 1).drop_last() =~= input@.take(i as int));
                assert(input@.take(i + 1).last() == input@[i as int]);
                assert(self.state == end_state(k_spec, s0, input@.take(i + 1)));
            }
            let outs = outputs_for(&self.polynomials, self.state);
            let mut outs_m = outs;
            let ghost out_before: Seq<bool> = output@;
            output.append(&mut outs_m);
            proof {
                assert((i + 1) * n == i * n + n) by (nonlinear_arith);
                assert forall|t: int| i * n <= t < (i + 1) * n implies output@[t] == out_bit(
                    end_state(k_spec, s0, input@.take(t / (n as int) + 1)),
                    #[trigger] masks0[t % (n as int)],
                ) by {
                    lemma_fundamental_div_mod_converse(t, n as int, i as int, t - i * n);
                    assert(output@[t] == out_bit(self.state, masks0[t - i * n]));
                }
                assert forall|t: int| 0 <= t < i * n implies output@[t] == out_bit(
                    end_state(k_spec, s0, input@.take(t / (n as int) + 1)),
                    #[trigger] masks0[t % (n as int)],
                ) by {
                    assert(output@[t] == out_before[t]);
                }
            }
            i = i + 1;
        }
        proof {
            assert(input@.take(input@.len() as int) =~= input@);
            assert(output@ =~= conv_output(k_spec, masks0, s0, input@));
        }
        output
    }

    /// The current shift-register contents.
    pub fn get_state(&self) -> (r: u32)
        ensures
            r == self@.state,
    {
        self.state
    }

    /// The code rate as the pair (1, number of polynomials).
    pub fn get_rate(&self) -> (r: (usize, usize))
        requires
            self.wf(),
        ensures
            r.0 == 1,
            r.1 == self@.masks.len(),
    {
        (1, self.rate_denominator)
    }
}

} // verus!

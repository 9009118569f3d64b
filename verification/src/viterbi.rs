use vstd::arithmetic::div_mod::{
    lemma_fundamental_div_mod, lemma_fundamental_div_mod_converse,
    lemma_mod_division_less_than_divisor,
};
use vstd::arithmetic::power2::{lemma2_to64, lemma_pow2_pos, lemma_pow2_strictly_increases, pow2};
use vstd::pervasive::VecAdditionalExecFns;
use vstd::prelude::*;

use crate::convolutional::{
    all_digits_ok, conv_output, end_state, octal_digits_ok, outputs_for, parse_mask, poly_mask,
    poly_masks, pow2_u64, step_output, step_state,
};
use crate::errors::CodecError;

verus! {

/// The Hamming distance between two bit sequences of equal length: the
/// number of positions at which they differ.
pub open spec fn hamming(a: Seq<bool>, b: Seq<bool>) -> nat
    recommends
        a.len() == b.len(),
    decreases a.len(),
{
    if a.len() == 0 {
        0
    } else {
        hamming(a.drop_last(), b.drop_last()) + (if a.last() != b.last() {
            1nat
        } else {
            0nat
        })
    }
}

/// The distance between the code stream that `w` would produce (from a
/// cleared register) and the received sequence: the decoder minimises this.
pub open spec fn code_distance(k: nat, masks: Seq<u32>, w: Seq<bool>, rcv: Seq<bool>) -> nat
    recommends
        masks.len() > 0,
        w.len() * masks.len() == rcv.len(),
{
    hamming(conv_output(k, masks, 0, w), rcv)
}

/// The distance of a candidate prefix `w` against the matching prefix of
/// the received sequence.
pub open spec fn prefix_distance(k: nat, masks: Seq<u32>, w: Seq<bool>, rcv: Seq<bool>) -> nat
    recommends
        masks.len() > 0,
        w.len() * masks.len() <= rcv.len(),
{
    hamming(conv_output(k, masks, 0, w), rcv.subrange(0, (w.len() * masks.len()) as int))
}

/// The cost of one trellis transition out of state `ss` on input `b`: the
/// distance of that transition's expected output against received group `t`.
pub open spec fn branch_cost(
    k: nat,
    masks: Seq<u32>,
    ss: u32,
    b: bool,
    rcv: Seq<bool>,
    t: int,
) -> nat
    recommends
        masks.len() > 0,
        (t + 1) * masks.len() <= rcv.len(),
{
    hamming(
        step_output(masks, step_state(k, ss, b)),
        rcv.subrange(t * (masks.len() as int), t * (masks.len() as int) + (masks.len() as int)),
    )
}

/// Some input sequence of length `t` drives the register from zero to state
/// `ss` at prefix distance exactly `m`.
pub open spec fn reaches(
    k: nat,
    masks: Seq<u32>,
    rcv: Seq<bool>,
    t: int,
    ss: int,
    m: nat,
) -> bool {
    exists|w: Seq<bool>|
        w.len() == t && (#[trigger] end_state(k, 0, w)) as int == ss && prefix_distance(
            k,
            masks,
            w,
            rcv,
        ) == m
}

/// The recorded predecessor of a reachable state: the stored metric is the
/// predecessor's metric plus the branch cost of the recorded transition,
/// and that transition indeed lands on the state.
pub open spec fn bp_link(
    k: nat,
    masks: Seq<u32>,
    rcv: Seq<bool>,
    prev: Seq<Option<u64>>,
    ps: int,
    pb: bool,
    dd: int,
    c: u64,
    t: int,
    num_states: int,
) -> bool {
    &&& 0 <= ps < num_states
    &&& prev[ps] is Some
    &&& c as nat == (prev[ps]->Some_0 as nat) + branch_cost(k, masks, ps as u32, pb, rcv, t)
    &&& step_state(k, ps as u32, pb) as int == dd
}

/// The register state reached from a bounded state stays bounded.
proof fn lemma_end_state_bound(k: nat, s0: u32, w: Seq<bool>)
    requires
        1 <= k <= 32,
        (s0 as nat) < pow2((k - 1) as nat),
    ensures
        (end_state(k, s0, w) as nat) < pow2((k - 1) as nat),
    decreases w.len(),
{
    if w.len() > 0 {
        lemma_end_state_bound(k, s0, w.drop_last());
        lemma_mod_division_less_than_divisor(
            2 * (end_state(k, s0, w.drop_last()) as int) + (if w.last() {
                1int
            } else {
                0int
            }),
            pow2((k - 1) as nat) as int,
        );
        lemma_pow2_pos((k - 1) as nat);
    }
}

/// Extending the input by one bit extends the code stream by one group of
/// parity bits, computed from the new register state.
proof fn lemma_conv_output_push(k: nat, masks: Seq<u32>, s0: u32, w: Seq<bool>, b: bool)
    requires
        masks.len() > 0,
    ensures
        conv_output(k, masks, s0, w.push(b)) =~= conv_output(k, masks, s0, w) + step_output(
            masks,
            step_state(k, end_state(k, s0, w), b),
        ),
{
    let n = masks.len() as int;
    let wl = w.len() as int;
    assert((wl + 1) * n == wl * n + n) by (nonlinear_arith);
    assert(w.push(b).drop_last() =~= w);
    assert forall|t: int| 0 <= t < (wl + 1) * n implies conv_output(k, masks, s0, w.push(b))[t]
        == (conv_output(k, masks, s0, w) + step_output(
        masks,
        step_state(k, end_state(k, s0, w), b),
    ))[t] by {
        if t < wl * n {
            assert(t / n < wl) by {
                assert(wl * n == n * wl) by (nonlinear_arith);
                vstd::arithmetic::div_mod::lemma_multiply_divide_lt(t, n, wl);
            }
            assert(t / n >= 0) by {
                vstd::arithmetic::div_mod::lemma_div_pos_is_pos(t, n);
            }
            assert(w.push(b).take(t / n + 1) =~= w.take(t / n + 1));
        } else {
            lemma_fundamental_div_mod_converse(t, n, wl, t - wl * n);
            assert(w.push(b).take(wl + 1) =~= w.push(b));
        }
    }
}

/// The distance of concatenated streams is the sum of the distances of the
/// parts.
proof fn lemma_hamming_concat(a: Seq<bool>, b: Seq<bool>, c: Seq<bool>, d: Seq<bool>)
    requires
        a.len() == c.len(),
        b.len() == d.len(),
    ensures
        hamming(a + b, c + d) == hamming(a, c) + hamming(b, d),
    decreases b.len(),
{
    if b.len() == 0 {
        assert(a + b =~= a);
        assert(c + d =~= c);
    } else {
        lemma_hamming_concat(a, b.drop_last(), c, d.drop_last());
        assert((a + b).drop_last() =~= a + b.drop_last());
        assert((c + d).drop_last() =~= c + d.drop_last());
        assert((a + b).last() == b.last());
        assert((c + d).last() == d.last());
    }
}

/// Extending a candidate prefix by one bit adds exactly that transition's
/// branch cost to its prefix distance.
proof fn lemma_prefix_distance_push(
    k: nat,
    masks: Seq<u32>,
    w: Seq<bool>,
    rcv: Seq<bool>,
    b: bool,
)
    requires
        masks.len() > 0,
        (w.len() + 1) * masks.len() <= rcv.len(),
    ensures
        prefix_distance(k, masks, w.push(b), rcv) == prefix_distance(k, masks, w, rcv)
            + branch_cost(k, masks, end_state(k, 0, w), b, rcv, w.len() as int),
{
    let n = masks.len() as int;
    let wl = w.len() as int;
    assert((wl + 1) * n == wl * n + n) by (nonlinear_arith);
    assert(wl * n <= (wl + 1) * n);
    lemma_conv_output_push(k, masks, 0, w, b);
    assert(rcv.subrange(0, (wl + 1) * n) =~= rcv.subrange(0, wl * n) + rcv.subrange(
        wl * n,
        wl * n + n,
    ));
    lemma_hamming_concat(
        conv_output(k, masks, 0, w),
        step_output(masks, step_state(k, end_state(k, 0, w), b)),
        rcv.subrange(0, wl * n),
        rcv.subrange(wl * n, wl * n + n),
    );
}

/// One add-compare-select step preserves minimality: if every candidate of
/// length `t` is dominated by the stored metric of its end state, and the
/// new table accounts for both transitions out of every reachable state,
/// then every candidate of length `t + 1` is dominated by the new table.
proof fn lemma_acs_step_minimality(
    k: nat,
    masks: Seq<u32>,
    rcv: Seq<bool>,
    prev: Seq<Option<u64>>,
    next: Seq<Option<u64>>,
    next0: Seq<u32>,
    next1: Seq<u32>,
    t: int,
    num_states: int,
)
    requires
        masks.len() > 0,
        1 <= k <= 32,
        num_states == pow2((k - 1) as nat),
        t >= 0,
        (t + 1) * masks.len() <= rcv.len(),
        forall|w: Seq<bool>|
            #![trigger end_state(k, 0, w)]
            w.len() == t ==> ((prev[end_state(k, 0, w) as int] is Some) && ((prev[end_state(
                k,
                0,
                w,
            ) as int]->Some_0 as nat) <= prefix_distance(k, masks, w, rcv))),
        forall|ss: int|
            0 <= ss < num_states ==> (#[trigger] next0[ss]) == step_state(k, ss as u32, false),
        forall|ss: int|
            0 <= ss < num_states ==> (#[trigger] next1[ss]) == step_state(k, ss as u32, true),
        forall|ss: int|
            0 <= ss < num_states ==> ((#[trigger] prev[ss]) matches Some(m) ==> ((next[next0[ss]
                as int] is Some) && ((next[next0[ss] as int]->Some_0 as nat) <= m as nat
                + branch_cost(k, masks, ss as u32, false, rcv, t)))),
        forall|ss: int|
            0 <= ss < num_states ==> ((#[trigger] prev[ss]) matches Some(m) ==> ((next[next1[ss]
                as int] is Some) && ((next[next1[ss] as int]->Some_0 as nat) <= m as nat
                + branch_cost(k, masks, ss as u32, true, rcv, t)))),
    ensures
        forall|w: Seq<bool>|
            #![trigger end_state(k, 0, w)]
            w.len() == t + 1 ==> ((next[end_state(k, 0, w) as int] is Some) && ((next[end_state(
                k,
                0,
                w,
            ) as int]->Some_0 as nat) <= prefix_distance(k, masks, w, rcv))),
{
    lemma_pow2_pos((k - 1) as nat);
    assert forall|w: Seq<bool>|
        #![trigger end_state(k, 0, w)]
        w.len() == t + 1 implies ((next[end_state(k, 0, w) as int] is Some) && ((next[end_state(
            k,
            0,
            w,
        ) as int]->Some_0 as nat) <= prefix_distance(k, masks, w, rcv))) by {
        let wp = w.drop_last();
        let b = w.last();
        assert(wp.push(b) =~= w);
        lemma_end_state_bound(k, 0, wp);
        let es = end_state(k, 0, wp) as int;
        let pd_wp = prefix_distance(k, masks, wp, rcv);
        assert((prev[es] is Some) && ((prev[es]->Some_0 as nat) <= pd_wp));
        let me0 = prev[es];
        lemma_prefix_distance_push(k, masks, wp, rcv, b);
        assert(end_state(k, 0, w) == step_state(k, es as u32, b));
        if b {
            assert(end_state(k, 0, w) == next1[es]);
        } else {
            assert(end_state(k, 0, w) == next0[es]);
        }
        assert(prefix_distance(k, masks, w, rcv) == pd_wp + branch_cost(
            k,
            masks,
            es as u32,
            b,
            rcv,
            t,
        ));
        assert(next[end_state(k, 0, w) as int] is Some);
        assert((next[end_state(k, 0, w) as int]->Some_0 as nat) <= prefix_distance(
            k,
            masks,
            w,
            rcv,
        ));
    }
}

/// The model of a Viterbi decoder: the constraint length and the parsed tap
/// masks of the code it decodes.
pub struct DecoderModel {
    pub constraint_length: u32,
    pub masks: Seq<u32>,
}

impl DecoderModel {
    /// The structural invariant: a constraint length that fits the 32-bit
    /// register and at least one mask.
    pub open spec fn wf(self) -> bool {
        &&& 1 <= self.constraint_length <= 32
        &&& self.masks.len() > 0
    }
}

/// A maximum-likelihood sequence estimator over the trellis of the
/// convolutional code with the given constraint length and polynomial set:
/// an add-compare-select recursion over all `2^(constraint_length - 1)`
/// register states followed by a traceback over recorded predecessors.
pub struct ViterbiDecoder {
    constraint_length: u32,
    polynomials: Vec<u32>,
    rate_denominator: usize,
}

impl View for ViterbiDecoder {
    type V = DecoderModel;

    closed spec fn view(&self) -> DecoderModel {
        DecoderModel {
            constraint_length: self.constraint_length,
            masks: self.polynomials@,
        }
    }
}

/// The Hamming distance between `expected` and the group of `n` received
/// bits starting at `start`.
fn branch_metric(expected: &Vec<bool>, received: &[bool], start: usize, n: usize) -> (r: u64)
    requires
        expected@.len() == n,
        start + n <= received@.len(),
    ensures
        r as nat == hamming(expected@, received@.subrange(start as int, (start + n) as int)),
        r as nat <= n,
{
    let mut acc: u64 = 0;
    let rl = received.len();
    let mut j: usize = 0;
    while j < n
        invariant
            expected@.len() == n,
            rl == received@.len(),
            start + n <= rl,
            j <= n,
            acc as nat <= j,
            acc as nat == hamming(
                expected@.take(j as int),
                received@.subrange(start as int, (start + j) as int),
            ),
        decreases n - j,
    {
        let e = expected[j];
        let g = received[start + j];
        proof {
            assert(expected@.take(j + 1).drop_last() =~= expected@.take(j as int));
            assert(received@.subrange(start as int, (start + j + 1) as int).drop_last()
                =~= received@.subrange(start as int, (start + j) as int));
            assert(expected@.take(j + 1).last() == expected@[j as int]);
            assert(received@.subrange(start as int, (start + j + 1) as int).last()
                == received@[(start + j) as int]);
        }
        if e != g {
            acc = acc + 1;
        }
        j = j + 1;
    }
    proof {
        assert(expected@.take(n as int) =~= expected@);
    }
    acc
}

impl ViterbiDecoder {
    /// The decoder's invariant: a well-formed model and a cached rate
    /// denominator equal to the number of masks.
    pub closed spec fn wf(&self) -> bool {
        &&& self@.wf()
        &&& self.rate_denominator == self.polynomials@.len()
    }

    /// Builds a decoder from a constraint length and a list of
    /// octal-digit-encoded generator polynomials; the parameters must match
    /// the encoder's for a correct round trip.
    pub fn new(constraint_length: u32, polynomials: Vec<u32>) -> (r: Result<
        ViterbiDecoder,
        CodecError,
    >)
        ensures
            r is Ok <==> (1 <= constraint_length <= 32 && polynomials@.len() > 0 && all_digits_ok(
                polynomials@,
            )),
            r matches Ok(d) ==> d.wf() && d@.wf() && d@.constraint_length == constraint_length
                && d@.masks == poly_masks(polynomials@, constraint_length as nat),
            (constraint_length == 0 || constraint_length > 32 || polynomials@.len() == 0) ==> r
                == Err::<ViterbiDecoder, CodecError>(CodecError::InvalidConfiguration),
            (1 <= constraint_length <= 32 && polynomials@.len() > 0 && !all_digits_ok(
                polynomials@,
            )) ==> r == Err::<ViterbiDecoder, CodecError>(CodecError::InvalidPolynomial),
    {
        if constraint_length == 0 || constraint_length > 32 || polynomials.len() == 0 {
            return Err(CodecError::InvalidConfiguration);
        }
        let n = polynomials.len();
        let mut masks: Vec<u32> = Vec::new();
        let mut idx: usize = 0;
        while idx < polynomials.len()
            invariant
                1 <= constraint_length <= 32,
                n == polynomials@.len(),
                idx <= polynomials@.len(),
                masks@.len() == idx,
                forall|j: int|
                    0 <= j < idx ==> (#[trigger] masks@[j]) as nat == poly_mask(
                        polynomials@[j] as nat,
                        constraint_length as nat,
                    ),
                forall|j: int| 0 <= j < idx ==> octal_digits_ok(#[trigger] polynomials@[j] as nat),
            decreases polynomials@.len() - idx,
        {
            match parse_mask(polynomials[idx], constraint_length) {
                Ok(m) => {
                    masks.push(m);
                },
                Err(e) => {
                    assert(!octal_digits_ok(polynomials@[idx as int] as nat));
                    return Err(e);
                },
            }
            idx = idx + 1;
        }
        let dec = ViterbiDecoder { constraint_length, polynomials: masks, rate_denominator: n };
        proof {
            assert(dec@.masks =~= poly_masks(polynomials@, constraint_length as nat));
        }
        Ok(dec)
    }

    /// Decodes a received (possibly corrupted) coded sequence back to the
    /// most likely input sequence: metrics are accumulated time step by time
    /// step over every register state, and the best final state's recorded
    /// predecessors are walked backwards.  The input length must be a
    /// multiple of the number of polynomials, and exactly one bit is
    /// recovered per group of that size; among all candidate sequences of
    /// that length, the result's code stream has minimal Hamming distance
    /// to the input.
    #[verifier::rlimit(100)]
    pub fn decode(&self, input: &[bool]) -> (r: Result<Vec<bool>, CodecError>)
        requires
            self.wf(),
        ensures
            r is Ok <==> (input@.len() as int) % (self@.masks.len() as int) == 0,
            r matches Ok(v) ==> v@.len() as int == (input@.len() as int) / (self@.masks.len() as int),
            r matches Ok(v) ==> (forall|w: Seq<bool>|
                #![trigger code_distance(self@.constraint_length as nat, self@.masks, w, input@)]
                w.len() == v@.len() ==> code_distance(
                    self@.constraint_length as nat,
                    self@.masks,
                    v@,
                    input@,
                ) <= code_distance(self@.constraint_length as nat, self@.masks, w, input@)),
            r is Err ==> r == Err::<Vec<bool>, CodecError>(CodecError::InvalidInputLength),
    {
        let n = self.rate_denominator;
        if input.len() % n != 0 {
            return Err(CodecError::InvalidInputLength);
        }
        let steps = input.len() / n;
        let l = input.len();
        proof {
            lemma_fundamental_div_mod(l as int, n as int);
            assert(l as int == (n as int) * (steps as int));
            assert((steps as int) * (n as int) == (n as int) * (steps as int))
                by (nonlinear_arith);
        }
        let k = self.constraint_length;
        let ns64 = pow2_u64(k - 1);
        proof {
            lemma_pow2_pos((k - 1) as nat);
            if ((k - 1) as nat) < 31 {
                lemma_pow2_strictly_increases((k - 1) as nat, 31);
            }
            lemma2_to64();
        }
        let num_states = ns64 as usize;
        let modulus = ns64 as u32;
        let ghost k_spec: nat = k as nat;
        let ghost masks: Seq<u32> = self.polynomials@;

        // The transition table: next state and expected output for each
        // (state, input bit) pair.
        let mut next0: Vec<u32> = Vec::new();
        let mut next1: Vec<u32> = Vec::new();
        let mut out0: Vec<Vec<bool>> = Vec::new();
        let mut out1: Vec<Vec<bool>> = Vec::new();
        let mut s: usize = 0;
        while s < num_states
            invariant
                self.wf(),
                masks == self.polynomials@,
                n == masks.len(),
                1 <= k <= 32,
                k_spec == k as nat,
                num_states as nat == pow2((k_spec - 1) as nat),
                modulus as nat == pow2((k_spec - 1) as nat),
                num_states <= 0x80000000,
                s <= num_states,
                next0@.len() == s,
                next1@.len() == s,
                out0@.len() == s,
                out1@.len() == s,
                forall|ss: int|
                    0 <= ss < s ==> (#[trigger] next0@[ss]) == step_state(k_spec, ss as u32, false),
                forall|ss: int|
                    0 <= ss < s ==> (#[trigger] next1@[ss]) == step_state(k_spec, ss as u32, true),
                forall|ss: int|
                    0 <= ss < s ==> (#[trigger] out0@[ss])@ == step_output(
                        masks,
                        step_state(k_spec, ss as u32, false),
                    ),
                forall|ss: int|
                    0 <= ss < s ==> (#[trigger] out1@[ss])@ == step_output(
                        masks,
                        step_state(k_spec, ss as u32, true),
                    ),
            decreases num_states - s,
        {
            let sv = s as u32;
            proof {
                lemma_mod_division_less_than_divisor((sv as int) * 2, modulus as int);
                lemma_mod_division_less_than_divisor((sv as int) * 2 + 1, modulus as int);
            }
            let t0 = (sv * 2) % modulus;
            let t1 = (sv * 2 + 1) % modulus;
            next0.push(t0);
            next1.push(t1);
            let o0 = outputs_for(&self.polynomials, t0);
            let o1 = outputs_for(&self.polynomials, t1);
            out0.push(o0);
            out1.push(o1);
            s = s + 1;
        }
        proof {
            assert forall|ss: int| 0 <= ss < num_states implies ((#[trigger] next0@[ss]) as int)
                < num_states as int && ((next1@[ss]) as int) < num_states as int by {
                lemma_pow2_pos((k_spec - 1) as nat);
                lemma_mod_division_less_than_divisor(
                    2 * (ss as int) + 0,
                    pow2((k_spec - 1) as nat) as int,
                );
                lemma_mod_division_less_than_divisor(
                    2 * (ss as int) + 1,
                    pow2((k_spec - 1) as nat) as int,
                );
            }
        }

        // The accumulated path metrics, time step zero: only the zero state
        // is reachable, with metric zero.
        let mut metrics: Vec<Option<u64>> = Vec::new();
        metrics.push(Some(0u64));
        let mut z: usize = 1;
        while z < num_states
            invariant
                1 <= z <= num_states,
                metrics@.len() == z,
                metrics@[0] == Some(0u64),
                forall|ss: int| 1 <= ss < z ==> (#[trigger] metrics@[ss]) is None,
            decreases num_states - z,
        {
            metrics.push(None);
            z = z + 1;
        }
        proof {
            // The empty sequence reaches state zero at distance zero.
            assert(conv_output(k_spec, masks, 0, Seq::<bool>::empty()).len() == 0);
            assert(conv_output(k_spec, masks, 0, Seq::<bool>::empty()) =~= Seq::<bool>::empty());
            assert(input@.subrange(0, 0) =~= Seq::<bool>::empty());
            assert(prefix_distance(k_spec, masks, Seq::<bool>::empty(), input@) == 0);
            assert(end_state(k_spec, 0, Seq::<bool>::empty()) == 0u32);
            assert(reaches(k_spec, masks, input@, 0, 0, 0));
            assert forall|w: Seq<bool>|
                #![trigger end_state(k_spec, 0, w)]
                w.len() == 0 implies ((metrics@[end_state(k_spec, 0, w) as int] is Some) && ((
            metrics@[end_state(k_spec, 0, w) as int]->Some_0 as nat) <= prefix_distance(
                k_spec,
                masks,
                w,
                input@,
            ))) by {
                assert(w =~= Seq::<bool>::empty());
            }
        }
        let ghost mut hist: Seq<Seq<Option<u64>>> = seq![metrics@];

        // The add-compare-select recursion with recorded back-pointers.
        let mut bps_s: Vec<Vec<u32>> = Vec::new();
        let mut bps_b: Vec<Vec<bool>> = Vec::new();
        let mut t: usize = 0;
        while t < steps
            invariant
                self.wf(),
                masks == self.polynomials@,
                n == masks.len(),
                n > 0,
                1 <= k <= 32,
                k_spec == k as nat,
                l == input@.len(),
                l == steps * n,
                num_states as nat == pow2((k_spec - 1) as nat),
                num_states >= 1,
                num_states <= 0x80000000,
                t <= steps,
                metrics@.len() == num_states,
                forall|ss: int|
                    0 <= ss < num_states ==> ((#[trigger] metrics@[ss]) matches Some(m) ==> (
                    m as nat) <= t * n),
                forall|ss: int|
                    0 <= ss < num_states ==> ((#[trigger] metrics@[ss]) matches Some(m)
                        ==> reaches(k_spec, masks, input@, t as int, ss, m as nat)),
                forall|w: Seq<bool>|
                    #![trigger end_state(k_spec, 0, w)]
                    w.len() == t as int ==> ((metrics@[end_state(k_spec, 0, w) as int] is Some)
                        && ((metrics@[end_state(k_spec, 0, w) as int]->Some_0 as nat)
                        <= prefix_distance(k_spec, masks, w, input@))),
                bps_s@.len() == t,
                bps_b@.len() == t,
                forall|tt: int| 0 <= tt < t ==> (#[trigger] bps_s@[tt])@.len() == num_states,
                forall|tt: int| 0 <= tt < t ==> (#[trigger] bps_b@[tt])@.len() == num_states,
                hist.len() == t + 1,
                hist[t as int] == metrics@,
                forall|tt: int| 0 <= tt <= t ==> (#[trigger] hist[tt]).len() == num_states,
                hist[0][0] == Some(0u64),
                forall|ss: int|
                    0 <= ss < num_states ==> ((#[trigger] hist[0][ss]) matches Some(m) ==> (ss
                        == 0 && m == 0)),
                forall|tt: int, dd: int|
                    1 <= tt <= t && 0 <= dd < num_states ==> ((#[trigger] hist[tt][dd])
                        matches Some(c) ==> bp_link(
                        k_spec,
                        masks,
                        input@,
                        hist[tt - 1],
                        bps_s@[tt - 1]@[dd] as int,
                        bps_b@[tt - 1]@[dd],
                        dd,
                        c,
                        tt - 1,
                        num_states as int,
                    )),
                forall|ss: int|
                    0 <= ss < num_states ==> (#[trigger] next0@[ss]) == step_state(
                        k_spec,
                        ss as u32,
                        false,
                    ),
                forall|ss: int|
                    0 <= ss < num_states ==> (#[trigger] next1@[ss]) == step_state(
                        k_spec,
                        ss as u32,
                        true,
                    ),
                forall|ss: int|
                    0 <= ss < num_states ==> ((#[trigger] next0@[ss]) as int) < num_states as int,
                forall|ss: int|
                    0 <= ss < num_states ==> ((#[trigger] next1@[ss]) as int) < num_states as int,
                forall|ss: int|
                    0 <= ss < num_states ==> (#[trigger] out0@[ss])@ == step_output(
                        masks,
                        step_state(k_spec, ss as u32, false),
                    ),
                forall|ss: int|
                    0 <= ss < num_states ==> (#[trigger] out1@[ss])@ == step_output(
                        masks,
                        step_state(k_spec, ss as u32, true),
                    ),
                next0@.len() == num_states,
                next1@.len() == num_states,
                out0@.len() == num_states,
                out1@.len() == num_states,
            decreases steps - t,
        {
            proof {
                assert((t + 1) * n <= steps * n) by (nonlinear_arith)
                    requires
                        t + 1 <= steps,
                        n >= 0,
                ;
                assert(t * n + n == (t + 1) * n) by (nonlinear_arith);
            }
            let mut new_metrics: Vec<Option<u64>> = Vec::new();
            let mut bp_s: Vec<u32> = Vec::new();
            let mut bp_b: Vec<bool> = Vec::new();
            let mut f: usize = 0;
            while f < num_states
                invariant
                    f <= num_states,
                    new_metrics@.len() == f,
                    bp_s@.len() == f,
                    bp_b@.len() == f,
                    forall|ss: int| 0 <= ss < f ==> (#[trigger] new_metrics@[ss]) is None,
                decreases num_states - f,
            {
                new_metrics.push(None);
                bp_s.push(0u32);
                bp_b.push(false);
                f = f + 1;
            }
            let start = t * n;
            let mut s2: usize = 0;
            while s2 < num_states
                invariant
                    self.wf(),
                    masks == self.polynomials@,
                    n == masks.len(),
                    n > 0,
                    1 <= k <= 32,
                    k_spec == k as nat,
                    l == input@.len(),
                    l == steps * n,
                    t < steps,
                    start == t * n,
                    start + n <= l,
                    (t as int + 1) * (n as int) == start + n,
                    num_states >= 1,
                    num_states <= 0x80000000,
                    s2 <= num_states,
                    metrics@.len() == num_states,
                    forall|ss: int|
                        0 <= ss < num_states ==> ((#[trigger] metrics@[ss]) matches Some(m) ==> (
                        m as nat) <= t * n),
                    forall|ss: int|
                        0 <= ss < num_states ==> ((#[trigger] metrics@[ss]) matches Some(m)
                            ==> reaches(k_spec, masks, input@, t as int, ss, m as nat)),
                    new_metrics@.len() == num_states,
                    bp_s@.len() == num_states,
                    bp_b@.len() == num_states,
                    forall|ss: int|
                        0 <= ss < num_states ==> ((#[trigger] new_metrics@[ss]) matches Some(c)
                            ==> (c as nat) <= start + n),
                    forall|dd: int|
                        0 <= dd < num_states ==> ((#[trigger] new_metrics@[dd]) matches Some(c)
                            ==> reaches(k_spec, masks, input@, t + 1, dd, c as nat)),
                    forall|dd: int|
                        0 <= dd < num_states ==> ((#[trigger] new_metrics@[dd]) matches Some(c)
                            ==> bp_link(
                            k_spec,
                            masks,
                            input@,
                            metrics@,
                            bp_s@[dd] as int,
                            bp_b@[dd],
                            dd,
                            c,
                            t as int,
                            num_states as int,
                        )),
                    forall|ss: int|
                        0 <= ss < s2 ==> ((#[trigger] metrics@[ss]) matches Some(m) ==> ((
                        new_metrics@[next0@[ss] as int] is Some) && ((new_metrics@[next0@[ss] as int]->Some_0 as nat)
                            <= m as nat + branch_cost(k_spec, masks, ss as u32, false, input@, t as int)))),
                    forall|ss: int|
                        0 <= ss < s2 ==> ((#[trigger] metrics@[ss]) matches Some(m) ==> ((
                        new_metrics@[next1@[ss] as int] is Some) && ((new_metrics@[next1@[ss] as int]->Some_0 as nat)
                            <= m as nat + branch_cost(k_spec, masks, ss as u32, true, input@, t as int)))),
                    forall|ss: int|
                        0 <= ss < num_states ==> (#[trigger] next0@[ss]) == step_state(
                            k_spec,
                            ss as u32,
                            false,
                        ),
                    forall|ss: int|
                        0 <= ss < num_states ==> (#[trigger] next1@[ss]) == step_state(
                            k_spec,
                            ss as u32,
                            true,
                        ),
                    forall|ss: int|
                        0 <= ss < num_states ==> ((#[trigger] next0@[ss]) as int)
                            < num_states as int,
                    forall|ss: int|
                        0 <= ss < num_states ==> ((#[trigger] next1@[ss]) as int)
                            < num_states as int,
                    forall|ss: int|
                        0 <= ss < num_states ==> (#[trigger] out0@[ss])@ == step_output(
                            masks,
                            step_state(k_spec, ss as u32, false),
                        ),
                    forall|ss: int|
                        0 <= ss < num_states ==> (#[trigger] out1@[ss])@ == step_output(
                            masks,
                            step_state(k_spec, ss as u32, true),
                        ),
                    next0@.len() == num_states,
                    next1@.len() == num_states,
                    out0@.len() == num_states,
                    out1@.len() == num_states,
                decreases num_states - s2,
            {
                let mo = metrics[s2];
                match mo {
                    Some(m) => {
                        let ghost w_pre: Seq<bool> = choose|w: Seq<bool>|
                            w.len() == t as int && (#[trigger] end_state(k_spec, 0, w)) as int
                                == s2 as int && prefix_distance(k_spec, masks, w, input@)
                                == m as nat;
                        let bm0 = branch_metric(&out0[s2], input, start, n);
                        let cand0 = m + bm0;
                        let d0 = next0[s2] as usize;
                        proof {
                            assert(bm0 as nat == branch_cost(
                                k_spec,
                                masks,
                                s2 as u32,
                                false,
                                input@,
                                t as int,
                            ));
                            lemma_prefix_distance_push(k_spec, masks, w_pre, input@, false);
                            assert(w_pre.push(false).len() == t + 1);
                            assert(end_state(k_spec, 0, w_pre.push(false)) == step_state(
                                k_spec,
                                s2 as u32,
                                false,
                            )) by {
                                assert(w_pre.push(false).drop_last() =~= w_pre);
                            }
                            assert(reaches(k_spec, masks, input@, t + 1, d0 as int, cand0 as nat));
                        }
                        let take0 = match new_metrics[d0] {
                            None => true,
                            Some(c) => cand0 < c,
                        };
                        if take0 {
                            new_metrics.set(d0, Some(cand0));
                            bp_s.set(d0, s2 as u32);
                            bp_b.set(d0, false);
                        }
                        let bm1 = branch_metric(&out1[s2], input, start, n);
                        let cand1 = m + bm1;
                        let d1 = next1[s2] as usize;
                        proof {
                            assert(bm1 as nat == branch_cost(
                                k_spec,
                                masks,
                                s2 as u32,
                                true,
                                input@,
                                t as int,
                            ));
                            lemma_prefix_distance_push(k_spec, masks, w_pre, input@, true);
                            assert(w_pre.push(true).len() == t + 1);
                            assert(end_state(k_spec, 0, w_pre.push(true)) == step_state(
                                k_spec,
                                s2 as u32,
                                true,
                            )) by {
                                assert(w_pre.push(true).drop_last() =~= w_pre);
                            }
                            assert(reaches(k_spec, masks, input@, t + 1, d1 as int, cand1 as nat));
                        }
                        let take1 = match new_metrics[d1] {
                            None => true,
                            Some(c) => cand1 < c,
                        };
                        if take1 {
                            new_metrics.set(d1, Some(cand1));
                            bp_s.set(d1, s2 as u32);
                            bp_b.set(d1, true);
                        }
                    },
                    None => {},
                }
                s2 = s2 + 1;
            }
            proof {
                // Any candidate of length t + 1 is dominated by the new
                // table: split off its last bit.
                lemma_acs_step_minimality(
                    k_spec,
                    masks,
                    input@,
                    metrics@,
                    new_metrics@,
                    next0@,
                    next1@,
                    t as int,
                    num_states as int,
                );
                hist = hist.push(new_metrics@);
            }
            metrics = new_metrics;
            bps_s.push(bp_s);
            bps_b.push(bp_b);
            t = t + 1;
        }

        // The best final state: the minimum accumulated metric, ties broken
        // by the lowest state index.
        let mut best_s: usize = 0;
        let mut best_m: Option<u64> = None;
        let mut s3: usize = 0;
        while s3 < num_states
            invariant
                num_states >= 1,
                s3 <= num_states,
                metrics@.len() == num_states,
                best_s < num_states,
                best_m matches Some(b0) ==> metrics@[best_s as int] == Some(b0),
                forall|ss: int|
                    0 <= ss < s3 ==> ((#[trigger] metrics@[ss]) matches Some(c) ==> ((best_m
                        is Some) && (best_m->Some_0 <= c))),
            decreases num_states - s3,
        {
            match metrics[s3] {
                Some(c) => {
                    let take = match best_m {
                        None => true,
                        Some(b) => c < b,
                    };
                    if take {
                        best_m = Some(c);
                        best_s = s3;
                    }
                },
                None => {},
            }
            s3 = s3 + 1;
        }
        proof {
            // Some candidate always exists, so a best state was found.
            let w0 = Seq::new(steps as nat, |x: int| false);
            assert(w0.len() == steps as int);
            lemma_pow2_pos((k_spec - 1) as nat);
            lemma_end_state_bound(k_spec, 0, w0);
            let pd_w0 = prefix_distance(k_spec, masks, w0, input@);
            assert((metrics@[end_state(k_spec, 0, w0) as int] is Some) && ((metrics@[end_state(
                k_spec,
                0,
                w0,
            ) as int]->Some_0 as nat) <= pd_w0));
            assert(best_m is Some);
        }
        let bm_val = match best_m {
            Some(x) => x,
            None => 0,
        };
        proof {
            assert(best_m == Some(bm_val));
        }

        // Traceback: walk the recorded predecessors from the chosen final
        // state, collecting one input bit per time step, newest first.  The
        // ghost suffix mirrors the collected bits in chronological order.
        let mut rev: Vec<bool> = Vec::new();
        let mut cur: usize = best_s;
        let ghost mut suffix: Seq<bool> = Seq::empty();
        let mut tt: usize = steps;
        proof {
            assert(hist[steps as int] == metrics@);
            assert forall|w: Seq<bool>|
                #![trigger end_state(k_spec, 0, w)]
                (w.len() == steps as int && end_state(k_spec, 0, w) as int == best_s as int && (
                hist[steps as int][best_s as int] is Some) && prefix_distance(
                    k_spec,
                    masks,
                    w,
                    input@,
                ) == (hist[steps as int][best_s as int]->Some_0 as nat)) implies ((w
                + suffix).len() == steps as int && end_state(k_spec, 0, w + suffix) as int
                == best_s as int && prefix_distance(k_spec, masks, w + suffix, input@)
                == bm_val as nat) by {
                assert(w + suffix =~= w);
            }
        }
        while tt > 0
            invariant
                self.wf(),
                masks == self.polynomials@,
                n == masks.len(),
                n > 0,
                1 <= k <= 32,
                k_spec == k as nat,
                l == input@.len(),
                l == steps * n,
                num_states >= 1,
                tt <= steps,
                rev@.len() == steps - tt,
                suffix.len() == steps - tt,
                forall|q2: int|
                    0 <= q2 < suffix.len() ==> suffix[q2] == rev@[suffix.len() - 1 - q2],
                cur < num_states,
                bps_s@.len() == steps,
                bps_b@.len() == steps,
                forall|t2: int| 0 <= t2 < steps ==> (#[trigger] bps_s@[t2])@.len() == num_states,
                forall|t2: int| 0 <= t2 < steps ==> (#[trigger] bps_b@[t2])@.len() == num_states,
                hist.len() == steps + 1,
                forall|t2: int| 0 <= t2 <= steps ==> (#[trigger] hist[t2]).len() == num_states,
                hist[0][0] == Some(0u64),
                forall|ss: int|
                    0 <= ss < num_states ==> ((#[trigger] hist[0][ss]) matches Some(m) ==> (ss
                        == 0 && m == 0)),
                forall|t2: int, dd: int|
                    1 <= t2 <= steps && 0 <= dd < num_states ==> ((#[trigger] hist[t2][dd])
                        matches Some(c) ==> bp_link(
                        k_spec,
                        masks,
                        input@,
                        hist[t2 - 1],
                        bps_s@[t2 - 1]@[dd] as int,
                        bps_b@[t2 - 1]@[dd],
                        dd,
                        c,
                        t2 - 1,
                        num_states as int,
                    )),
                hist[tt as int][cur as int] is Some,
                forall|w: Seq<bool>|
                    #![trigger end_state(k_spec, 0, w)]
                    (w.len() == tt as int && end_state(k_spec, 0, w) as int == cur as int && (
                    hist[tt as int][cur as int] is Some) && prefix_distance(
                        k_spec,
                        masks,
                        w,
                        input@,
                    ) == (hist[tt as int][cur as int]->Some_0 as nat)) ==> ((w + suffix).len()
                        == steps as int && end_state(
                        k_spec,
                        0,
                        w + suffix,
                    ) as int == best_s as int && prefix_distance(k_spec, masks, w + suffix, input@)
                        == bm_val as nat),
            decreases tt,
        {
            tt = tt - 1;
            let row_b = &bps_b[tt];
            let pb = row_b[cur];
            let row_s = &bps_s[tt];
            let ps = row_s[cur] as usize;
            proof {
                let c = hist[tt + 1][cur as int]->Some_0;
                assert(bp_link(
                    k_spec,
                    masks,
                    input@,
                    hist[tt as int],
                    ps as int,
                    pb,
                    cur as int,
                    c,
                    tt as int,
                    num_states as int,
                ));
                let mp = hist[tt as int][ps as int]->Some_0;
                let ghost old_suffix = suffix;
                suffix = seq![pb] + suffix;
                assert(suffix.len() == steps - tt);
                assert forall|w: Seq<bool>|
                    #![trigger end_state(k_spec, 0, w)]
                    (w.len() == tt as int && end_state(k_spec, 0, w) as int == ps as int && (
                    hist[tt as int][ps as int] is Some) && prefix_distance(
                        k_spec,
                        masks,
                        w,
                        input@,
                    ) == (hist[tt as int][ps as int]->Some_0 as nat)) implies ((w + suffix).len()
                        == steps as int && end_state(
                        k_spec,
                        0,
                        w + suffix,
                    ) as int == best_s as int && prefix_distance(k_spec, masks, w + suffix, input@)
                        == bm_val as nat) by {
                    assert((tt as int + 1) * (n as int) <= (steps as int) * (n as int))
                        by (nonlinear_arith)
                        requires
                            tt as int + 1 <= steps as int,
                            n as int >= 0,
                    ;
                    lemma_prefix_distance_push(k_spec, masks, w, input@, pb);
                    let wx = w.push(pb);
                    let pd_wx = prefix_distance(k_spec, masks, wx, input@);
                    assert(wx.drop_last() =~= w);
                    assert(end_state(k_spec, 0, wx) as int == cur as int);
                    assert(prefix_distance(k_spec, masks, wx, input@) == c as nat);
                    assert((wx + old_suffix).len() == steps as int && end_state(
                        k_spec,
                        0,
                        wx + old_suffix,
                    ) as int == best_s as int && prefix_distance(
                        k_spec,
                        masks,
                        wx + old_suffix,
                        input@,
                    ) == bm_val as nat);
                    assert(w + suffix =~= wx + old_suffix);
                }
            }
            rev.push(pb);
            cur = ps;
        }

        // Restore chronological order.
        let mut decoded: Vec<bool> = Vec::new();
        let mut q: usize = 0;
        while q < steps
            invariant
                q <= steps,
                rev@.len() == steps,
                suffix.len() == steps,
                forall|q2: int| 0 <= q2 < steps ==> suffix[q2] == rev@[steps - 1 - q2],
                decoded@.len() == q,
                forall|q2: int| 0 <= q2 < q ==> decoded@[q2] == rev@[steps - 1 - q2],
            decreases steps - q,
        {
            decoded.push(rev[steps - 1 - q]);
            q = q + 1;
        }
        proof {
            assert(decoded@ =~= suffix);
            // The empty prefix reaches level zero, so the collected suffix
            // is a minimal-distance candidate of full length.
            assert(conv_output(k_spec, masks, 0, Seq::<bool>::empty()).len() == 0);
            assert(conv_output(k_spec, masks, 0, Seq::<bool>::empty()) =~= Seq::<bool>::empty());
            assert(input@.subrange(0, 0) =~= Seq::<bool>::empty());
            let pd_empty = prefix_distance(k_spec, masks, Seq::<bool>::empty(), input@);
            assert(pd_empty == 0);
            assert(end_state(k_spec, 0, Seq::<bool>::empty()) == 0u32);
            assert(cur == 0);
            assert(Seq::<bool>::empty() + suffix =~= suffix);
            assert(prefix_distance(k_spec, masks, suffix, input@) == bm_val as nat);
            assert forall|w: Seq<bool>|
                #![trigger code_distance(k_spec, masks, w, input@)]
                w.len() == steps as int implies code_distance(k_spec, masks, decoded@, input@)
                <= code_distance(k_spec, masks, w, input@) by {
                assert((w.len() * masks.len()) as int == l as int) by (nonlinear_arith)
                    requires
                        w.len() == steps as int,
                        masks.len() == n as int,
                        l == steps * n,
                ;
                assert(input@.subrange(0, (w.len() * masks.len()) as int) =~= input@);
                let pd_w = prefix_distance(k_spec, masks, w, input@);
                assert((metrics@[end_state(k_spec, 0, w) as int] is Some) && ((metrics@[
                end_state(k_spec, 0, w) as int]->Some_0 as nat) <= pd_w));
                lemma_pow2_pos((k_spec - 1) as nat);
                lemma_end_state_bound(k_spec, 0, w);
                assert(code_distance(k_spec, masks, w, input@) == prefix_distance(
                    k_spec,
                    masks,
                    w,
                    input@,
                ));
                assert((suffix.len() * masks.len()) as int == l as int) by (nonlinear_arith)
                    requires
                        suffix.len() == steps as int,
                        masks.len() == n as int,
                        l == steps * n,
                ;
                assert(input@.subrange(0, (suffix.len() * masks.len()) as int) =~= input@);
                assert(code_distance(k_spec, masks, decoded@, input@) == prefix_distance(
                    k_spec,
                    masks,
                    suffix,
                    input@,
                ));
            }
        }
        Ok(decoded)
    }
}

} // verus!

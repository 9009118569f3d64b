use vstd::arithmetic::div_mod::{
    lemma_fundamental_div_mod, lemma_mod_division_less_than_divisor, lemma_mod_multiples_basic,
};
use vstd::pervasive::VecAdditionalExecFns;
use vstd::prelude::*;
use vstd::set_lib::{lemma_int_range, lemma_subset_equality, set_int_range};

use crate::convolutional::{
    all_digits_ok, conv_output, end_state, poly_masks, ConvolutionalEncoder,
};
use crate::errors::CodecError;

verus! {

// ---------------------------------------------------------------------------
// The interleaver permutation
// ---------------------------------------------------------------------------

/// The fixed interleaver permutation: position `i` of the input is copied to
/// position `(i*7 + 5) mod len` of the output.
pub open spec fn perm_index(i: int, len: int) -> int
    recommends
        len > 0,
{
    (i * 7 + 5) % len
}

/// The interleaver output after the first `m` input positions have been
/// placed, starting from an all-false sequence of the input's length.
pub open spec fn interleave_rec(s: Seq<bool>, m: nat) -> Seq<bool>
    decreases m,
{
    if m == 0 {
        Seq::new(s.len(), |x: int| false)
    } else {
        interleave_rec(s, (m - 1) as nat).update(
            perm_index(m - 1, s.len() as int),
            s[m - 1],
        )
    }
}

/// The interleaved sequence: every input position placed at its permuted
/// index, later positions overwriting earlier ones where the permutation
/// collides.
pub open spec fn interleave_spec(s: Seq<bool>) -> Seq<bool> {
    interleave_rec(s, s.len())
}

/// Some input index below `len` is sent to position `t` by the permutation.
pub open spec fn perm_covers(t: int, len: int) -> bool {
    exists|i: int| 0 <= i < len && #[trigger] perm_index(i, len) == t
}

/// No product of two integers in `1..=6` is a multiple of seven.
proof fn lemma_small_product_not_multiple_of_seven(q: int, r: int)
    requires
        1 <= q <= 6,
        1 <= r <= 6,
    ensures
        (q * r) % 7 != 0,
{
    assert((q * r) % 7 != 0) by (nonlinear_arith)
        requires
            1 <= q <= 6,
            1 <= r <= 6,
    ;
}

/// Two distinct indices below `len` keep distinct permuted positions
/// whenever `len` is not a multiple of seven.
proof fn lemma_perm_index_distinct(i: int, j: int, len: int)
    requires
        len > 0,
        len % 7 != 0,
        0 <= i < j < len,
    ensures
        perm_index(i, len) != perm_index(j, len),
{
    if perm_index(i, len) == perm_index(j, len) {
        let d = j - i;
        lemma_fundamental_div_mod(7 * i + 5, len);
        lemma_fundamental_div_mod(7 * j + 5, len);
        let qi = (7 * i + 5) / len;
        let qj = (7 * j + 5) / len;
        let q = qj - qi;
        assert(len * qj - len * qi == (qj - qi) * len) by (nonlinear_arith);
        assert(7 * d == q * len);
        assert(q >= 1) by (nonlinear_arith)
            requires
                7 * d == q * len,
                d >= 1,
                len > 0,
        ;
        assert(q <= 6) by (nonlinear_arith)
            requires
                7 * d == q * len,
                d < len,
                len > 0,
        ;
        let r = len % 7;
        lemma_mod_division_less_than_divisor(len, 7);
        lemma_fundamental_div_mod(len, 7);
        let e = len / 7;
        assert(q * len == q * (7 * e + r));
        assert(q * (7 * e + r) == 7 * (q * e) + q * r) by (nonlinear_arith);
        assert(q * r == 7 * (d - q * e));
        lemma_mod_multiples_basic(d - q * e, 7);
        assert((7 * (d - q * e)) % 7 == 0);
        lemma_small_product_not_multiple_of_seven(q, r);
        assert(false);
    }
}

/// The interleaver permutation is a bijection on `0..len` whenever `len` is
/// positive and not a multiple of seven: every index is sent into range, no
/// two indices collide, and every position is reached.
pub proof fn lemma_interleaver_bijective(len: int)
    requires
        len > 0,
        len % 7 != 0,
    ensures
        forall|i: int| 0 <= i < len ==> 0 <= #[trigger] perm_index(i, len) < len,
        forall|i: int, j: int|
            0 <= i < len && 0 <= j < len && i != j ==> perm_index(i, len) != perm_index(j, len),
        forall|t: int| 0 <= t < len ==> #[trigger] perm_covers(t, len),
{
    assert forall|i: int| 0 <= i < len implies 0 <= #[trigger] perm_index(i, len) < len by {
        lemma_mod_division_less_than_divisor(i * 7 + 5, len);
    }
    assert forall|i: int, j: int|
        0 <= i < len && 0 <= j < len && i != j implies perm_index(i, len) != perm_index(
        j,
        len,
    ) by {
        if i < j {
            lemma_perm_index_distinct(i, j, len);
        } else {
            lemma_perm_index_distinct(j, i, len);
        }
    }
    let positions = Seq::new(len as nat, |i: int| perm_index(i, len));
    assert(positions.no_duplicates());
    positions.unique_seq_to_set();
    let range = set_int_range(0, len);
    lemma_int_range(0, len);
    assert(positions.to_set().subset_of(range)) by {
        assert forall|t: int| positions.to_set().contains(t) implies range.contains(t) by {
            let i = choose|i: int| 0 <= i < positions.len() && positions[i] == t;
            lemma_mod_division_less_than_divisor(i * 7 + 5, len);
        }
    }
    lemma_subset_equality(positions.to_set(), range);
    assert forall|t: int| 0 <= t < len implies #[trigger] perm_covers(t, len) by {
        assert(range.contains(t));
        assert(positions.to_set().contains(t));
        assert(positions.contains(t));
        let i = choose|i: int| 0 <= i < positions.len() && positions[i] == t;
        assert(perm_index(i, len) == t);
    }
}

/// The partially filled interleaver output keeps the input's length: every
/// placement lands inside it.
proof fn lemma_interleave_rec_len(s: Seq<bool>, m: nat)
    requires
        m <= s.len(),
    ensures
        interleave_rec(s, m).len() == s.len(),
    decreases m,
{
    if m > 0 {
        lemma_interleave_rec_len(s, (m - 1) as nat);
        lemma_mod_division_less_than_divisor((m - 1) * 7 + 5, s.len() as int);
    }
}

/// After the first `m` placements, position `perm_index(i)` holds `s[i]`
/// for every `i < m`, since no later placement collides with it.
proof fn lemma_interleave_rec_places(s: Seq<bool>, i: int, m: int)
    requires
        (s.len() as int) % 7 != 0,
        0 <= i < m <= s.len(),
    ensures
        0 <= perm_index(i, s.len() as int) < s.len(),
        interleave_rec(s, m as nat)[perm_index(i, s.len() as int)] == s[i],
    decreases m,
{
    let len = s.len() as int;
    lemma_mod_division_less_than_divisor(i * 7 + 5, len);
    lemma_interleave_rec_len(s, (m - 1) as nat);
    if m == i + 1 {
        assert(interleave_rec(s, m as nat) == interleave_rec(s, (m - 1) as nat).update(
            perm_index(i, len),
            s[i],
        ));
    } else {
        lemma_interleave_rec_places(s, i, m - 1);
        lemma_perm_index_distinct(i, m - 1, len);
        lemma_mod_division_less_than_divisor((m - 1) * 7 + 5, len);
        assert(interleave_rec(s, m as nat) == interleave_rec(s, (m - 1) as nat).update(
            perm_index(m - 1, len),
            s[m - 1],
        ));
    }
}

/// When the input length is not a multiple of seven, the interleaver moves
/// every input bit to its permuted position: nothing is overwritten or
/// left behind.
pub proof fn lemma_interleave_places(s: Seq<bool>, i: int)
    requires
        (s.len() as int) % 7 != 0,
        0 <= i < s.len(),
    ensures
        0 <= perm_index(i, s.len() as int) < s.len(),
        interleave_spec(s)[perm_index(i, s.len() as int)] == s[i],
{
    lemma_interleave_rec_places(s, i, s.len() as int);
}

// ---------------------------------------------------------------------------
// The turbo encoder
// ---------------------------------------------------------------------------

/// The model of a turbo encoder: the shared tap masks of its two
/// constituent encoders and the two shift registers.
pub struct TurboModel {
    pub masks: Seq<u32>,
    pub state1: u32,
    pub state2: u32,
}

/// A parallel-concatenated turbo encoder: two identically configured
/// convolutional encoders with constraint length 3, the second fed through
/// the interleaver, emitting systematic bits followed by both parity
/// streams.
pub struct TurboEncoder {
    encoder1: ConvolutionalEncoder,
    encoder2: ConvolutionalEncoder,
}

impl View for TurboEncoder {
    type V = TurboModel;

    closed spec fn view(&self) -> TurboModel {
        TurboModel {
            masks: self.encoder1@.masks,
            state1: self.encoder1@.state,
            state2: self.encoder2@.state,
        }
    }
}

impl TurboEncoder {
    /// The invariant: both constituent encoders are well formed, share the
    /// same masks, and have constraint length 3.
    pub closed spec fn wf(&self) -> bool {
        &&& self.encoder1.wf()
        &&& self.encoder2.wf()
        &&& self.encoder1@.constraint_length == 3
        &&& self.encoder2@.constraint_length == 3
        &&& self.encoder1@.masks == self.encoder2@.masks
    }

    /// Builds a turbo encoder from one polynomial list, used by both
    /// constituent encoders with constraint length 3.
    pub fn new(polynomials: Vec<u32>) -> (r: Result<TurboEncoder, CodecError>)
        ensures
            r is Ok <==> (polynomials@.len() > 0 && all_digits_ok(polynomials@)),
            r matches Ok(t) ==> t.wf() && t@.masks == poly_masks(polynomials@, 3) && t@.state1 == 0
                && t@.state2 == 0,
            polynomials@.len() == 0 ==> r == Err::<TurboEncoder, CodecError>(
                CodecError::InvalidConfiguration,
            ),
            (polynomials@.len() > 0 && !all_digits_ok(polynomials@)) ==> r == Err::<
                TurboEncoder,
                CodecError,
            >(CodecError::InvalidPolynomial),
    {
        let mut copy: Vec<u32> = Vec::new();
        let mut i: usize = 0;
        while i < polynomials.len()
            invariant
                i <= polynomials@.len(),
                copy@ == polynomials@.take(i as int),
            decreases polynomials@.len() - i,
        {
            copy.push(polynomials[i]);
            proof {
                assert(copy@ =~= polynomials@.take(i + 1));
            }
            i = i + 1;
        }
        proof {
            assert(copy@ =~= polynomials@);
        }
        let encoder1 = match ConvolutionalEncoder::new(3, copy) {
            Ok(e) => e,
            Err(e) => {
                return Err(e);
            },
        };
        let encoder2 = match ConvolutionalEncoder::new(3, polynomials) {
            Ok(e) => e,
            Err(e) => {
                return Err(e);
            },
        };
        Ok(TurboEncoder { encoder1, encoder2 })
    }

    /// Applies the fixed permutation `i -> (i*7 + 5) mod len` to the input,
    /// returning an empty sequence for empty input.
    pub fn interleave(&self, input: &[bool]) -> (r: Vec<bool>)
        ensures
            r@ == interleave_spec(input@),
            r@.len() == input@.len(),
    {
        let len = input.len();
        let mut out: Vec<bool> = Vec::new();
        let mut z: usize = 0;
        while z < len
            invariant
                z <= len,
                out@.len() == z,
                forall|t: int| 0 <= t < z ==> out@[t] == false,
            decreases len - z,
        {
            out.push(false);
            z = z + 1;
        }
        proof {
            assert(out@ =~= interleave_rec(input@, 0));
        }
        if len == 0 {
            return out;
        }
        let mut i: usize = 0;
        while i < len
            invariant
                len == input@.len(),
                len > 0,
                i <= len,
                out@.len() == len,
                out@ == interleave_rec(input@, i as nat),
            decreases len - i,
        {
            let pos_wide: u128 = ((i as u128) * 7 + 5) % (len as u128);
            proof {
                lemma_mod_division_less_than_divisor((i as int) * 7 + 5, len as int);
            }
            let pos = pos_wide as usize;
            out.set(pos, input[i]);
            proof {
                assert(out@ =~= interleave_rec(input@, (i + 1) as nat));
            }
            i = i + 1;
        }
        out
    }

    /// Turbo encoding: both registers are cleared, the input is encoded
    /// directly and through the interleaver, and the output is the
    /// systematic bits followed by the two parity streams.
    pub fn encode(&mut self, input: &[bool]) -> (r: Vec<bool>)
        requires
            old(self).wf(),
        ensures
            final(self).wf(),
            final(self)@.masks == old(self)@.masks,
            r@ == input@ + conv_output(3, old(self)@.masks, 0, input@) + conv_output(
                3,
                old(self)@.masks,
                0,
                interleave_spec(input@),
            ),
            r@.len() == input@.len() * (1 + 2 * old(self)@.masks.len()),
            r@.take(input@.len() as int) == input@,
            final(self)@.state1 == end_state(3, 0, input@),
            final(self)@.state2 == end_state(3, 0, interleave_spec(input@)),
    {
        self.encoder1.reset();
        self.encoder2.reset();
        let encoded1 = self.encoder1.encode(input);
        let interleaved = self.interleave(input);
        let encoded2 = self.encoder2.encode(interleaved.as_slice());
        let mut output = vstd::slice::slice_to_vec(input);
        let mut enc1 = encoded1;
        output.append(&mut enc1);
        let mut enc2 = encoded2;
        output.append(&mut enc2);
        proof {
            let ghost masks = old(self)@.masks;
            let ghost l = input@.len() as int;
            let ghost n = masks.len() as int;
            assert(output@ =~= input@ + conv_output(3, masks, 0, input@) + conv_output(
                3,
                masks,
                0,
                interleave_spec(input@),
            ));
            assert(l + l * n + l * n == l * (1 + 2 * n)) by (nonlinear_arith);
            assert(output@.take(l) =~= input@);
        }
        output
    }
}

} // verus!

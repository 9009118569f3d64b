use vstd::arithmetic::div_mod::{
    lemma_fundamental_div_mod, lemma_fundamental_div_mod_converse,
    lemma_mod_division_less_than_divisor,
};
use vstd::prelude::*;
use vstd::string::{StrSliceExecFns, StringExecFns};
use vstd::utf8::encode_utf8;

use crate::errors::CodecError;

verus! {

// ---------------------------------------------------------------------------
// Character classes and decimal numerals
// ---------------------------------------------------------------------------

/// `c` is an ASCII lower-case letter.
pub open spec fn is_lower_char(c: char) -> bool {
    97 <= (c as u32) <= 122
}

/// `c` is an ASCII upper-case letter.
pub open spec fn is_upper_char(c: char) -> bool {
    65 <= (c as u32) <= 90
}

/// `c` is an ASCII letter.
pub open spec fn is_alpha_char(c: char) -> bool {
    is_lower_char(c) || is_upper_char(c)
}

/// Every character of `s` is an ASCII decimal digit.
pub open spec fn all_dec_digits(s: Seq<char>) -> bool {
    forall|i: int| 0 <= i < s.len() ==> 48 <= ((#[trigger] s[i]) as u32) <= 57
}

/// The value of a string of decimal digits, most significant first.
pub open spec fn dec_value(s: Seq<char>) -> int
    recommends
        all_dec_digits(s),
    decreases s.len(),
{
    if s.len() == 0 {
        0
    } else {
        dec_value(s.drop_last()) * 10 + ((s.last() as u32) - 48)
    }
}

/// `s` is a decimal numeral that a 32-bit signed integer can hold: an
/// optional sign followed by at least one digit, with a value in range.
pub open spec fn i32_numeral_ok(s: Seq<char>) -> bool {
    if s.len() == 0 {
        false
    } else if s[0] == '+' || s[0] == '-' {
        &&& s.len() > 1
        &&& all_dec_digits(s.skip(1))
        &&& (if s[0] == '-' {
            -dec_value(s.skip(1)) >= i32::MIN
        } else {
            dec_value(s.skip(1)) <= i32::MAX
        })
    } else {
        all_dec_digits(s) && dec_value(s) <= i32::MAX
    }
}

/// The signed value of a decimal numeral.
pub open spec fn numeral_value(s: Seq<char>) -> int
    recommends
        i32_numeral_ok(s),
{
    if s.len() > 0 && s[0] == '-' {
        -dec_value(s.skip(1))
    } else if s.len() > 0 && s[0] == '+' {
        dec_value(s.skip(1))
    } else {
        dec_value(s)
    }
}

// ---------------------------------------------------------------------------
// Trusted boundary: the standard library's string services
// ---------------------------------------------------------------------------

/// The Unicode lower-case form of a character sequence; it depends on the
/// characters alone.
pub uninterp spec fn lower_of(s: Seq<char>) -> Seq<char>;

/// Relies on `str::to_lowercase`: the result is the lower-case form of the
/// input and depends on the input characters alone; an empty string stays
/// empty.
#[verifier::external_body]
fn lowercase(s: &str) -> (r: String)
    ensures
        r@ == lower_of(s@),
        s@.len() == 0 ==> r@.len() == 0,
{
    s.to_lowercase()
}

/// Relies on `<i32 as FromStr>::from_str` (through `str::parse`): it accepts
/// exactly an optional sign followed by one or more decimal digits, with the
/// value in the 32-bit signed range, and returns that value.
#[verifier::external_body]
fn parse_i32(s: &str) -> (r: Option<i32>)
    ensures
        r is Some <==> i32_numeral_ok(s@),
        r matches Some(v) ==> v as int == numeral_value(s@),
{
    s.parse::<i32>().ok()
}

/// Relies on `String`'s `FromIterator<&char>`: collecting characters yields
/// the string of exactly those characters in order.
#[verifier::external_body]
fn chars_to_string(v: &Vec<char>) -> (r: String)
    ensures
        r@ == v@,
{
    v.iter().collect()
}

// ---------------------------------------------------------------------------
// The cipher transforms, character by character
// ---------------------------------------------------------------------------

/// The Caesar shift of one character: letters rotate by `s` places within
/// their case, everything else passes through.
pub open spec fn shift_char(c: char, s: int) -> char
    recommends
        0 <= s < 26,
{
    if is_lower_char(c) {
        (((((c as u32) - 97) + s) % 26 + 97) as u8) as char
    } else if is_upper_char(c) {
        (((((c as u32) - 65) + s) % 26 + 65) as u8) as char
    } else {
        c
    }
}

/// The Caesar cipher over a whole message.
pub open spec fn caesar_spec(msg: Seq<char>, s: int) -> Seq<char>
    recommends
        0 <= s < 26,
{
    Seq::new(msg.len(), |i: int| shift_char(msg[i], s))
}

/// The forward shift amount that the key denotes: the key parsed as a
/// number (3 when it does not parse), reduced modulo 26.
pub open spec fn caesar_shift_value(key: Seq<char>) -> int {
    (if i32_numeral_ok(key) {
        numeral_value(key)
    } else {
        3
    }) % 26
}

/// The number of ASCII letters among the first `i` characters of `msg`:
/// the key position used at index `i` of a Vigenère message.
pub open spec fn alpha_count(msg: Seq<char>, i: int) -> int
    decreases i,
{
    if i <= 0 {
        0
    } else {
        alpha_count(msg, i - 1) + (if is_alpha_char(msg[i - 1]) {
            1int
        } else {
            0int
        })
    }
}

/// The key table of a Vigenère cipher: the offset (0..26) of every ASCII
/// lower-case letter of the lowered key, in order.
pub open spec fn lower_alpha_offsets(s: Seq<char>) -> Seq<u8>
    decreases s.len(),
{
    if s.len() == 0 {
        Seq::empty()
    } else {
        let pre = lower_alpha_offsets(s.drop_last());
        if is_lower_char(s.last()) {
            pre.push((((s.last() as u32) - 97) as u8))
        } else {
            pre
        }
    }
}

/// One Vigenère character: a letter rotates by the key offset (forward to
/// encrypt, backward to decrypt) within its case.
pub open spec fn vig_char(c: char, off: u8, encrypt: bool) -> char
    recommends
        off < 26,
        is_alpha_char(c),
{
    let base: int = if is_lower_char(c) {
        97
    } else {
        65
    };
    let delta: int = if encrypt {
        off as int
    } else {
        26 - (off as int)
    };
    (((((c as u32) - base) + delta) % 26 + base) as u8) as char
}

/// The Vigenère cipher over a whole message: letters consume key offsets in
/// turn, everything else passes through without advancing the key.
pub open spec fn vigenere_spec(msg: Seq<char>, offs: Seq<u8>, encrypt: bool) -> Seq<char>
    recommends
        offs.len() > 0,
{
    Seq::new(
        msg.len(),
        |i: int|
            if is_alpha_char(msg[i]) {
                vig_char(msg[i], offs[alpha_count(msg, i) % (offs.len() as int)], encrypt)
            } else {
                msg[i]
            },
    )
}

/// The XOR cipher over the UTF-8 bytes of the message, with the key bytes
/// repeated; every resulting byte is read back as one character.
pub open spec fn xor_spec(m: Seq<u8>, key: Seq<u8>) -> Seq<char>
    recommends
        key.len() > 0,
{
    Seq::new(m.len(), |i: int| (m[i] ^ key[i % (key.len() as int)]) as char)
}

// ---------------------------------------------------------------------------
// Executable helpers
// ---------------------------------------------------------------------------

/// Character-by-character string equality.
fn str_eq(a: &str, b: &str) -> (r: bool)
    ensures
        r == (a@ == b@),
{
    let al = a.unicode_len();
    let bl = b.unicode_len();
    if al != bl {
        return false;
    }
    let mut i: usize = 0;
    while i < al
        invariant
            al == a@.len(),
            al == b@.len(),
            i <= al,
            forall|t: int| 0 <= t < i ==> a@[t] == b@[t],
        decreases al - i,
    {
        if a.get_char(i) != b.get_char(i) {
            return false;
        }
        i = i + 1;
    }
    proof {
        assert(a@ =~= b@);
    }
    true
}

/// Applies the Caesar shift to one character.
fn shift_char_exec(c: char, s: u32) -> (r: char)
    requires
        s < 26,
    ensures
        r == shift_char(c, s as int),
{
    let v = c as u32;
    if 97 <= v && v <= 122 {
        let nv = (v - 97 + s) % 26 + 97;
        (nv as u8) as char
    } else if 65 <= v && v <= 90 {
        let nv = (v - 65 + s) % 26 + 65;
        (nv as u8) as char
    } else {
        c
    }
}

/// Applies one Vigenère rotation to a letter.
fn vig_char_exec(c: char, off: u8, encrypt: bool) -> (r: char)
    requires
        off < 26,
        is_alpha_char(c),
    ensures
        r == vig_char(c, off, encrypt),
{
    let v = c as u32;
    let base: u32 = if 97 <= v && v <= 122 {
        97
    } else {
        65
    };
    let delta: u32 = if encrypt {
        off as u32
    } else {
        26 - (off as u32)
    };
    let nv = (v - base + delta) % 26 + base;
    ((nv as u8) as char)
}

// ---------------------------------------------------------------------------
// The cipher
// ---------------------------------------------------------------------------

/// The model of a cipher: its algorithm name and its key, as character
/// sequences.
pub struct CipherModel {
    pub algorithm: Seq<char>,
    pub key: Seq<char>,
}

/// A classical cipher at the boundary of the coding engine: Caesar,
/// Vigenère, or XOR substitution, chosen by name.
pub struct Cipher {
    algorithm: String,
    key: String,
}

impl View for Cipher {
    type V = CipherModel;

    closed spec fn view(&self) -> CipherModel {
        CipherModel { algorithm: self.algorithm@, key: self.key@ }
    }
}

impl Cipher {
    /// Builds a cipher from an algorithm name and a key; the name is
    /// checked when a message is processed.
    pub fn new(algorithm: String, key: String) -> (c: Cipher)
        ensures
            c@.algorithm == algorithm@,
            c@.key == key@,
    {
        Cipher { algorithm, key }
    }

    /// The Caesar transform with the key parsed as a shift: forward to
    /// encrypt, backward to decrypt.
    fn caesar_cipher(&self, message: &str, encrypt: bool) -> (r: String)
        ensures
            r@ == caesar_spec(
                message@,
                if encrypt {
                    caesar_shift_value(self@.key)
                } else {
                    (26 - caesar_shift_value(self@.key)) % 26
                },
            ),
    {
        let parsed = parse_i32(self.key.as_str());
        let base_shift: u32 = match parsed {
            Some(v) => {
                if v >= 0 {
                    (v as u32) % 26
                } else {
                    let b: u64 = (-(v as i64)) as u64;
                    let m = (b % 26) as u32;
                    proof {
                        lemma_fundamental_div_mod(b as int, 26);
                        let q = (b as int) / 26;
                        if m == 0 {
                            lemma_fundamental_div_mod_converse(v as int, 26, -q, 0);
                        } else {
                            lemma_fundamental_div_mod_converse(
                                v as int,
                                26,
                                -q - 1,
                                26 - (m as int),
                            );
                        }
                    }
                    if m == 0 {
                        0
                    } else {
                        26 - m
                    }
                }
            },
            None => 3,
        };
        let shift: u32 = if encrypt {
            base_shift
        } else {
            (26 - base_shift) % 26
        };
        let mlen = message.unicode_len();
        let mut out: Vec<char> = Vec::new();
        let mut i: usize = 0;
        while i < mlen
            invariant
                mlen == message@.len(),
                i <= mlen,
                out@.len() == i,
                shift < 26,
                shift as int == (if encrypt {
                    caesar_shift_value(self@.key)
                } else {
                    (26 - caesar_shift_value(self@.key)) % 26
                }),
                forall|t: int| 0 <= t < i ==> out@[t] == shift_char(message@[t], shift as int),
            decreases mlen - i,
        {
            let c = message.get_char(i);
            out.push(shift_char_exec(c, shift));
            i = i + 1;
        }
        let r = chars_to_string(&out);
        proof {
            assert(r@ =~= caesar_spec(message@, shift as int));
        }
        r
    }

    /// The Vigenère transform: the lowered key's letters give the offsets,
    /// repeated over the message's letters; a key without letters leaves
    /// the message unchanged.
    fn vigenere_cipher(&self, message: &str, encrypt: bool) -> (r: String)
        ensures
            lower_alpha_offsets(lower_of(self@.key)).len() == 0 ==> r@ == message@,
            lower_alpha_offsets(lower_of(self@.key)).len() > 0 ==> r@ == vigenere_spec(
                message@,
                lower_alpha_offsets(lower_of(self@.key)),
                encrypt,
            ),
    {
        let lowered = lowercase(self.key.as_str());
        let lstr = lowered.as_str();
        let llen = lstr.unicode_len();
        let mut offs: Vec<u8> = Vec::new();
        let mut i: usize = 0;
        while i < llen
            invariant
                llen == lstr@.len(),
                lstr@ == lower_of(self@.key),
                i <= llen,
                offs@ == lower_alpha_offsets(lstr@.take(i as int)),
                forall|t: int| 0 <= t < offs@.len() ==> (#[trigger] offs@[t]) < 26,
            decreases llen - i,
        {
            let c = lstr.get_char(i);
            let v = c as u32;
            proof {
                assert(lstr@.take(i + 1).drop_last() =~= lstr@.take(i as int));
                assert(lstr@.take(i + 1).last() == lstr@[i as int]);
            }
            if 97 <= v && v <= 122 {
                offs.push((v - 97) as u8);
            }
            i = i + 1;
        }
        proof {
            assert(lstr@.take(llen as int) =~= lstr@);
        }
        if offs.len() == 0 {
            return message.to_owned();
        }
        let mlen = message.unicode_len();
        let mut out: Vec<char> = Vec::new();
        let mut kidx: usize = 0;
        let mut j: usize = 0;
        while j < mlen
            invariant
                mlen == message@.len(),
                j <= mlen,
                out@.len() == j,
                offs@ == lower_alpha_offsets(lower_of(self@.key)),
                offs@.len() > 0,
                forall|t: int| 0 <= t < offs@.len() ==> (#[trigger] offs@[t]) < 26,
                kidx <= j,
                kidx as int == alpha_count(message@, j as int),
                forall|t: int|
                    0 <= t < j ==> out@[t] == (if is_alpha_char(message@[t]) {
                        vig_char(
                            message@[t],
                            offs@[alpha_count(message@, t) % (offs@.len() as int)],
                            encrypt,
                        )
                    } else {
                        message@[t]
                    }),
            decreases mlen - j,
        {
            let c = message.get_char(j);
            let v = c as u32;
            if (97 <= v && v <= 122) || (65 <= v && v <= 90) {
                let off = offs[kidx % offs.len()];
                proof {
                    lemma_mod_division_less_than_divisor(kidx as int, offs@.len() as int);
                }
                out.push(vig_char_exec(c, off, encrypt));
                kidx = kidx + 1;
            } else {
                out.push(c);
            }
            j = j + 1;
        }
        let r = chars_to_string(&out);
        proof {
            assert(r@ =~= vigenere_spec(message@, offs@, encrypt));
        }
        r
    }

    /// The XOR transform over the message's UTF-8 bytes with the key bytes
    /// repeated; an empty key leaves the message unchanged.  Encryption and
    /// decryption are the same operation.
    fn xor_cipher(&self, message: &str) -> (r: String)
        ensures
            encode_utf8(self@.key).len() == 0 ==> r@ == message@,
            encode_utf8(self@.key).len() > 0 ==> r@ == xor_spec(
                encode_utf8(message@),
                encode_utf8(self@.key),
            ),
    {
        let kb = self.key.as_str().as_bytes();
        if kb.len() == 0 {
            return message.to_owned();
        }
        let mb = message.as_bytes();
        let mlen = mb.len();
        let mut out: Vec<char> = Vec::new();
        let mut i: usize = 0;
        while i < mlen
            invariant
                mlen == mb@.len(),
                mb@ == encode_utf8(message@),
                kb@ == encode_utf8(self@.key),
                kb@.len() > 0,
                i <= mlen,
                out@.len() == i,
                forall|t: int|
                    0 <= t < i ==> out@[t] == ((mb@[t] ^ kb@[t % (kb@.len() as int)]) as char),
            decreases mlen - i,
        {
            let x = mb[i] ^ kb[i % kb.len()];
            out.push(x as char);
            i = i + 1;
        }
        let r = chars_to_string(&out);
        proof {
            assert(r@ =~= xor_spec(encode_utf8(message@), encode_utf8(self@.key)));
        }
        r
    }

    /// Encrypts a message with the configured algorithm, or reports
    /// `UnsupportedAlgorithm` for any other algorithm name.
    pub fn encrypt(&self, message: &str) -> (r: Result<String, CodecError>)
        ensures
            r is Ok <==> (self@.algorithm == "caesar"@ || self@.algorithm == "vigenere"@
                || self@.algorithm == "xor"@),
            self@.algorithm == "caesar"@ ==> (r matches Ok(s) && s@ == caesar_spec(
                message@,
                caesar_shift_value(self@.key),
            )),
            self@.algorithm == "vigenere"@ ==> (r matches Ok(s) && s@ == (
            if lower_alpha_offsets(lower_of(self@.key)).len() == 0 {
                message@
            } else {
                vigenere_spec(message@, lower_alpha_offsets(lower_of(self@.key)), true)
            })),
            self@.algorithm == "xor"@ ==> (r matches Ok(s) && s@ == (if encode_utf8(
                self@.key,
            ).len() == 0 {
                message@
            } else {
                xor_spec(encode_utf8(message@), encode_utf8(self@.key))
            })),
            r is Err ==> r == Err::<String, CodecError>(CodecError::UnsupportedAlgorithm),
    {
        proof {
            reveal_strlit("caesar");
            reveal_strlit("vigenere");
            reveal_strlit("xor");
            assert("caesar"@.len() == 6);
            assert("vigenere"@.len() == 8);
            assert("xor"@.len() == 3);
            assert("caesar"@ != "vigenere"@);
            assert("caesar"@ != "xor"@);
            assert("vigenere"@ != "xor"@);
        }
        if str_eq(self.algorithm.as_str(), "caesar") {
            Ok(self.caesar_cipher(message, true))
        } else if str_eq(self.algorithm.as_str(), "vigenere") {
            Ok(self.vigenere_cipher(message, true))
        } else if str_eq(self.algorithm.as_str(), "xor") {
            Ok(self.xor_cipher(message))
        } else {
            Err(CodecError::UnsupportedAlgorithm)
        }
    }

    /// Decrypts a message with the configured algorithm, or reports
    /// `UnsupportedAlgorithm` for any other algorithm name.
    pub fn decrypt(&self, message: &str) -> (r: Result<String, CodecError>)
        ensures
            r is Ok <==> (self@.algorithm == "caesar"@ || self@.algorithm == "vigenere"@
                || self@.algorithm == "xor"@),
            self@.algorithm == "caesar"@ ==> (r matches Ok(s) && s@ == caesar_spec(
                message@,
                (26 - caesar_shift_value(self@.key)) % 26,
            )),
            self@.algorithm == "vigenere"@ ==> (r matches Ok(s) && s@ == (
            if lower_alpha_offsets(lower_of(self@.key)).len() == 0 {
                message@
            } else {
                vigenere_spec(message@, lower_alpha_offsets(lower_of(self@.key)), false)
            })),
            self@.algorithm == "xor"@ ==> (r matches Ok(s) && s@ == (if encode_utf8(
                self@.key,
            ).len() == 0 {
                message@
            } else {
                xor_spec(encode_utf8(message@), encode_utf8(self@.key))
            })),
            r is Err ==> r == Err::<String, CodecError>(CodecError::UnsupportedAlgorithm),
    {
        proof {
            reveal_strlit("caesar");
            reveal_strlit("vigenere");
            reveal_strlit("xor");
            assert("caesar"@.len() == 6);
            assert("vigenere"@.len() == 8);
            assert("xor"@.len() == 3);
            assert("caesar"@ != "vigenere"@);
            assert("caesar"@ != "xor"@);
            assert("vigenere"@ != "xor"@);
        }
        if str_eq(self.algorithm.as_str(), "caesar") {
            Ok(self.caesar_cipher(message, false))
        } else if str_eq(self.algorithm.as_str(), "vigenere") {
            Ok(self.vigenere_cipher(message, false))
        } else if str_eq(self.algorithm.as_str(), "xor") {
            Ok(self.xor_cipher(message))
        } else {
            Err(CodecError::UnsupportedAlgorithm)
        }
    }
}

} // verus!

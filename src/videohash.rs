use vstd::prelude::*;
use vstd::string::*;
use vstd::utf8::*;

verus! {

/// Number of bits, and of text symbols, in a fingerprint.
pub const CODE_BITS: usize = 64;

/// Why a text was not accepted as a fingerprint.
#[derive(Debug, Clone, Copy, PartialEq, Eq)]
pub enum CodeError {
    /// The text is not 64 bytes long; `len` is its length in bytes.
    BadLength { len: usize },
    /// The byte at `index` is neither `0` nor `1`.
    BadSymbol { index: usize },
}

pub open spec fn is_binary_digit(c: char) -> bool {
    c == '0' || c == '1'
}

pub open spec fn is_binary_byte(b: u8) -> bool {
    b == 48 || b == 49
}

/// The canonical text of a fingerprint: 64 symbols, each `0` or `1`.
pub open spec fn is_code_text(t: Seq<char>) -> bool {
    &&& t.len() == 64
    &&& forall|i: int| 0 <= i < 64 ==> is_binary_digit(#[trigger] t[i])
}

/// Bit `i` of `c`, counted from the most significant bit (`i == 0`).
pub open spec fn bit_from_msb(c: u64, i: int) -> bool {
    (c >> ((63 - i) as u64)) & 1 == 1
}

/// `c` is the code written by `t`: its bit `i` from the most significant end
/// is set exactly when symbol `i` of `t` is `1`.
pub open spec fn denotes(t: Seq<char>, c: u64) -> bool {
    forall|i: int| 0 <= i < 64 ==> bit_from_msb(c, i) == (#[trigger] t[i] == '1')
}

/// The code that a fingerprint text denotes.
pub open spec fn code_of(t: Seq<char>) -> u64 {
    choose|c: u64| denotes(t, c)
}

proof fn lemma_bits_step(a: u64, b: u64, s: u64)
    requires
        s < 64,
        (a >> s) & 1 == (b >> s) & 1,
        (a >> s) >> 1u64 == (b >> s) >> 1u64,
    ensures
        a >> s == b >> s,
{
    let x = a >> s;
    let y = b >> s;
    assert(x == y) by (bit_vector)
        requires
            x & 1 == y & 1,
            x >> 1u64 == y >> 1u64,
    ;
}

proof fn lemma_equal_from_bit(a: u64, b: u64, s: u64)
    requires
        s <= 64,
        forall|i: int| 0 <= i < 64 ==> bit_from_msb(a, i) == bit_from_msb(b, i),
    ensures
        a >> (64 - s) as u64 == b >> (64 - s) as u64,
    decreases s,
{
    if s == 0 {
        assert(a >> 64u64 == 0 && b >> 64u64 == 0) by (bit_vector);
    } else {
        lemma_equal_from_bit(a, b, (s - 1) as u64);
        let t = (64 - s) as u64;
        assert(bit_from_msb(a, 63 - t) == bit_from_msb(b, 63 - t));
        assert((a >> t) & 1 <= 1 && (b >> t) & 1 <= 1) by (bit_vector);
        assert((a >> t) >> 1u64 == a >> (t + 1) && (b >> t) >> 1u64 == b >> (t + 1)) by (bit_vector)
            requires
                t < 64,
        ;
        lemma_bits_step(a, b, t);
    }
}

/// A text denotes at most one code.
pub proof fn lemma_denotes_unique(t: Seq<char>, a: u64, b: u64)
    requires
        denotes(t, a),
        denotes(t, b),
    ensures
        a == b,
{
    assert forall|i: int| 0 <= i < 64 implies bit_from_msb(a, i) == bit_from_msb(b, i) by {
        assert(bit_from_msb(a, i) == (t[i] == '1'));
        assert(bit_from_msb(b, i) == (t[i] == '1'));
    }
    lemma_equal_from_bit(a, b, 64);
    assert(a >> 0u64 == a && b >> 0u64 == b) by (bit_vector);
}

/// The 64-symbol text of `c`, most significant bit first.
pub open spec fn code_text(c: u64) -> Seq<char> {
    Seq::new(64, |i: int| if bit_from_msb(c, i) { '1' } else { '0' })
}

/// The error that parsing reports for a text with UTF-8 bytes `b`.
pub open spec fn rejects(b: Seq<u8>, e: CodeError) -> bool {
    match e {
        CodeError::BadLength { len } => len == b.len() && b.len() != 64,
        CodeError::BadSymbol { index } => {
            &&& b.len() == 64
            &&& index < 64
            &&& !is_binary_byte(b[index as int])
            &&& forall|j: int| 0 <= j < index ==> is_binary_byte(#[trigger] b[j])
        },
    }
}

/// What parsing `s` returns: the code it denotes when `s` is a valid
/// fingerprint text, the error that describes it otherwise.
pub open spec fn parse_outcome(t: Seq<char>, r: Result<u64, CodeError>) -> bool {
    &&& (r is Ok <==> is_code_text(t))
    &&& match r {
        Ok(c) => denotes(t, c) && c == code_of(t),
        Err(e) => rejects(encode_utf8(t), e),
    }
}

#[verifier::rlimit(40)]
proof fn lemma_encode_binary_digits(cs: Seq<char>)
    ensures
        (forall|i: int| 0 <= i < cs.len() ==> is_binary_digit(#[trigger] cs[i])) <==> (forall|
            i: int,
        |
            0 <= i < encode_utf8(cs).len() ==> is_binary_byte(#[trigger] encode_utf8(cs)[i])),
        (forall|i: int| 0 <= i < cs.len() ==> is_binary_digit(#[trigger] cs[i])) ==> {
            &&& encode_utf8(cs).len() == cs.len()
            &&& forall|i: int|
                0 <= i < cs.len() ==> ((#[trigger] cs[i] == '1') <==> encode_utf8(cs)[i] == 49)
        },
    decreases cs.len(),
{
    broadcast use char_is_scalar;

    if cs.len() > 0 {
        let rest = cs.drop_first();
        lemma_encode_binary_digits(rest);
        let v = cs[0] as u32;
        char_is_scalar(cs[0]);
        char_u32_cast(cs[0], v);
        let head = encode_scalar(v);
        let all = encode_utf8(cs);
        assert(all == head + encode_utf8(rest));
        assert(all[0] == head[0]);
        if has_width_1_encoding(v) {
            assert(head == seq![(v & 0x7F) as u8]);
            assert((v & 0x7F) as u8 == v as u8) by (bit_vector)
                requires
                    v <= 0x7F,
            ;
            assert(is_binary_digit(cs[0]) <==> (v == 48 || v == 49));
            assert(is_binary_byte(all[0]) <==> (v == 48 || v == 49));
        } else {
            assert(forall|y: u8| #![auto] (0xC0u8 | y) != 48u8 && (0xC0u8 | y) != 49u8
                && (0xE0u8 | y) != 48u8 && (0xE0u8 | y) != 49u8 && (0xF0u8 | y) != 48u8 && (0xF0u8
                | y) != 49u8) by (bit_vector);
            if has_width_2_encoding(v) {
                assert(head[0] == leading_byte_width_2(v));
            } else if has_width_3_encoding(v) {
                assert(head[0] == leading_byte_width_3(v));
            } else {
                assert(head[0] == leading_byte_width_4(v));
            }
            assert(!is_binary_byte(all[0]));
            assert(!is_binary_digit(cs[0]));
        }
        if forall|i: int| 0 <= i < cs.len() ==> is_binary_digit(#[trigger] cs[i]) {
            assert forall|i: int| 0 <= i < rest.len() implies is_binary_digit(#[trigger] rest[i]) by {
                assert(rest[i] == cs[i + 1]);
            }
            assert forall|i: int| 0 <= i < cs.len() implies ((#[trigger] cs[i] == '1')
                <==> all[i] == 49) by {
                if i > 0 {
                    assert(cs[i] == rest[i - 1]);
                }
            }
        }
        if forall|i: int| 0 <= i < all.len() ==> is_binary_byte(#[trigger] all[i]) {
            assert(is_binary_byte(all[0]));
            assert forall|i: int|
                0 <= i < encode_utf8(rest).len() implies is_binary_byte(
                #[trigger] encode_utf8(rest)[i],
            ) by {
                assert(encode_utf8(rest)[i] == all[i + head.len()]);
            }
            assert forall|i: int| 0 <= i < cs.len() implies is_binary_digit(#[trigger] cs[i]) by {
                if i > 0 {
                    assert(cs[i] == rest[i - 1]);
                }
            }
        }
    }
}

proof fn lemma_shift_in(code: u64, bit: u64, s: u64)
    requires
        bit <= 1,
        s < 63,
    ensures
        (((code << 1u64) | bit) >> (s + 1)) & 1 == (code >> s) & 1,
        (((code << 1u64) | bit) >> 0u64) & 1 == bit,
{
    assert((((code << 1u64) | bit) >> (s + 1)) & 1 == (code >> s) & 1) by (bit_vector)
        requires
            bit <= 1,
            s < 63,
    ;
    assert((((code << 1u64) | bit) >> 0u64) & 1 == bit) by (bit_vector)
        requires
            bit <= 1,
    ;
}

/// Parses a fingerprint text: exactly 64 bytes, each `0` or `1`, most
/// significant bit first.
pub fn binary_string_to_u64(binary_str: &str) -> (r: Result<u64, CodeError>)
    ensures
        parse_outcome(binary_str@, r),
{
    proof {
        lemma_encode_binary_digits(binary_str@);
    }
    let bytes = binary_str.as_bytes();
    let n = bytes.len();
    if n != CODE_BITS {
        return Err(CodeError::BadLength { len: n });
    }
    let mut code: u64 = 0;
    let mut i: usize = 0;
    while i < CODE_BITS
        invariant
            bytes@ == binary_str.spec_bytes(),
            bytes@.len() == 64,
            0 <= i <= 64,
            forall|j: int| 0 <= j < i ==> is_binary_byte(#[trigger] bytes@[j]),
            forall|j: int|
                0 <= j < i ==> ((code >> ((i - 1 - j) as u64)) & 1 == 1) == (#[trigger] bytes@[j]
                    == 49),
        decreases 64 - i,
    {
        let b = bytes[i];
        if b != 48 && b != 49 {
            proof {
                let t = binary_str@;
                lemma_encode_binary_digits(t);
                assert(!is_binary_byte(encode_utf8(t)[i as int]));
                if is_code_text(t) {
                    assert(forall|k: int| 0 <= k < t.len() ==> is_binary_digit(#[trigger] t[k]));
                    assert(is_binary_byte(encode_utf8(t)[i as int]));
                }
            }
            return Err(CodeError::BadSymbol { index: i });
        }
        let bit: u64 = if b == 49 {
            1
        } else {
            0
        };
        let next = (code << 1u64) | bit;
        proof {
            assert forall|j: int| 0 <= j < i + 1 implies ((next >> ((i + 1 - 1 - j) as u64)) & 1
                == 1) == (#[trigger] bytes@[j] == 49) by {
                if j < i {
                    lemma_shift_in(code, bit, (i - 1 - j) as u64);
                    assert((i + 1 - 1 - j) as u64 == ((i - 1 - j) as u64) + 1);
                } else {
                    lemma_shift_in(code, bit, 0);
                }
            }
        }
        code = next;
        i += 1;
    }
    proof {
        assert forall|j: int| 0 <= j < 64 implies bit_from_msb(code, j) == (#[trigger] binary_str@[j]
            == '1') by {
            assert(bytes@[j] == encode_utf8(binary_str@)[j]);
        }
        assert(denotes(binary_str@, code));
        lemma_denotes_unique(binary_str@, code, code_of(binary_str@));
    }
    Ok(code)
}

/// The 64-symbol text of `code`, most significant bit first.
pub fn format_code(code: u64) -> (r: String)
    ensures
        r@ == code_text(code),
        is_code_text(r@),
        denotes(r@, code),
{
    let mut out = String::new();
    let mut i: usize = 0;
    while i < CODE_BITS
        invariant
            0 <= i <= 64,
            out@ == code_text(code).take(i as int),
        decreases 64 - i,
    {
        let bit = (code >> ((63 - i) as u64)) & 1;
        if bit == 1 {
            proof {
                reveal_strlit("1");
            }
            out.append("1");
        } else {
            proof {
                reveal_strlit("0");
            }
            out.append("0");
        }
        assert(out@ == code_text(code).take(i + 1));
        i += 1;
    }
    assert(out@ == code_text(code));
    out
}

/// Formatting the code that a valid text denotes gives back that text.
pub proof fn lemma_format_parse(s: Seq<char>, c: u64)
    requires
        is_code_text(s),
        denotes(s, c),
    ensures
        code_text(c) == s,
{
    assert(code_text(c) =~= s);
}

/// An ASCII text one symbol short of, or one symbol past, a fingerprint is
/// refused for its length.
pub proof fn lemma_off_by_one_length(s: Seq<char>, e: CodeError)
    requires
        s.len() == 63 || s.len() == 65,
        is_ascii_chars(s),
        rejects(encode_utf8(s), e),
    ensures
        e is BadLength,
{
    is_ascii_chars_encode_utf8(s);
}

/// A fingerprint as the 64-symbol binary text that clients send.
#[derive(Debug)]
pub struct VideoHash {
    pub hash: String,
}

impl VideoHash {
    /// Accepts `binary_str` as a fingerprint when it is a valid 64-symbol
    /// binary text, and reports why not otherwise.
    pub fn from_binary_string(binary_str: &str) -> (r: Result<VideoHash, CodeError>)
        ensures
            r is Ok <==> is_code_text(binary_str@),
            match r {
                Ok(v) => v.hash@ == binary_str@,
                Err(e) => rejects(binary_str.spec_bytes(), e),
            },
    {
        match binary_string_to_u64(binary_str) {
            Ok(_) => Ok(VideoHash { hash: binary_str.to_owned() }),
            Err(e) => Err(e),
        }
    }

    /// The code that this fingerprint's text denotes.
    pub fn code(&self) -> (r: Result<u64, CodeError>)
        ensures
            parse_outcome(self.hash@, r),
    {
        binary_string_to_u64(self.hash.as_str())
    }
}

} // verus!

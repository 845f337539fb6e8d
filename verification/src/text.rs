use vstd::prelude::*;

verus! {

/// Whether two byte slices are equal.
pub fn bytes_eq(x: &[u8], y: &[u8]) -> (r: bool)
    ensures
        r == (x@ == y@),
{
    if x.len() != y.len() {
        return false;
    }
    let mut i: usize = 0;
    while i < x.len()
        invariant
            x.len() == y.len(),
            i <= x.len(),
            forall|j: int| 0 <= j < i ==> x@[j] == y@[j],
        decreases x.len() - i,
    {
        if x[i] != y[i] {
            return false;
        }
        i = i + 1;
    }
    assert(x@ =~= y@);
    true
}

/// Whether two strings are equal.
pub fn str_eq(a: &str, b: &str) -> (r: bool)
    ensures
        r == (a@ == b@),
{
    let eq = bytes_eq(a.as_bytes(), b.as_bytes());
    proof {
        vstd::utf8::encode_utf8_decode_utf8(a@);
        vstd::utf8::encode_utf8_decode_utf8(b@);
    }
    eq
}

/// A lowercase hexadecimal digit.
pub open spec fn hex_digit(n: u8) -> char {
    if n < 10 {
        (48 + n) as char
    } else {
        (87 + n) as char
    }
}

/// Two lowercase hexadecimal digits, high nibble first.
pub open spec fn hex_byte(b: u8) -> Seq<char> {
    seq![hex_digit(b / 16), hex_digit(b % 16)]
}

/// The bytes written as lowercase hexadecimal, two digits per byte.
pub open spec fn hex_lower(bytes: Seq<u8>) -> Seq<char>
    decreases bytes.len(),
{
    if bytes.len() == 0 {
        Seq::empty()
    } else {
        hex_lower(bytes.drop_last()) + hex_byte(bytes.last())
    }
}

/// `hex::encode`: the bytes as lowercase hexadecimal, two digits per byte, high
/// nibble first. The contract states this of the crate's function.
#[verifier::external_body]
pub(crate) fn hex_encode(bytes: &[u8]) -> (s: String)
    ensures
        s@ == hex_lower(bytes@),
{
    hex::encode(bytes)
}

/// A byte as `0x` and two lowercase hexadecimal digits.
pub open spec fn spec_hex_prefixed(b: u8) -> Seq<char> {
    "0x"@ + hex_byte(b)
}

/// Formats a byte as `0x` followed by two lowercase hexadecimal digits.
pub fn hex_prefixed(b: u8) -> (s: String)
    ensures
        s@ == spec_hex_prefixed(b),
{
    let one: [u8; 1] = [b];
    let digits = hex_encode(one.as_slice());
    proof {
        assert(one@ =~= seq![b]);
        assert(one@.drop_last() =~= Seq::<u8>::empty());
        assert(hex_lower(one@.drop_last()) =~= Seq::<char>::empty());
        assert(hex_lower(one@) =~= hex_byte(b));
    }
    let s = String::from_str("0x");
    s.concat(digits.as_str())
}

/// Lowercase hexadecimal: byte `i` becomes the characters `2i` and `2i + 1`,
/// the digits of its high and low nibble taken from `0123456789abcdef`.
pub proof fn lemma_hex_lower_digits(bytes: Seq<u8>)
    ensures
        hex_lower(bytes).len() == 2 * bytes.len(),
        forall|i: int|
            0 <= i < bytes.len() ==> hex_lower(bytes)[2 * i] == "0123456789abcdef"@[#[trigger] bytes[i]
                as int / 16] && hex_lower(bytes)[2 * i + 1] == "0123456789abcdef"@[bytes[i] as int
                % 16],
    decreases bytes.len(),
{
    reveal_strlit("0123456789abcdef");
    let digits = "0123456789abcdef"@;
    assert forall|v: u8| v < 16 implies #[trigger] hex_digit(v) == digits[v as int] by {
        assert(hex_digit(v) as u32 == digits[v as int] as u32);
        lemma_char_code(hex_digit(v), digits[v as int]);
    }
    if bytes.len() > 0 {
        let w = bytes.drop_last();
        lemma_hex_lower_digits(w);
        let h = hex_lower(bytes);
        assert forall|i: int| 0 <= i < bytes.len() implies h[2 * i] == digits[#[trigger] bytes[i] as int
            / 16] && h[2 * i + 1] == digits[bytes[i] as int % 16] by {
            if i < w.len() {
                assert(w[i] == bytes[i]);
            } else {
                let b = bytes.last();
                assert(hex_digit(b / 16) == digits[(b / 16) as int]);
                assert(hex_digit(b % 16) == digits[(b % 16) as int]);
            }
        }
    }
}

proof fn lemma_char_code(a: char, b: char)
    requires
        a as u32 == b as u32,
    ensures
        a == b,
{
}

} // verus!

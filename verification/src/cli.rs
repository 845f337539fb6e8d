use std::time::Duration;

use vstd::prelude::*;
use vstd::relations::{sorted_by, total_ordering};

use crate::ble::{
    notification_height, records_view, spec_record_height, QueryOptions, QueryResult, RecordView,
};
use crate::commands::CommandArg;
use crate::text::str_eq;

verus! {

// ---------------------------------------------------------------------------
// Motion
// ---------------------------------------------------------------------------

/// The motion command for a direction word.
pub open spec fn spec_motion_command_name(direction: Seq<char>) -> Option<Seq<char>> {
    if direction == "up"@ || direction == "drive-up"@ {
        Some("drive-up"@)
    } else if direction == "down"@ || direction == "drive-down"@ {
        Some("drive-down"@)
    } else {
        None
    }
}

/// The motion command for `up`/`drive-up` or `down`/`drive-down`; any other
/// direction is refused.
pub fn motion_command_name(direction: &str) -> (r: Option<&'static str>)
    ensures
        match spec_motion_command_name(direction@) {
            Some(name) => r matches Some(s) && s@ == name,
            None => r is None,
        },
{
    if str_eq(direction, "up") || str_eq(direction, "drive-up") {
        Some("drive-up")
    } else if str_eq(direction, "down") || str_eq(direction, "drive-down") {
        Some("drive-down")
    } else {
        None
    }
}

/// Whether a pulse run has reached its target: moving up, at or above it;
/// moving down, at or below it; never without both heights.
pub open spec fn spec_target_reached(
    motion_name: Seq<char>,
    current: Option<i64>,
    target: Option<i64>,
) -> bool {
    match (current, target) {
        (Some(c), Some(t)) => if motion_name == "drive-up"@ {
            c >= t
        } else if motion_name == "drive-down"@ {
            c <= t
        } else {
            false
        },
        _ => false,
    }
}

pub fn target_reached(motion_name: &str, current_height: Option<i64>, target_height: Option<i64>) -> (r: bool)
    ensures
        r == spec_target_reached(motion_name@, current_height, target_height),
{
    let (current, target) = match (current_height, target_height) {
        (Some(c), Some(t)) => (c, t),
        _ => {
            return false;
        },
    };
    if str_eq(motion_name, "drive-up") {
        current >= target
    } else if str_eq(motion_name, "drive-down") {
        current <= target
    } else {
        false
    }
}

// ---------------------------------------------------------------------------
// Percentiles
// ---------------------------------------------------------------------------

/// The nearest-rank percentile of sorted values: the value at rank
/// `ceil(percentile * n / 100)`, and at least the first.
pub open spec fn spec_percentile(sorted: Seq<u128>, percentile: nat) -> u128 {
    let rank = (percentile * sorted.len() + 99) / 100;
    let rank = if rank < 1 {
        1
    } else {
        rank
    };
    sorted[rank - 1]
}

/// The nearest-rank percentile is the value at the smallest rank `k + 1`
/// (counting from one) whose share `100 * (k + 1)` of the values reaches
/// `percentile * n`; for a zero percentile, the first value.
pub proof fn lemma_percentile_rank(sorted: Seq<u128>, percentile: nat)
    requires
        sorted.len() >= 1,
        percentile <= 100,
    ensures
        exists|k: int|
            0 <= k < sorted.len() && spec_percentile(sorted, percentile) == #[trigger] sorted[k] && (
            k == 0 || 100 * k < percentile * sorted.len()) && percentile * sorted.len() <= 100 * (k
                + 1),
{
    let n = sorted.len();
    let q = (percentile * n + 99) / 100;
    let rank = if q < 1 { 1 } else { q };
    assert(percentile * n <= 100 * n) by (nonlinear_arith)
        requires
            percentile <= 100,
    ;
    assert(rank <= n);
    assert(sorted[rank - 1] == spec_percentile(sorted, percentile));
}

pub fn percentile_nearest_rank(sorted: &[u128], percentile: usize) -> (v: u128)
    requires
        sorted.len() >= 1,
        percentile <= 100,
        percentile * sorted.len() <= usize::MAX,
    ensures
        v == spec_percentile(sorted@, percentile as nat),
{
    let n = sorted.len();
    let product = percentile * n;
    let mut rank = product / 100 + if product % 100 != 0 {
        1
    } else {
        0
    };
    assert(rank == (percentile * n + 99) / 100);
    if rank < 1 {
        rank = 1;
    }
    assert(rank <= n) by (nonlinear_arith)
        requires
            rank == 1 || rank == (percentile * n + 99) / 100,
            percentile <= 100,
            n >= 1,
    ;
    sorted[rank - 1]
}

// ---------------------------------------------------------------------------
// Integers
// ---------------------------------------------------------------------------

/// Why text is not an integer.
#[derive(Debug, Clone, Copy, PartialEq, Eq)]
pub enum IntErrorKind {
    Empty,
    InvalidDigit,
    PosOverflow,
}

/// The value of an ASCII digit in base 10 or 16.
pub open spec fn digit_value(c: char, radix: u32) -> Option<nat> {
    let u = c as u32;
    if 48 <= u <= 57 {
        Some((u - 48) as nat)
    } else if radix == 16 && 97 <= u <= 102 {
        Some((u - 87) as nat)
    } else if radix == 16 && 65 <= u <= 70 {
        Some((u - 55) as nat)
    } else {
        None
    }
}

/// Reading digits left to right on top of `acc`: the first non-digit, or the
/// first digit that takes the value past `u64::MAX`, is an error.
pub open spec fn scan_digits(acc: nat, s: Seq<char>, radix: u32) -> Result<u64, IntErrorKind>
    decreases s.len(),
{
    if s.len() == 0 {
        Ok(acc as u64)
    } else {
        match digit_value(s[0], radix) {
            None => Err(IntErrorKind::InvalidDigit),
            Some(d) => if acc * radix + d > u64::MAX {
                Err(IntErrorKind::PosOverflow)
            } else {
                scan_digits((acc * radix + d) as nat, s.drop_first(), radix)
            },
        }
    }
}

/// An unsigned integer in base 10 or 16, with an optional `+`, as std reads it.
pub open spec fn spec_parse_u64(s: Seq<char>, radix: u32) -> Result<u64, IntErrorKind> {
    if s.len() == 0 {
        Err(IntErrorKind::Empty)
    } else if (s[0] == '+' || s[0] == '-') && s.len() == 1 {
        Err(IntErrorKind::InvalidDigit)
    } else if s[0] == '+' {
        scan_digits(0, s.drop_first(), radix)
    } else {
        scan_digits(0, s, radix)
    }
}

fn char_digit(c: char, radix: u32) -> (r: Option<u64>)
    ensures
        match digit_value(c, radix) {
            Some(d) => r == Some(d as u64),
            None => r is None,
        },
{
    let u = c as u32;
    if 48 <= u && u <= 57 {
        Some((u - 48) as u64)
    } else if radix == 16 && 97 <= u && u <= 102 {
        Some((u - 87) as u64)
    } else if radix == 16 && 65 <= u && u <= 70 {
        Some((u - 55) as u64)
    } else {
        None
    }
}

proof fn lemma_scan_skip(acc: nat, s: Seq<char>, radix: u32, i: int)
    requires
        0 <= i <= s.len(),
        acc <= u64::MAX,
    ensures
        scan_digits(acc, s, radix) == (match scan_prefix(acc, s.take(i), radix) {
            Err(e) => Err(e),
            Ok(v) => scan_digits(v as nat, s.skip(i), radix),
        }),
    decreases i,
{
    if i > 0 {
        assert(s.take(i).drop_first() =~= s.drop_first().take(i - 1));
        assert(s.skip(i) =~= s.drop_first().skip(i - 1));
        match digit_value(s[0], radix) {
            None => {},
            Some(d) => {
                if acc * radix + d <= u64::MAX {
                    lemma_scan_skip((acc * radix + d) as nat, s.drop_first(), radix, i - 1);
                }
            },
        }
    } else {
        assert(s.skip(0) =~= s);
    }
}

proof fn lemma_scan_push(acc: nat, s: Seq<char>, radix: u32, c: char)
    requires
        acc <= u64::MAX,
    ensures
        scan_digits(acc, s.push(c), radix) == (match scan_digits(acc, s, radix) {
            Err(e) => Err(e),
            Ok(v) => match digit_value(c, radix) {
                None => Err(IntErrorKind::InvalidDigit),
                Some(d) => if v * radix + d > u64::MAX {
                    Err(IntErrorKind::PosOverflow)
                } else {
                    Ok((v * radix + d) as u64)
                },
            },
        }),
    decreases s.len(),
{
    if s.len() == 0 {
        let t = s.push(c);
        assert(t.drop_first() =~= Seq::<char>::empty());
        assert(t[0] == c);
        assert(scan_digits(acc, s, radix) == Ok::<u64, IntErrorKind>(acc as u64));
        match digit_value(c, radix) {
            None => {},
            Some(d) => {
                if acc * radix + d <= u64::MAX {
                    assert(scan_digits((acc * radix + d) as nat, t.drop_first(), radix) == Ok::<
                        u64,
                        IntErrorKind,
                    >((acc * radix + d) as u64));
                }
            },
        }
    } else {
        assert(s.push(c).drop_first() =~= s.drop_first().push(c));
        assert(s.push(c)[0] == s[0]);
        match digit_value(s[0], radix) {
            None => {},
            Some(d) => {
                if acc * radix + d <= u64::MAX {
                    lemma_scan_push((acc * radix + d) as nat, s.drop_first(), radix, c);
                }
            },
        }
    }
}

/// Reading an integer digit by digit: the sixteen digits of
/// `0123456789abcdef` (and `ABCDEF`) are worth their position, the letters
/// only in base 16; a single digit reads as its value; and appending a digit
/// to digits that read as `v` reads as `v * radix + digit`, refused as too
/// large past `u64::MAX`. A character that is not a digit is refused.
pub proof fn lemma_parse_u64_digits(s: Seq<char>, c: char, radix: u32, k: int)
    requires
        radix == 10 || radix == 16,
        s.len() > 0,
        s[0] != '+' && s[0] != '-',
    ensures
        0 <= k < 10 ==> digit_value("0123456789abcdef"@[k], radix) == Some(k as nat),
        10 <= k < 16 ==> digit_value("0123456789abcdef"@[k], 16) == Some(k as nat) && digit_value(
            "0123456789ABCDEF"@[k],
            16,
        ) == Some(k as nat) && digit_value("0123456789abcdef"@[k], 10) is None,
        c != '+' && c != '-' ==> spec_parse_u64(seq![c], radix) == (match digit_value(c, radix) {
            Some(d) => Ok::<u64, IntErrorKind>(d as u64),
            None => Err(IntErrorKind::InvalidDigit),
        }),
        spec_parse_u64(s.push(c), radix) == (match spec_parse_u64(s, radix) {
            Err(e) => Err(e),
            Ok(v) => match digit_value(c, radix) {
                None => Err(IntErrorKind::InvalidDigit),
                Some(d) => if v * radix + d > u64::MAX {
                    Err(IntErrorKind::PosOverflow)
                } else {
                    Ok((v * radix + d) as u64)
                },
            },
        }),
{
    reveal_strlit("0123456789abcdef");
    reveal_strlit("0123456789ABCDEF");
    lemma_scan_push(0, s, radix, c);
    assert(s.push(c)[0] == s[0]);
    lemma_scan_push(0, Seq::empty(), radix, c);
    assert(Seq::<char>::empty().push(c) =~= seq![c]);
    assert(seq![c][0] == c);
}

/// Reading a whole prefix of digits.
pub open spec fn scan_prefix(acc: nat, s: Seq<char>, radix: u32) -> Result<u64, IntErrorKind>
    decreases s.len(),
{
    if s.len() == 0 {
        if acc <= u64::MAX {
            Ok(acc as u64)
        } else {
            Err(IntErrorKind::PosOverflow)
        }
    } else {
        match digit_value(s[0], radix) {
            None => Err(IntErrorKind::InvalidDigit),
            Some(d) => if acc * radix + d > u64::MAX {
                Err(IntErrorKind::PosOverflow)
            } else {
                scan_prefix((acc * radix + d) as nat, s.drop_first(), radix)
            },
        }
    }
}

proof fn lemma_scan_prefix_step(acc: nat, s: Seq<char>, radix: u32)
    requires
        acc <= u64::MAX,
        s.len() > 0,
        scan_prefix(acc, s.drop_last(), radix) is Ok,
    ensures
        scan_prefix(acc, s, radix) == (match digit_value(s.last(), radix) {
            None => Err(IntErrorKind::InvalidDigit),
            Some(d) => {
                let v = scan_prefix(acc, s.drop_last(), radix)->Ok_0;
                if v * radix + d > u64::MAX {
                    Err(IntErrorKind::PosOverflow)
                } else {
                    Ok((v * radix + d) as u64)
                }
            },
        }),
    decreases s.len(),
{
    if s.len() == 1 {
        assert(s.drop_last() =~= Seq::<char>::empty());
        assert(s.drop_first() =~= Seq::<char>::empty());
        assert(scan_prefix(acc, s.drop_last(), radix) == Ok::<u64, IntErrorKind>(acc as u64));
        match digit_value(s[0], radix) {
            None => {},
            Some(d) => {
                if acc * radix + d <= u64::MAX {
                    assert(scan_prefix((acc * radix + d) as nat, s.drop_first(), radix)
                        == Ok::<u64, IntErrorKind>((acc * radix + d) as u64));
                }
            },
        }
    } else {
        assert(s.drop_last().drop_first() =~= s.drop_first().drop_last());
        assert(s.drop_last()[0] == s[0]);
        assert(s.drop_first().last() == s.last());
        match digit_value(s[0], radix) {
            None => {},
            Some(d) => {
                if acc * radix + d <= u64::MAX {
                    lemma_scan_prefix_step((acc * radix + d) as nat, s.drop_first(), radix);
                }
            },
        }
    }
}

/// Reads digits in base `radix` (10 or 16) from character `from` of `s` on.
fn scan_digits_exec(s: &str, from: usize, radix: u32) -> (r: Result<u64, IntErrorKind>)
    requires
        from <= s@.len(),
        radix == 10 || radix == 16,
    ensures
        r == scan_digits(0, s@.skip(from as int), radix),
{
    let n = s.unicode_len();
    let ghost body = s@.skip(from as int);
    let mut acc: u64 = 0;
    let mut i: usize = from;
    proof {
        assert(body.take(0) =~= Seq::<char>::empty());
    }
    while i < n
        invariant
            n == s@.len(),
            from <= i <= n,
            radix == 10 || radix == 16,
            body == s@.skip(from as int),
            scan_prefix(0, body.take(i - from), radix) == Ok::<u64, IntErrorKind>(acc),
        decreases n - i,
    {
        let c = s.get_char(i);
        proof {
            let t = body.take(i - from + 1);
            assert(t.drop_last() =~= body.take(i - from));
            assert(t.last() == c);
            lemma_scan_prefix_step(0, t, radix);
        }
        let d = match char_digit(c, radix) {
            Some(d) => d,
            None => {
                proof {
                    lemma_scan_skip(0, body, radix, i - from + 1);
                }
                return Err(IntErrorKind::InvalidDigit);
            },
        };
        let limit: u64 = (u64::MAX - d) / (radix as u64);
        if acc > limit {
            proof {
                assert(acc * radix + d > u64::MAX) by (nonlinear_arith)
                    requires
                        acc > limit,
                        limit == (u64::MAX - d) / (radix as int),
                        radix == 10 || radix == 16,
                        d <= 15,
                ;
                lemma_scan_skip(0, body, radix, i - from + 1);
            }
            return Err(IntErrorKind::PosOverflow);
        }
        assert(acc * radix + d <= u64::MAX) by (nonlinear_arith)
            requires
                acc <= limit,
                limit == (u64::MAX - d) / (radix as int),
                radix == 10 || radix == 16,
                d <= 15,
        ;
        acc = acc * (radix as u64) + d;
        i = i + 1;
    }
    proof {
        assert(body.take(n - from) =~= body);
        lemma_scan_skip(0, body, radix, n - from);
        assert(body.skip(n - from) =~= Seq::<char>::empty());
    }
    Ok(acc)
}

/// Reads an unsigned integer in base 10 or 16, with an optional `+`, as
/// `u64::from_str_radix` does.
pub fn parse_u64(s: &str, radix: u32) -> (r: Result<u64, IntErrorKind>)
    requires
        radix == 10 || radix == 16,
    ensures
        r == spec_parse_u64(s@, radix),
{
    let n = s.unicode_len();
    if n == 0 {
        return Err(IntErrorKind::Empty);
    }
    let first = s.get_char(0);
    if (first == '+' || first == '-') && n == 1 {
        return Err(IntErrorKind::InvalidDigit);
    }
    if first == '+' {
        assert(s@.skip(1) =~= s@.drop_first());
        scan_digits_exec(s, 1, radix)
    } else {
        assert(s@.skip(0) =~= s@);
        scan_digits_exec(s, 0, radix)
    }
}

/// Whether a character is an ASCII decimal digit.
pub open spec fn is_ascii_digit(c: char) -> bool {
    '0' <= c && c <= '9'
}

/// A command-line number: `0x`/`0X` and hex digits, or decimal digits only.
pub open spec fn spec_parse_number(v: Seq<char>) -> Option<u64> {
    let r = if v.len() >= 2 && v[0] == '0' && (v[1] == 'x' || v[1] == 'X') {
        spec_parse_u64(v.skip(2), 16)
    } else if forall|i: int| 0 <= i < v.len() ==> is_ascii_digit(#[trigger] v[i]) {
        spec_parse_u64(v, 10)
    } else {
        Err(IntErrorKind::InvalidDigit)
    };
    match r {
        Ok(n) => Some(n),
        Err(_) => None,
    }
}

fn all_ascii_digits(s: &str) -> (r: bool)
    ensures
        r == forall|i: int| 0 <= i < s@.len() ==> is_ascii_digit(#[trigger] s@[i]),
{
    let n = s.unicode_len();
    let mut i: usize = 0;
    while i < n
        invariant
            n == s@.len(),
            i <= n,
            forall|j: int| 0 <= j < i ==> is_ascii_digit(#[trigger] s@[j]),
        decreases n - i,
    {
        let c = s.get_char(i);
        if !('0' <= c && c <= '9') {
            assert(!is_ascii_digit(s@[i as int]));
            return false;
        }
        i = i + 1;
    }
    true
}

/// Reads a command-line number: `0x`/`0X` followed by hex, or decimal digits.
pub fn parse_number(value: &str) -> (r: Option<u64>)
    ensures
        r == spec_parse_number(value@),
{
    let n = value.unicode_len();
    if n >= 2 && value.get_char(0) == '0' && (value.get_char(1) == 'x' || value.get_char(1)
        == 'X') {
        let rest = value.substring_char(2, n);
        assert(rest@ =~= value@.skip(2));
        match parse_u64(rest, 16) {
            Ok(v) => Some(v),
            Err(_) => None,
        }
    } else if all_ascii_digits(value) {
        match parse_u64(value, 10) {
            Ok(v) => Some(v),
            Err(_) => None,
        }
    } else {
        None
    }
}


// ---------------------------------------------------------------------------
// Hex arguments
// ---------------------------------------------------------------------------

/// Why text is not hex.
#[derive(Debug, Clone, Copy, PartialEq, Eq)]
pub enum HexError {
    InvalidHexCharacter { c: char, index: usize },
    OddLength,
    InvalidStringLength,
}

/// The value of an ASCII hex digit byte, in either case.
pub open spec fn hex_value(b: u8) -> Option<u8> {
    if 65 <= b <= 70 {
        Some((b - 55) as u8)
    } else if 97 <= b <= 102 {
        Some((b - 87) as u8)
    } else if 48 <= b <= 57 {
        Some((b - 48) as u8)
    } else {
        None
    }
}

/// The first position from `i` on that holds no hex digit.
pub open spec fn first_non_hex(b: Seq<u8>, i: nat) -> Option<nat>
    decreases b.len() - i,
{
    if i >= b.len() {
        None
    } else if hex_value(b[i as int]) is None {
        Some(i)
    } else {
        first_non_hex(b, i + 1)
    }
}

/// Hex text decoded to bytes, as the `hex` crate decodes it: an odd length is
/// refused first, then the first byte that is no hex digit.
pub open spec fn spec_hex_decode(b: Seq<u8>) -> Result<Seq<u8>, HexError> {
    if b.len() % 2 != 0 {
        Err(HexError::OddLength)
    } else {
        match first_non_hex(b, 0) {
            Some(i) => Err(HexError::InvalidHexCharacter { c: b[i as int] as char, index: i as usize }),
            None => Ok(
                Seq::new(
                    b.len() / 2,
                    |k: int| (hex_value(b[2 * k])->Some_0 * 16 + hex_value(b[2 * k + 1])->Some_0) as u8,
                ),
            ),
        }
    }
}

/// `hex::decode`: an odd length gives `OddLength`; otherwise the first byte
/// that is no hex digit gives `InvalidHexCharacter` with that byte and its
/// position; otherwise each pair of digits, high digit first, is one byte.
/// The contract states this of the crate's function, whose error is mapped
/// variant by variant.
#[verifier::external_body]
fn hex_decode(data: &[u8]) -> (r: Result<Vec<u8>, HexError>)
    ensures
        match spec_hex_decode(data@) {
            Ok(bytes) => r matches Ok(v) && v@ == bytes,
            Err(e) => r == Err::<Vec<u8>, HexError>(e),
        },
{
    match hex::decode(data) {
        Ok(v) => Ok(v),
        Err(hex::FromHexError::InvalidHexCharacter { c, index }) => Err(
            HexError::InvalidHexCharacter { c, index },
        ),
        Err(hex::FromHexError::OddLength) => Err(HexError::OddLength),
        Err(hex::FromHexError::InvalidStringLength) => Err(HexError::InvalidStringLength),
    }
}

/// Whether a byte is one of the separators allowed inside hex arguments:
/// space, tab, newline, carriage return, `:`, `_`, `-`.
pub open spec fn is_hex_separator(b: u8) -> bool {
    b == 32 || b == 9 || b == 10 || b == 13 || b == 58 || b == 95 || b == 45
}

/// The bytes without separators.
pub open spec fn drop_separators(b: Seq<u8>) -> Seq<u8>
    decreases b.len(),
{
    if b.len() == 0 {
        Seq::empty()
    } else if is_hex_separator(b.last()) {
        drop_separators(b.drop_last())
    } else {
        drop_separators(b.drop_last()).push(b.last())
    }
}

/// The bytes of a hex argument after an optional `hex:` prefix, without separators.
pub open spec fn hex_argument_bytes(value: Seq<char>) -> Seq<u8> {
    let b = vstd::utf8::encode_utf8(value);
    let rest = if b.len() >= 4 && b[0] == 104 && b[1] == 101 && b[2] == 120 && b[3] == 58 {
        b.skip(4)
    } else {
        b
    };
    drop_separators(rest)
}

/// A hex argument decoded.
pub open spec fn spec_parse_hex(value: Seq<char>) -> Result<Seq<u8>, HexError> {
    spec_hex_decode(hex_argument_bytes(value))
}

/// Decodes a hex argument: an optional `hex:` prefix, then hex digits with
/// optional separators (space, tab, newline, carriage return, `:`, `_`, `-`).
pub fn parse_hex(value: &str) -> (r: Result<Vec<u8>, HexError>)
    ensures
        match spec_parse_hex(value@) {
            Ok(bytes) => r matches Ok(v) && v@ == bytes,
            Err(e) => r == Err::<Vec<u8>, HexError>(e),
        },
{
    let b = value.as_bytes();
    let start: usize = if b.len() >= 4 && b[0] == 104 && b[1] == 101 && b[2] == 120 && b[3] == 58 {
        4
    } else {
        0
    };
    let ghost rest = b@.skip(start as int);
    let mut normalized: Vec<u8> = Vec::new();
    let mut i: usize = start;
    proof {
        assert(rest.take(0) =~= Seq::<u8>::empty());
    }
    while i < b.len()
        invariant
            start <= i <= b.len(),
            rest == b@.skip(start as int),
            normalized@ == drop_separators(rest.take(i - start)),
        decreases b.len() - i,
    {
        let byte = b[i];
        proof {
            assert(rest.take(i - start + 1).drop_last() =~= rest.take(i - start));
            assert(rest.take(i - start + 1).last() == byte);
        }
        if !(byte == 32 || byte == 9 || byte == 10 || byte == 13 || byte == 58 || byte == 95
            || byte == 45) {
            normalized.push(byte);
        }
        i = i + 1;
    }
    proof {
        assert(rest.take(b.len() - start) =~= rest);
        if start == 0 {
            assert(b@.skip(0) =~= b@);
        }
    }
    hex_decode(normalized.as_slice())
}

// ---------------------------------------------------------------------------
// Command-line arguments
// ---------------------------------------------------------------------------

/// Whether argument `index` of `count` is read as hex: the last argument of
/// `handset-command` and `ble-gadget-write`, the second of `xcp-command`.
pub open spec fn is_bytes_arg(name: Seq<char>, index: int, count: int) -> bool {
    ((name == "handset-command"@ || name == "ble-gadget-write"@) && index == count - 1) || (name
        == "xcp-command"@ && index == 1)
}

/// One command-line argument read for a command: hex where the command takes
/// bytes, otherwise a number when it reads as one, otherwise text.
pub open spec fn spec_parse_arg(name: Seq<char>, args: Seq<Seq<char>>, index: int) -> Result<
    crate::commands::ArgView,
    HexError,
> {
    if is_bytes_arg(name, index, args.len() as int) {
        match spec_parse_hex(args[index]) {
            Ok(b) => Ok(crate::commands::ArgView::Bytes(b)),
            Err(e) => Err(e),
        }
    } else {
        match spec_parse_number(args[index]) {
            Some(v) => Ok(crate::commands::ArgView::Number(v)),
            None => Ok(crate::commands::ArgView::Text(args[index])),
        }
    }
}

/// The first `k` arguments read in order; the first hex argument that does
/// not decode gives the error.
pub open spec fn spec_parse_args_upto(name: Seq<char>, args: Seq<Seq<char>>, k: nat) -> Result<
    Seq<crate::commands::ArgView>,
    HexError,
>
    decreases k,
{
    if k == 0 {
        Ok(Seq::empty())
    } else {
        match spec_parse_args_upto(name, args, (k - 1) as nat) {
            Err(e) => Err(e),
            Ok(done) => match spec_parse_arg(name, args, k - 1) {
                Err(e) => Err(e),
                Ok(a) => Ok(done.push(a)),
            },
        }
    }
}

proof fn lemma_parse_args_stops(name: Seq<char>, args: Seq<Seq<char>>, k: nat, n: nat)
    requires
        k <= n,
        spec_parse_args_upto(name, args, k) is Err,
    ensures
        spec_parse_args_upto(name, args, n) == spec_parse_args_upto(name, args, k),
    decreases n - k,
{
    if k < n {
        lemma_parse_args_stops(name, args, k, (n - 1) as nat);
    }
}

/// Reads the command-line arguments of a named command.
pub fn parse_command_args(command_name: &str, args: &Vec<String>) -> (r: Result<
    Vec<CommandArg>,
    HexError,
>)
    ensures
        match spec_parse_args_upto(
            command_name@,
            crate::ble::strings_view(args@),
            args@.len(),
        ) {
            Ok(views) => r matches Ok(v) && crate::commands::args_view(v@) == views,
            Err(e) => r == Err::<Vec<CommandArg>, HexError>(e),
        },
{
    let ghost texts = crate::ble::strings_view(args@);
    let handset = str_eq(command_name, "handset-command");
    let gadget = str_eq(command_name, "ble-gadget-write");
    let xcp = str_eq(command_name, "xcp-command");
    let mut out: Vec<CommandArg> = Vec::new();
    let mut index: usize = 0;
    assert(crate::commands::args_view(out@) =~= Seq::<crate::commands::ArgView>::empty());
    while index < args.len()
        invariant
            index <= args.len(),
            texts == crate::ble::strings_view(args@),
            handset == (command_name@ == "handset-command"@),
            gadget == (command_name@ == "ble-gadget-write"@),
            xcp == (command_name@ == "xcp-command"@),
            spec_parse_args_upto(command_name@, texts, index as nat) == Ok::<
                Seq<crate::commands::ArgView>,
                HexError,
            >(crate::commands::args_view(out@)),
        decreases args.len() - index,
    {
        let arg = &args[index];
        assert(texts[index as int] == arg@);
        let bytes_arg = (handset || gadget) && index == args.len() - 1 || xcp && index == 1;
        let parsed = if bytes_arg {
            match parse_hex(arg.as_str()) {
                Ok(b) => CommandArg::Bytes(b),
                Err(e) => {
                    proof {
                        lemma_parse_args_stops(
                            command_name@,
                            texts,
                            (index + 1) as nat,
                            args@.len(),
                        );
                    }
                    return Err(e);
                },
            }
        } else if let Some(value) = parse_number(arg.as_str()) {
            CommandArg::Number(value)
        } else {
            CommandArg::Text(arg.clone())
        };
        let ghost before = out@;
        out.push(parsed);
        proof {
            assert(crate::commands::args_view(out@) =~= crate::commands::args_view(before).push(
                parsed@,
            ));
        }
        index = index + 1;
    }
    Ok(out)
}

// ---------------------------------------------------------------------------
// Query options
// ---------------------------------------------------------------------------

/// What `Duration::from_millis` gives for a count of milliseconds.
pub uninterp spec fn duration_from_millis(ms: u64) -> Duration;

/// `Duration::from_millis`: the duration of `ms` milliseconds; the contract
/// names the result.
#[verifier::external_body]
fn millis(ms: u64) -> (d: Duration)
    ensures
        d == duration_from_millis(ms),
{
    Duration::from_millis(ms)
}

/// Builds the options of a guarded query from command-line values.
pub fn query_options(
    device_name: Option<&str>,
    query: &str,
    args: Vec<CommandArg>,
    characteristic: &str,
    scan_timeout_ms: u64,
    connect_timeout_ms: u64,
    response_window_ms: u64,
    allow_motion: bool,
) -> (o: QueryOptions)
    ensures
        match device_name {
            Some(d) => o.device_name matches Some(s) && s@ == d@,
            None => o.device_name is None,
        },
        o.query@ == query@,
        o.args == args,
        o.characteristic@ == characteristic@,
        o.scan_timeout == duration_from_millis(scan_timeout_ms),
        o.connect_timeout == duration_from_millis(connect_timeout_ms),
        o.response_window == duration_from_millis(response_window_ms),
        o.allow_motion == allow_motion,
{
    QueryOptions {
        device_name: match device_name {
            Some(d) => Some(String::from_str(d)),
            None => None,
        },
        query: String::from_str(query),
        args,
        characteristic: String::from_str(characteristic),
        scan_timeout: millis(scan_timeout_ms),
        connect_timeout: millis(connect_timeout_ms),
        response_window: millis(response_window_ms),
        allow_motion,
    }
}


// ---------------------------------------------------------------------------
// Comma-separated integers
// ---------------------------------------------------------------------------

/// Unicode white space, as `char::is_whitespace` decides it.
pub open spec fn is_white_space(c: char) -> bool {
    let u = c as u32;
    (9 <= u <= 13) || u == 32 || u == 0x85 || u == 0xa0 || u == 0x1680 || (0x2000 <= u
        <= 0x200a) || u == 0x2028 || u == 0x2029 || u == 0x202f || u == 0x205f || u == 0x3000
}

fn white_space(c: char) -> (r: bool)
    ensures
        r == is_white_space(c),
{
    let u = c as u32;
    (9 <= u && u <= 13) || u == 32 || u == 0x85 || u == 0xa0 || u == 0x1680 || (0x2000 <= u
        && u <= 0x200a) || u == 0x2028 || u == 0x2029 || u == 0x202f || u == 0x205f || u
        == 0x3000
}

/// The pieces of the text between commas (one more than there are commas).
pub open spec fn split_commas(s: Seq<char>) -> Seq<Seq<char>>
    decreases s.len(),
{
    if s.len() == 0 {
        seq![Seq::empty()]
    } else {
        let prev = split_commas(s.drop_last());
        if s.last() == ',' {
            prev.push(Seq::empty())
        } else {
            prev.update(prev.len() - 1, prev.last().push(s.last()))
        }
    }
}

/// The text without leading and trailing white space.
pub open spec fn trim(s: Seq<char>) -> Seq<char> {
    let start = first_non_space(s, 0);
    let end = last_non_space_end(s, s.len());
    if start >= end {
        Seq::empty()
    } else {
        s.subrange(start as int, end as int)
    }
}

/// The first position from `i` on that holds no white space (or the length).
pub open spec fn first_non_space(s: Seq<char>, i: nat) -> nat
    decreases s.len() - i,
{
    if i >= s.len() {
        s.len()
    } else if is_white_space(s[i as int]) {
        first_non_space(s, i + 1)
    } else {
        i
    }
}

/// The end of the text up to `j` without its trailing white space.
pub open spec fn last_non_space_end(s: Seq<char>, j: nat) -> nat
    decreases j,
{
    if j == 0 || j > s.len() {
        0
    } else if is_white_space(s[j - 1]) {
        last_non_space_end(s, (j - 1) as nat)
    } else {
        j
    }
}

/// The trimmed pieces that are not empty.
pub open spec fn csv_items(pieces: Seq<Seq<char>>) -> Seq<Seq<char>>
    decreases pieces.len(),
{
    if pieces.len() == 0 {
        Seq::empty()
    } else {
        let prev = csv_items(pieces.drop_last());
        let t = trim(pieces.last());
        if t.len() == 0 {
            prev
        } else {
            prev.push(t)
        }
    }
}

/// Why a list of integers does not read.
#[derive(Debug, Clone)]
pub enum CsvError {
    InvalidInteger { item: String, kind: IntErrorKind },
    NoValues,
}

/// What a list error holds.
pub enum CsvErrorView {
    InvalidInteger { item: Seq<char>, kind: IntErrorKind },
    NoValues,
}

impl View for CsvError {
    type V = CsvErrorView;

    open spec fn view(&self) -> CsvErrorView {
        match self {
            CsvError::InvalidInteger { item, kind } => CsvErrorView::InvalidInteger {
                item: item@,
                kind: *kind,
            },
            CsvError::NoValues => CsvErrorView::NoValues,
        }
    }
}

/// The first `k` items read as decimal integers; the first that does not read
/// gives the error.
pub open spec fn read_items(items: Seq<Seq<char>>, k: nat) -> Result<Seq<u64>, CsvErrorView>
    decreases k,
{
    if k == 0 {
        Ok(Seq::empty())
    } else {
        match read_items(items, (k - 1) as nat) {
            Err(e) => Err(e),
            Ok(done) => match spec_parse_u64(items[k - 1], 10) {
                Err(kind) => Err(CsvErrorView::InvalidInteger { item: items[k - 1], kind }),
                Ok(v) => Ok(done.push(v)),
            },
        }
    }
}

/// A comma-separated list of decimal integers; blank items are skipped, and
/// at least one value is needed.
pub open spec fn spec_parse_csv_u64(s: Seq<char>) -> Result<Seq<u64>, CsvErrorView> {
    let items = csv_items(split_commas(s));
    match read_items(items, items.len()) {
        Err(e) => Err(e),
        Ok(values) => if values.len() == 0 {
            Err(CsvErrorView::NoValues)
        } else {
            Ok(values)
        },
    }
}

fn trim_range(s: &str, start: usize, end: usize) -> (r: (usize, usize))
    requires
        start <= end <= s@.len(),
    ensures
        ({
            let piece = s@.subrange(start as int, end as int);
            let t = trim(piece);
            r.0 <= r.1 <= s@.len() && s@.subrange(r.0 as int, r.1 as int) == t
        }),
{
    let ghost piece = s@.subrange(start as int, end as int);
    let mut a = start;
    while a < end && white_space(s.get_char(a))
        invariant
            start <= a <= end,
            end <= s@.len(),
            piece == s@.subrange(start as int, end as int),
            first_non_space(piece, (a - start) as nat) == first_non_space(piece, 0),
        decreases end - a,
    {
        a = a + 1;
    }
    assert(first_non_space(piece, (a - start) as nat) == (a - start) as nat);
    let mut b = end;
    while b > a && white_space(s.get_char(b - 1))
        invariant
            start <= a <= b <= end,
            end <= s@.len(),
            piece == s@.subrange(start as int, end as int),
            last_non_space_end(piece, (b - start) as nat) == last_non_space_end(piece, piece.len()),
        decreases b - a,
    {
        b = b - 1;
    }
    proof {
        lemma_trim_bounds(piece, (a - start) as nat, (b - start) as nat);
        assert(s@.subrange(a as int, b as int) =~= piece.subrange(a - start, b - start));
    }
    (a, b)
}

proof fn lemma_trim_bounds(piece: Seq<char>, a: nat, b: nat)
    requires
        a <= b <= piece.len(),
        first_non_space(piece, 0) == a,
        a == piece.len() || !is_white_space(piece[a as int]),
        last_non_space_end(piece, b) == last_non_space_end(piece, piece.len()),
        b == a || !is_white_space(piece[b - 1]),
    ensures
        trim(piece) == piece.subrange(a as int, b as int),
{
    if b > a {
        assert(last_non_space_end(piece, b) == b);
    } else {
        lemma_last_end_le(piece, b, a);
        assert(piece.subrange(a as int, b as int) =~= Seq::<char>::empty());
    }
}

proof fn lemma_last_end_le(piece: Seq<char>, j: nat, a: nat)
    requires
        j <= piece.len(),
        j <= a,
    ensures
        last_non_space_end(piece, j) <= a,
    decreases j,
{
    if j > 0 && is_white_space(piece[j - 1]) {
        lemma_last_end_le(piece, (j - 1) as nat, a);
    }
}

proof fn lemma_read_items_stops(items: Seq<Seq<char>>, k: nat, n: nat)
    requires
        k <= n,
        read_items(items, k) is Err,
    ensures
        read_items(items, n) == read_items(items, k),
    decreases n - k,
{
    if k < n {
        lemma_read_items_stops(items, k, (n - 1) as nat);
    }
}

/// The text of character ranges of `s`.
pub open spec fn ranges_view(s: Seq<char>, ranges: Seq<(usize, usize)>) -> Seq<Seq<char>> {
    ranges.map_values(|r: (usize, usize)| s.subrange(r.0 as int, r.1 as int))
}

fn split_ranges(value: &str) -> (ranges: Vec<(usize, usize)>)
    ensures
        ranges_view(value@, ranges@) == split_commas(value@),
        forall|k: int| 0 <= k < ranges@.len() ==> (#[trigger] ranges@[k]).0 <= ranges@[k].1 <= value@.len(),
{
    let n = value.unicode_len();
    let mut ranges: Vec<(usize, usize)> = Vec::new();
    let mut piece_start: usize = 0;
    let mut i: usize = 0;
    proof {
        assert(value@.take(0) =~= Seq::<char>::empty());
        assert(ranges_view(value@, ranges@) =~= Seq::<Seq<char>>::empty());
        assert(value@.subrange(0, 0) =~= Seq::<char>::empty());
        assert(split_commas(Seq::<char>::empty()) =~= seq![Seq::<char>::empty()]);
    }
    while i < n
        invariant
            n == value@.len(),
            piece_start <= i <= n,
            split_commas(value@.take(i as int)) == ranges_view(value@, ranges@).push(
                value@.subrange(piece_start as int, i as int),
            ),
            forall|k: int| 0 <= k < ranges@.len() ==> (#[trigger] ranges@[k]).0 <= ranges@[k].1 <= value@.len(),
        decreases n - i,
    {
        let c = value.get_char(i);
        let ghost before = ranges@;
        proof {
            assert(value@.take(i + 1).drop_last() =~= value@.take(i as int));
            assert(value@.take(i + 1).last() == c);
        }
        if c == ',' {
            ranges.push((piece_start, i));
            piece_start = i + 1;
            proof {
                assert(ranges_view(value@, ranges@) =~= ranges_view(value@, before).push(
                    value@.subrange(ranges@.last().0 as int, i as int),
                ));
                assert(value@.subrange(piece_start as int, i + 1) =~= Seq::<char>::empty());
            }
        } else {
            proof {
                assert(value@.subrange(piece_start as int, i + 1) =~= value@.subrange(
                    piece_start as int,
                    i as int,
                ).push(c));
                let prev = ranges_view(value@, ranges@).push(
                    value@.subrange(piece_start as int, i as int),
                );
                assert(prev.update(prev.len() - 1, prev.last().push(c)) =~= ranges_view(
                    value@,
                    ranges@,
                ).push(value@.subrange(piece_start as int, i + 1)));
            }
        }
        i = i + 1;
    }
    let ghost before = ranges@;
    ranges.push((piece_start, n));
    proof {
        assert(value@.take(n as int) =~= value@);
        assert(ranges_view(value@, ranges@) =~= ranges_view(value@, before).push(
            value@.subrange(piece_start as int, n as int),
        ));
    }
    ranges
}

/// Reads a comma-separated list of decimal integers; blank items are skipped.
pub fn parse_csv_u64(value: &str) -> (r: Result<Vec<u64>, CsvError>)
    ensures
        match spec_parse_csv_u64(value@) {
            Ok(values) => r matches Ok(v) && v@ == values,
            Err(e) => r matches Err(err) && err@ == e,
        },
{
    let ranges = split_ranges(value);
    let ghost pieces = split_commas(value@);
    let mut items: Vec<String> = Vec::new();
    let mut k: usize = 0;
    proof {
        assert(pieces.take(0) =~= Seq::<Seq<char>>::empty());
        assert(crate::ble::strings_view(items@) =~= Seq::<Seq<char>>::empty());
    }
    while k < ranges.len()
        invariant
            k <= ranges.len(),
            pieces == split_commas(value@),
            ranges_view(value@, ranges@) == pieces,
            forall|j: int| 0 <= j < ranges@.len() ==> (#[trigger] ranges@[j]).0 <= ranges@[j].1 <= value@.len(),
            crate::ble::strings_view(items@) == csv_items(pieces.take(k as int)),
        decreases ranges.len() - k,
    {
        let (start, end) = ranges[k];
        proof {
            assert(pieces[k as int] == value@.subrange(start as int, end as int));
            assert(pieces.take(k + 1).drop_last() =~= pieces.take(k as int));
            assert(pieces.take(k + 1).last() == pieces[k as int]);
        }
        let (a, b) = trim_range(value, start, end);
        if a < b {
            let item = String::from_str(value.substring_char(a, b));
            let ghost before = items@;
            items.push(item);
            proof {
                assert(crate::ble::strings_view(items@) =~= crate::ble::strings_view(before).push(
                    item@,
                ));
            }
        } else {
            proof {
                assert(value@.subrange(a as int, b as int).len() == 0);
            }
        }
        k = k + 1;
    }
    proof {
        assert(pieces.take(ranges.len() as int) =~= pieces);
    }
    let ghost all = crate::ble::strings_view(items@);
    let mut values: Vec<u64> = Vec::new();
    let mut j: usize = 0;
    while j < items.len()
        invariant
            j <= items.len(),
            all == crate::ble::strings_view(items@),
            all == csv_items(pieces),
            pieces == split_commas(value@),
            read_items(all, j as nat) == Ok::<Seq<u64>, CsvErrorView>(values@),
        decreases items.len() - j,
    {
        let item = &items[j];
        assert(all[j as int] == item@);
        match parse_u64(item.as_str(), 10) {
            Ok(v) => {
                values.push(v);
            },
            Err(kind) => {
                proof {
                    lemma_read_items_stops(all, (j + 1) as nat, all.len());
                }
                return Err(CsvError::InvalidInteger { item: item.clone(), kind });
            },
        }
        j = j + 1;
    }
    if values.len() == 0 {
        return Err(CsvError::NoValues);
    }
    Ok(values)
}


// ---------------------------------------------------------------------------
// Heights in query results
// ---------------------------------------------------------------------------

/// The height in the first notification that answers a query, if that one
/// reports a height.
pub open spec fn spec_parsed_height(matched: Seq<RecordView>) -> Option<i64> {
    if matched.len() == 0 {
        None
    } else {
        spec_record_height(matched[0])
    }
}

/// The height reported by the first answer to a query.
pub fn parsed_height(result: &QueryResult) -> (h: Option<i64>)
    ensures
        h == spec_parsed_height(records_view(result.matched_notifications@)),
{
    if result.matched_notifications.len() == 0 {
        None
    } else {
        notification_height(&result.matched_notifications[0])
    }
}

/// The height in the last answer that reports one.
pub open spec fn spec_last_reported_height(matched: Seq<RecordView>) -> Option<i64>
    decreases matched.len(),
{
    if matched.len() == 0 {
        None
    } else if spec_record_height(matched.last()) is Some {
        spec_record_height(matched.last())
    } else {
        spec_last_reported_height(matched.drop_last())
    }
}

/// The height in the last answer to a query that reports one; a height read
/// fails without it.
pub fn last_reported_height(result: &QueryResult) -> (h: Option<i64>)
    ensures
        h == spec_last_reported_height(records_view(result.matched_notifications@)),
{
    let ghost all = records_view(result.matched_notifications@);
    let n = result.matched_notifications.len();
    proof {
        assert(all.take(n as int) =~= all);
    }
    let mut j: usize = n;
    while j > 0
        invariant
            j <= n,
            n == result.matched_notifications.len(),
            all == records_view(result.matched_notifications@),
            spec_last_reported_height(all) == spec_last_reported_height(all.take(j as int)),
        decreases j,
    {
        proof {
            assert(all.take(j as int).drop_last() =~= all.take(j - 1));
            assert(all.take(j as int).last() == result.matched_notifications@[j - 1]@);
        }
        let h = notification_height(&result.matched_notifications[j - 1]);
        if h.is_some() {
            return h;
        }
        j = j - 1;
    }
    None
}

// ---------------------------------------------------------------------------
// Latency summaries
// ---------------------------------------------------------------------------

pub open spec fn ascending() -> spec_fn(u128, u128) -> bool {
    |x: u128, y: u128| x <= y
}

/// The values in ascending order.
pub open spec fn sorted_values(values: Seq<u128>) -> Seq<u128> {
    values.sort_by(ascending())
}

/// The sum of the values.
pub open spec fn seq_sum(values: Seq<u128>) -> int
    decreases values.len(),
{
    if values.len() == 0 {
        0
    } else {
        seq_sum(values.drop_last()) + values.last()
    }
}

/// The smallest, median, 90th percentile and largest of a set of latencies,
/// their sum and their number (the mean, a fraction, is the sum over the
/// number).
#[derive(Debug, Clone, Copy, PartialEq, Eq)]
pub struct LatencySummary {
    pub min: u128,
    pub p50: u128,
    pub p90: u128,
    pub max: u128,
    pub sum: u128,
    pub count: usize,
}

proof fn lemma_insert_multiset(s: Seq<u128>, p: int, x: u128)
    requires
        0 <= p <= s.len(),
    ensures
        s.insert(p, x).to_multiset() =~= s.to_multiset().insert(x),
{
    broadcast use vstd::seq_lib::group_to_multiset_ensures;
    broadcast use vstd::multiset::group_multiset_axioms;

    let t = s.insert(p, x);
    assert(t.remove(p) =~= s);
    assert(t[p] == x);
    assert(t.contains(x));
    assert(s.to_multiset() =~= t.to_multiset().remove(x));
}

proof fn lemma_sum_bound(values: Seq<u128>, i: int)
    requires
        0 <= i <= values.len(),
    ensures
        seq_sum(values.take(i)) <= seq_sum(values),
    decreases values.len() - i,
{
    if i < values.len() {
        lemma_sum_bound(values, i + 1);
        assert(values.take(i + 1).drop_last() =~= values.take(i));
    } else {
        assert(values.take(i) =~= values);
    }
}

/// Inserts `x` into sorted `out`, after every element not above it.
fn insert_sorted(out: &mut Vec<u128>, x: u128)
    requires
        sorted_by(old(out)@, ascending()),
    ensures
        sorted_by(final(out)@, ascending()),
        final(out)@.to_multiset() =~= old(out)@.to_multiset().insert(x),
{
    let mut p: usize = 0;
    while p < out.len() && out[p] <= x
        invariant
            p <= out.len(),
            forall|k: int| 0 <= k < p ==> out@[k] <= x,
        decreases out.len() - p,
    {
        p = p + 1;
    }
    let ghost before = out@;
    proof {
        lemma_insert_multiset(before, p as int, x);
    }
    out.insert(p, x);
    proof {
        assert(out@ =~= before.insert(p as int, x));
        assert forall|i: int, j: int| 0 <= i < j < out@.len() implies #[trigger] ascending()(
            out@[i],
            out@[j],
        ) by {
            assert(ascending()(before[0], before[0]) || before.len() == 0);
            if j < p {
                assert(ascending()(before[i], before[j]));
            } else if j == p {
                assert(out@[i] == before[i]);
            } else if i > p {
                assert(ascending()(before[i - 1], before[j - 1]));
            } else if i == p {
                assert(ascending()(before[p as int], before[j - 1]) || j - 1 == p);
            } else {
                assert(ascending()(before[i], before[j - 1]));
            }
        }
    }
}

/// Summarises latencies: none for no values; else the smallest, the
/// nearest-rank median and 90th percentile, the largest, the sum and the
/// count. The four order statistics come out in order.
pub fn latency_summary(values: &Vec<u128>) -> (r: Option<LatencySummary>)
    requires
        seq_sum(values@) <= u128::MAX,
        values.len() * 90 <= usize::MAX,
    ensures
        r is None <==> values.len() == 0,
        r matches Some(s) ==> ({
            let t = sorted_values(values@);
            &&& s.min == t[0]
            &&& s.max == t[t.len() - 1]
            &&& s.p50 == spec_percentile(t, 50)
            &&& s.p90 == spec_percentile(t, 90)
            &&& s.sum == seq_sum(values@)
            &&& s.count == values.len()
            &&& s.min <= s.p50 <= s.p90 <= s.max
        }),
{
    let n = values.len();
    if n == 0 {
        return None;
    }
    let mut sorted: Vec<u128> = Vec::new();
    let mut sum: u128 = 0;
    let mut i: usize = 0;
    assert(sorted@ =~= values@.take(0));
    while i < n
        invariant
            i <= n,
            n == values.len(),
            seq_sum(values@) <= u128::MAX,
            sorted_by(sorted@, ascending()),
            sorted@.to_multiset() =~= values@.take(i as int).to_multiset(),
            sum == seq_sum(values@.take(i as int)),
        decreases n - i,
    {
        proof {
            broadcast use vstd::seq_lib::group_to_multiset_ensures;

            assert(values@.take(i + 1) =~= values@.take(i as int).push(values@[i as int]));
            assert(values@.take(i + 1).drop_last() =~= values@.take(i as int));
            lemma_sum_bound(values@, i + 1);
        }
        insert_sorted(&mut sorted, values[i]);
        sum = sum + values[i];
        i = i + 1;
    }
    proof {
        broadcast use vstd::seq_lib::group_to_multiset_ensures;

        assert(values@.take(n as int) =~= values@);
        values@.lemma_sort_by_ensures(ascending());
        assert(total_ordering(ascending()));
        vstd::seq_lib::lemma_sorted_unique(sorted@, sorted_values(values@), ascending());
        assert(sorted@.to_multiset().len() == values@.to_multiset().len());
        assert(sorted@.len() == n);
    }
    let p50 = percentile_nearest_rank(sorted.as_slice(), 50);
    let p90 = percentile_nearest_rank(sorted.as_slice(), 90);
    proof {
        let t = sorted@;
        let r50 = if (50 * n + 99) / 100 < 1 { 1 } else { (50 * n + 99) / 100 };
        let r90 = if (90 * n + 99) / 100 < 1 { 1 } else { (90 * n + 99) / 100 };
        assert(r50 <= r90) by (nonlinear_arith)
            requires
                r50 == (if (50 * n + 99) / 100 < 1 { 1 } else { (50 * n + 99) / 100 }),
                r90 == (if (90 * n + 99) / 100 < 1 { 1 } else { (90 * n + 99) / 100 }),
        ;
        assert(r90 <= n) by (nonlinear_arith)
            requires
                r90 == (if (90 * n + 99) / 100 < 1 { 1 } else { (90 * n + 99) / 100 }),
                n >= 1,
        ;
        assert(ascending()(t[0], t[r50 - 1]) || r50 == 1);
        assert(ascending()(t[r50 - 1], t[r90 - 1]) || r50 == r90);
        assert(ascending()(t[r90 - 1], t[n - 1]) || r90 == n);
    }
    Some(LatencySummary { min: sorted[0], p50, p90, max: sorted[n - 1], sum, count: n })
}

} // verus!

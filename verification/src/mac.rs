//! MAC-address text parsing, and the declarations that let verified code
//! carry `eui48::MacAddress` and `smallstr::SmallString` values.

use vstd::prelude::*;
use vstd::string::StrSliceExecFns;
use crate::text::{
    hex_digit, separator, is_hex_digit, is_separator, hex_fold, hex_digit_val, lemma_hex_fold_48,
};
use crate::oui::{Oui, octets6_val};

verus! {

/// Errors from the MAC-address text parser. Both variants carry the offending
/// input (after an optional `0x` marker has been stripped) for diagnostics.
#[derive(Debug, Clone, PartialEq, Eq)]
pub enum ParseMacError {
    /// Too many or (without zero-extension) too few hex digits.
    InvalidLength(String),
    /// A character that is neither a hex digit nor one of the separators `-`, `.`, `:`.
    InvalidCharacter(String, char),
}

#[verifier::external_type_specification]
#[verifier::external_body]
pub struct ExMacAddress(eui48::MacAddress);

/// The six octets a `eui48::MacAddress` holds, most significant first.
pub uninterp spec fn mac_octets(m: eui48::MacAddress) -> Seq<u8>;

/// Relies on eui48::MacAddress::new: it stores exactly the six octets it is given.
#[verifier::external_body]
pub fn mac_from_array(b: [u8; 6]) -> (r: eui48::MacAddress)
    ensures
        mac_octets(r) == b@,
{
    eui48::MacAddress::new(b)
}

/// Relies on eui48::MacAddress::to_array: it returns the six stored octets,
/// as the inverse of `new`.
#[verifier::external_body]
pub fn mac_to_array(m: &eui48::MacAddress) -> (r: [u8; 6])
    ensures
        r@ == mac_octets(*m),
{
    m.to_array()
}

/// The twelve-byte inline digit buffer, a `smallstr::SmallString` that keeps
/// its contents on the stack; Verus reads it only through `small_chars` and
/// the wrappers below. (Verus refuses a declaration of the generic
/// `SmallString` type itself.)
#[verifier::external_body]
pub struct DigitBuf {
    inner: smallstr::SmallString<[u8; 12]>,
}

/// The characters held by the digit buffer.
pub uninterp spec fn small_chars(s: DigitBuf) -> Seq<char>;

/// Relies on smallstr::SmallString::new: an empty string.
#[verifier::external_body]
fn ss_new() -> (r: DigitBuf)
    ensures
        small_chars(r) == Seq::<char>::empty(),
{
    DigitBuf { inner: smallstr::SmallString::new() }
}

/// Relies on smallstr::SmallString::len: the length in bytes, which equals the
/// number of characters while every character is a one-byte hex digit.
#[verifier::external_body]
fn ss_len(s: &DigitBuf) -> (r: usize)
    requires
        forall|i: int| 0 <= i < small_chars(*s).len() ==> is_hex_digit(small_chars(*s)[i]),
    ensures
        r == small_chars(*s).len(),
{
    s.inner.len()
}

/// Relies on smallstr::SmallString::push: appends the given character.
#[verifier::external_body]
fn ss_push(s: &mut DigitBuf, c: char)
    ensures
        small_chars(*final(s)) == small_chars(*old(s)).push(c),
{
    s.inner.push(c)
}

/// Relies on smallstr::SmallString::as_str: a view of the held characters.
#[verifier::external_body]
fn ss_as_str(s: &DigitBuf) -> (r: &str)
    ensures
        r@ == small_chars(*s),
{
    s.inner.as_str()
}

/// Relies on u64::from_str_radix with radix 16: on a nonempty string of at
/// most twelve hex digits it returns the digits' base-16 value.
#[verifier::external_body]
fn hex_str_to_u64(s: &str) -> (r: u64)
    requires
        1 <= s@.len() <= 12,
        forall|i: int| 0 <= i < s@.len() ==> is_hex_digit(s@[i]),
    ensures
        r == hex_fold(s@),
{
    u64::from_str_radix(s, 16).expect("hex digits prevalidated")
}

/// The outcome of scanning for hex digits: the digits collected, or the first
/// failure (a thirteenth digit, or a character that is neither digit nor separator).
pub enum ScanResult {
    Digits(Seq<char>),
    TooMany,
    BadChar(char),
}

/// Left-to-right scan: hex digits accumulate (capacity check first), separators
/// are skipped, anything else stops the scan.
pub open spec fn mac_scan(s: Seq<char>, acc: Seq<char>) -> ScanResult
    decreases s.len(),
{
    if s.len() == 0 {
        ScanResult::Digits(acc)
    } else if is_hex_digit(s[0]) {
        if acc.len() + 1 > 12 {
            ScanResult::TooMany
        } else {
            mac_scan(s.subrange(1, s.len() as int), acc.push(s[0]))
        }
    } else if is_separator(s[0]) {
        mac_scan(s.subrange(1, s.len() as int), acc)
    } else {
        ScanResult::BadChar(s[0])
    }
}

/// The input with a leading `0x` marker removed.
pub open spec fn strip_0x(s: Seq<char>) -> Seq<char> {
    if s.len() >= 2 && s[0] == '0' && s[1] == 'x' {
        s.subrange(2, s.len() as int)
    } else {
        s
    }
}

/// Digits right-padded with `'0'` to twelve.
pub open spec fn pad_zeros(d: Seq<char>) -> Seq<char>
    recommends
        d.len() <= 12,
{
    d + Seq::new((12 - d.len()) as nat, |i: int| '0')
}

/// What parsing a MAC-address string yields: its 48-bit value, or which error.
pub enum MacParseSpec {
    Value(int),
    ErrLength,
    ErrChar(char),
}

/// The whole parse, as a function of the input characters: strip `0x`, scan,
/// optionally zero-extend, demand exactly twelve digits, read base-16.
pub open spec fn mac_parse_spec(s: Seq<char>, zero_extend: bool) -> MacParseSpec {
    match mac_scan(strip_0x(s), Seq::empty()) {
        ScanResult::TooMany => MacParseSpec::ErrLength,
        ScanResult::BadChar(c) => MacParseSpec::ErrChar(c),
        ScanResult::Digits(d) => {
            let dd = if zero_extend {
                pad_zeros(d)
            } else {
                d
            };
            if dd.len() < 12 {
                MacParseSpec::ErrLength
            } else {
                MacParseSpec::Value(hex_fold(dd))
            }
        },
    }
}

/// Parse a MAC address written as hex digits with optional `-`, `.` or `:`
/// separators and an optional leading `0x`; exactly 48 bits are required.
pub fn parse_mac_addr(s: &str) -> (r: Result<eui48::MacAddress, ParseMacError>)
    ensures
        match mac_parse_spec(s@, false) {
            MacParseSpec::Value(v) => r matches Ok(m) && mac_octets(m).len() == 6 && octets6_val(
                mac_octets(m),
            ) == v,
            MacParseSpec::ErrLength => r matches Err(ParseMacError::InvalidLength(t)) && t@
                == strip_0x(s@),
            MacParseSpec::ErrChar(c) => r matches Err(ParseMacError::InvalidCharacter(t, c2)) && t@
                == strip_0x(s@) && c2 == c,
        },
{
    parse_mac_addr_extend(s, false)
}

/// Parse a MAC address; with `zero_extend`, fewer than twelve digits are
/// right-padded with zeros, so a bare prefix like `2C:23:3A` becomes a full
/// 48-bit value with trailing zero bits.
pub fn parse_mac_addr_extend(s: &str, zero_extend: bool) -> (r: Result<
    eui48::MacAddress,
    ParseMacError,
>)
    ensures
        match mac_parse_spec(s@, zero_extend) {
            MacParseSpec::Value(v) => r matches Ok(m) && mac_octets(m).len() == 6 && octets6_val(
                mac_octets(m),
            ) == v,
            MacParseSpec::ErrLength => r matches Err(ParseMacError::InvalidLength(t)) && t@
                == strip_0x(s@),
            MacParseSpec::ErrChar(c) => r matches Err(ParseMacError::InvalidCharacter(t, c2)) && t@
                == strip_0x(s@) && c2 == c,
        },
{
    let n = s.unicode_len();
    let start: usize = if n >= 2 && s.get_char(0) == '0' && s.get_char(1) == 'x' {
        2
    } else {
        0
    };
    let ghost t = strip_0x(s@);
    proof {
        assert(t =~= s@.subrange(start as int, n as int));
    }
    let mut buf = ss_new();
    let mut i: usize = start;
    proof {
        assert(t.subrange(0, t.len() as int) =~= t);
    }
    while i < n
        invariant
            start <= i <= n,
            n == s@.len(),
            t == strip_0x(s@),
            t == s@.subrange(start as int, n as int),
            small_chars(buf).len() <= 12,
            forall|k: int| 0 <= k < small_chars(buf).len() ==> is_hex_digit(small_chars(buf)[k]),
            mac_scan(t, Seq::empty()) == mac_scan(
                t.subrange(i - start, t.len() as int),
                small_chars(buf),
            ),
        decreases n - i,
    {
        let c = s.get_char(i);
        let ghost suffix = t.subrange(i - start, t.len() as int);
        proof {
            assert(suffix[0] == t[i - start]);
            assert(t[i - start] == s@[i as int]);
            assert(suffix.subrange(1, suffix.len() as int) =~= t.subrange(
                i + 1 - start,
                t.len() as int,
            ));
        }
        if hex_digit(c) {
            if ss_len(&buf) >= 12 {
                return Err(ParseMacError::InvalidLength(s.substring_char(start, n).to_owned()));
            }
            ss_push(&mut buf, c);
        } else if !separator(c) {
            return Err(
                ParseMacError::InvalidCharacter(s.substring_char(start, n).to_owned(), c),
            );
        }
        i = i + 1;
    }
    proof {
        assert(t.subrange(n - start, t.len() as int) =~= Seq::<char>::empty());
    }
    let ghost digits = small_chars(buf);
    if zero_extend {
        while ss_len(&buf) < 12
            invariant
                digits.len() <= 12,
                small_chars(buf).len() <= 12,
                small_chars(buf).len() >= digits.len(),
                small_chars(buf).subrange(0, digits.len() as int) == digits,
                forall|k: int|
                    digits.len() <= k < small_chars(buf).len() ==> small_chars(buf)[k] == '0',
                forall|k: int|
                    0 <= k < small_chars(buf).len() ==> is_hex_digit(small_chars(buf)[k]),
            decreases 12 - small_chars(buf).len(),
        {
            ss_push(&mut buf, '0');
            proof {
                assert(small_chars(buf).subrange(0, digits.len() as int) =~= digits);
            }
        }
        proof {
            assert(small_chars(buf) =~= pad_zeros(digits));
        }
    }
    if ss_len(&buf) < 12 {
        return Err(ParseMacError::InvalidLength(s.substring_char(start, n).to_owned()));
    }
    let st = ss_as_str(&buf);
    let v = hex_str_to_u64(st);
    proof {
        lemma_hex_fold_48(st@);
    }
    let o = match Oui::from_int(v) {
        Ok(o) => o,
        Err(_) => {
            proof {
                assert(false);
            }
            Oui { address: 0, length: 48 }
        },
    };
    Ok(o.as_mac())
}

/// Whether scanning yields a digit sequence (as opposed to an error).
pub open spec fn scan_is_digits(s: Seq<char>) -> bool {
    mac_scan(strip_0x(s), Seq::empty()) is Digits
}

/// The digit sequence a successful scan yields.
pub open spec fn scanned_digits(s: Seq<char>) -> Seq<char> {
    mac_scan(strip_0x(s), Seq::empty())->Digits_0
}

/// Digit sequences with equal digit values fold to the same number.
pub proof fn lemma_hex_fold_values(d1: Seq<char>, d2: Seq<char>)
    requires
        d1.len() == d2.len(),
        forall|i: int| 0 <= i < d1.len() ==> hex_digit_val(d1[i]) == hex_digit_val(d2[i]),
    ensures
        hex_fold(d1) == hex_fold(d2),
    decreases d1.len(),
{
    if d1.len() > 0 {
        lemma_hex_fold_values(d1.drop_last(), d2.drop_last());
    }
}

/// Parsing is case- and separator-insensitive: two inputs that scan to twelve
/// digits with equal digit values parse to the same 48-bit value, whatever
/// separators or letter case each of them used.
pub proof fn lemma_parse_insensitive(s1: Seq<char>, s2: Seq<char>, zero_extend: bool)
    requires
        scan_is_digits(s1),
        scan_is_digits(s2),
        scanned_digits(s1).len() == 12,
        scanned_digits(s2).len() == 12,
        forall|i: int|
            0 <= i < 12 ==> hex_digit_val(scanned_digits(s1)[i]) == hex_digit_val(
                scanned_digits(s2)[i],
            ),
    ensures
        mac_parse_spec(s1, zero_extend) == mac_parse_spec(s2, zero_extend),
        mac_parse_spec(s1, zero_extend) is Value,
{
    let d1 = scanned_digits(s1);
    let d2 = scanned_digits(s2);
    assert(pad_zeros(d1) =~= d1);
    assert(pad_zeros(d2) =~= d2);
    lemma_hex_fold_values(d1, d2);
}

} // verus!

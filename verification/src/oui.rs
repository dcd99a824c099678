//! The prefix codec: a 48-bit MAC address block as a 64-bit integer plus a
//! significant-bit length, with masking and containment arithmetic.

use vstd::prelude::*;
use vstd::string::StrSliceExecFns;
use crate::mac::{
    mac_from_array, mac_to_array, mac_octets, ParseMacError, parse_mac_addr_extend,
    mac_parse_spec, MacParseSpec, strip_0x,
};
use crate::text::{
    find_char, dec_parse_ok, dec_parse_val, dec_parse_body, parse_u8_dec, lemma_find_char_at,
    lemma_dec_fold_nonneg,
};

verus! {

/// Errors from parsing or constructing a prefix.
#[derive(Debug, Clone, PartialEq, Eq)]
pub enum ParseOuiError {
    /// The MAC portion of the prefix did not parse.
    MacParsing(ParseMacError),
    /// The text after `/` is not a decimal number; carries the whole source string.
    PrefixLengthParsing(String),
    /// The parsed or requested length is out of range; carries the length and a
    /// context string (the source prefix, or the constructor's name).
    PrefixLengthValue(u8, String),
    /// A raw 64-bit value does not fit in 48 bits.
    InvalidIntegerValue(u64),
}

/// The numeric value of six octets read big-endian.
pub open spec fn octets6_val(s: Seq<u8>) -> int
    recommends
        s.len() == 6,
{
    s[0] * 0x100_0000_0000 + s[1] * 0x1_0000_0000 + s[2] * 0x100_0000 + s[3] * 0x1_0000 + s[4]
        * 0x100 + s[5]
}

/// The bit mask selecting the `len` most significant bits of a 48-bit value.
pub open spec fn mask_of(len: u8) -> u64
    recommends
        len <= 48,
{
    ((((1u64 << (len as u64)) - 1) as u64) << ((48 - len) as u64)) as u64
}

/// An address-block prefix: a 48-bit MAC value left-justified into the low 48
/// bits of `address`, of which the `length` most significant bits are meaningful.
#[derive(Debug, Clone, Copy, PartialEq, Eq, Structural)]
pub struct Oui {
    pub address: u64,
    pub length: u8,
}

impl Oui {
    /// The type's invariant: no bits above the low 48, and a length of at most 48.
    pub open spec fn wf(self) -> bool {
        self.address <= 0xFFFF_FFFF_FFFF && self.length <= 48
    }

    /// Containment: `self` covers every address whose `self.length` leading bits
    /// agree with `self.address`, provided `self` is no longer than `other`.
    pub open spec fn spec_contains(self, other: Oui) -> bool {
        self.length <= other.length && (other.address & mask_of(self.length)) == self.address
    }

    /// The mask selecting this prefix's significant bits.
    pub fn mask(&self) -> (r: u64)
        requires
            self.wf(),
        ensures
            r == mask_of(self.length),
    {
        proof {
            let l = self.length as u64;
            assert(1u64 << l >= 1) by (bit_vector)
                requires
                    l <= 48,
            ;
        }
        ((1u64 << (self.length as u64)) - 1) << ((48 - self.length) as u64)
    }

    /// The number of significant leading bits.
    pub fn length(&self) -> (r: u8)
        ensures
            r == self.length,
    {
        self.length
    }

    /// The same block base with a new length, rejected above 48 bits.
    pub fn with_length(&self, len: u8) -> (r: Result<Oui, ParseOuiError>)
        ensures
            len <= 48 ==> r == Ok::<Oui, ParseOuiError>(Oui { address: self.address, length: len }),
            len > 48 ==> (r matches Err(ParseOuiError::PrefixLengthValue(l, c)) && l == len
                && c@ == "Oui::set_length"@),
    {
        if len > 48 {
            return Err(ParseOuiError::PrefixLengthValue(len, "Oui::set_length".to_owned()));
        }
        Ok(Oui { address: self.address, length: len })
    }

    /// Whether `self` contains `other`'s whole address block.
    pub fn contains(&self, other: &Oui) -> (r: bool)
        requires
            self.wf(),
            other.wf(),
        ensures
            r == self.spec_contains(*other),
    {
        if self.length > other.length {
            return false;
        }
        (other.address & self.mask()) == self.address
    }

    /// A full 48-bit prefix from six octets, most significant first.
    pub fn from_array(mac: [u8; 6]) -> (r: Oui)
        ensures
            r.wf(),
            r.length == 48,
            r.address == octets6_val(mac@),
    {
        let a0 = mac[0] as u64;
        let a1 = mac[1] as u64;
        let a2 = mac[2] as u64;
        let a3 = mac[3] as u64;
        let a4 = mac[4] as u64;
        let a5 = mac[5] as u64;
        let address = a0 * 0x100_0000_0000 + a1 * 0x1_0000_0000 + a2 * 0x100_0000 + a3 * 0x1_0000
            + a4 * 0x100 + a5;
        Oui { address, length: 48 }
    }

    /// A full 48-bit prefix holding the given MAC address's value.
    pub fn from_addr(mac: eui48::MacAddress) -> (r: Oui)
        ensures
            r.wf(),
            r.length == 48,
            r.address == octets6_val(mac_octets(mac)),
    {
        let b = mac_to_array(&mac);
        Oui::from_array(b)
    }

    /// The MAC address at this prefix's base.
    pub fn as_mac(self) -> (r: eui48::MacAddress)
        requires
            self.wf(),
        ensures
            mac_octets(r).len() == 6,
            octets6_val(mac_octets(r)) == self.address,
    {
        let a = self.address;
        let b5 = (a % 0x100) as u8;
        let a4 = a / 0x100;
        let b4 = (a4 % 0x100) as u8;
        let a3 = a4 / 0x100;
        let b3 = (a3 % 0x100) as u8;
        let a2 = a3 / 0x100;
        let b2 = (a2 % 0x100) as u8;
        let a1 = a2 / 0x100;
        let b1 = (a1 % 0x100) as u8;
        let a0 = a1 / 0x100;
        let b0 = (a0 % 0x100) as u8;
        let arr = [b0, b1, b2, b3, b4, b5];
        assert(octets6_val(arr@) == self.address);
        mac_from_array(arr)
    }

    /// The 48-bit address value, in the least significant bits.
    pub fn as_int(&self) -> (r: u64)
        ensures
            r == self.address,
    {
        self.address
    }

    /// A full 48-bit prefix from a raw integer, rejected above the 48-bit range.
    pub fn from_int(address: u64) -> (r: Result<Oui, ParseOuiError>)
        ensures
            address <= 0xFFFF_FFFF_FFFF ==> r == Ok::<Oui, ParseOuiError>(Oui { address, length: 48 }),
            address > 0xFFFF_FFFF_FFFF ==> r == Err::<Oui, ParseOuiError>(ParseOuiError::InvalidIntegerValue(address)),
    {
        if address > 0xFFFF_FFFF_FFFF {
            return Err(ParseOuiError::InvalidIntegerValue(address));
        }
        Ok(Oui { address, length: 48 })
    }

    /// Parse `"<mac>"` or `"<mac>/<length>"` into a prefix: the length (24
    /// when absent) must be a decimal number in `[24, 48]`, and the MAC
    /// portion is parsed with zero-extension so a bare `2C:23:3A` is a `/24`.
    pub fn from_str(s: &str) -> (r: Result<Oui, ParseOuiError>)
        ensures
            oui_parse_spec(s@) matches OuiParseSpec::Value(o) ==> r == Ok::<Oui, ParseOuiError>(o)
                && o.wf() && 24 <= o.length <= 48,
            !(oui_parse_spec(s@) is Value) ==> (r matches Err(err) && oui_err_matches(
                oui_parse_spec(s@),
                err,
                s@,
            )),
    {
        let n = s.unicode_len();
        let mut i: usize = 0;
        let mut slash_opt: Option<usize> = None;
        while i < n
            invariant
                0 <= i <= n,
                n == s@.len(),
                slash_opt is None ==> forall|k: int| 0 <= k < i ==> s@[k] != '/',
                slash_opt matches Some(j) ==> 0 <= j < i && s@[j as int] == '/' && forall|k: int|
                    0 <= k < j ==> s@[k] != '/',
            decreases n - i,
        {
            if slash_opt.is_none() && s.get_char(i) == '/' {
                slash_opt = Some(i);
            }
            i = i + 1;
        }
        proof {
            match slash_opt {
                Some(j) => lemma_find_char_at(s@, '/', j as int),
                None => lemma_find_char_at(s@, '/', n as int),
            }
        }
        let (mac_str, length): (&str, u8) = match slash_opt {
            None => (s, 24u8),
            Some(j) => {
                let len_str = s.substring_char(j + 1, n);
                proof {
                    assert(len_str@ =~= oui_len_part(s@));
                }
                match parse_u8_dec(len_str) {
                    None => {
                        return Err(ParseOuiError::PrefixLengthParsing(s.to_owned()));
                    },
                    Some(l) => {
                        proof {
                            lemma_dec_fold_nonneg(dec_parse_body(len_str@));
                        }
                        (s.substring_char(0, j), l)
                    },
                }
            },
        };
        proof {
            assert(mac_str@ =~= oui_mac_part(s@));
        }
        if length < 24 || length > 48 {
            return Err(ParseOuiError::PrefixLengthValue(length, s.to_owned()));
        }
        match parse_mac_addr_extend(mac_str, true) {
            Err(e) => Err(ParseOuiError::MacParsing(e)),
            Ok(m) => {
                let base = Oui::from_addr(m);
                Ok(Oui { address: base.address, length })
            },
        }
    }
}

/// The text before the first `/`, or the whole string when there is none.
pub open spec fn oui_mac_part(s: Seq<char>) -> Seq<char> {
    match find_char(s, '/') {
        Some(j) => s.subrange(0, j as int),
        None => s,
    }
}

/// The text after the first `/`; empty when there is none.
pub open spec fn oui_len_part(s: Seq<char>) -> Seq<char> {
    match find_char(s, '/') {
        Some(j) => s.subrange(j as int + 1, s.len() as int),
        None => Seq::empty(),
    }
}

/// What parsing a prefix string yields: first the length after `/` (24 when
/// absent) must be a decimal number, then it must lie in `[24, 48]`, then the
/// MAC portion is parsed with zero-extension.
pub enum OuiParseSpec {
    Value(Oui),
    MacErrLength,
    MacErrChar(char),
    LenParseErr,
    LenValueErr(u8),
}

/// Which error value a failed prefix parse of source text `src` must carry.
pub open spec fn oui_err_matches(e: OuiParseSpec, err: ParseOuiError, src: Seq<char>) -> bool {
    match e {
        OuiParseSpec::Value(_) => false,
        OuiParseSpec::LenParseErr => err matches ParseOuiError::PrefixLengthParsing(t) && t@
            == src,
        OuiParseSpec::LenValueErr(l) => err matches ParseOuiError::PrefixLengthValue(l2, t) && l2
            == l && t@ == src,
        OuiParseSpec::MacErrLength => err matches ParseOuiError::MacParsing(
            ParseMacError::InvalidLength(t),
        ) && t@ == strip_0x(oui_mac_part(src)),
        OuiParseSpec::MacErrChar(c) => err matches ParseOuiError::MacParsing(
            ParseMacError::InvalidCharacter(t, c2),
        ) && t@ == strip_0x(oui_mac_part(src)) && c2 == c,
    }
}

pub open spec fn oui_parse_spec(s: Seq<char>) -> OuiParseSpec {
    let has_len = find_char(s, '/') is Some;
    if has_len && !dec_parse_ok(oui_len_part(s)) {
        OuiParseSpec::LenParseErr
    } else {
        let length = if has_len {
            dec_parse_val(oui_len_part(s))
        } else {
            24
        };
        if !(24 <= length && length <= 48) {
            OuiParseSpec::LenValueErr(length as u8)
        } else {
            match mac_parse_spec(oui_mac_part(s), true) {
                MacParseSpec::Value(v) => OuiParseSpec::Value(
                    Oui { address: v as u64, length: length as u8 },
                ),
                MacParseSpec::ErrLength => OuiParseSpec::MacErrLength,
                MacParseSpec::ErrChar(c) => OuiParseSpec::MacErrChar(c),
            }
        }
    }
}

impl core::str::FromStr for Oui {
    type Err = ParseOuiError;

    fn from_str(s: &str) -> Result<Oui, ParseOuiError> {
        Oui::from_str(s)
    }
}

/// A shorter prefix that covers a longer one's base covers the longer one's
/// whole address space: any address the longer prefix contains, the shorter
/// prefix contains as well.
pub proof fn lemma_shorter_prefix_contains(p1: Oui, p2: Oui, x: u64)
    requires
        p1.wf(),
        p2.wf(),
        p1.length < p2.length,
        p2.address & mask_of(p1.length) == p1.address,
        x & mask_of(p2.length) == p2.address,
    ensures
        x & mask_of(p1.length) == p1.address,
{
    let l1 = p1.length as u64;
    let l2 = p2.length as u64;
    let a1 = p1.address;
    let a2 = p2.address;
    assert(x & ((((1u64 << l1) - 1) as u64) << ((48 - l1) as u64)) == a1) by (bit_vector)
        requires
            l1 < l2,
            l2 <= 48,
            a2 & ((((1u64 << l1) - 1) as u64) << ((48 - l1) as u64)) == a1,
            x & ((((1u64 << l2) - 1) as u64) << ((48 - l2) as u64)) == a2,
    ;
}

/// The mask of a length-`len` prefix has exactly its `len` leading bits set
/// within the 48-bit address space: bit `k` is set iff `48 - len <= k < 48`.
pub proof fn lemma_mask_bits(len: u8, k: u64)
    requires
        len <= 48,
        k < 64,
    ensures
        48 - len <= k < 48 ==> (mask_of(len) >> k) & 1 == 1,
        !(48 - len <= k < 48) ==> (mask_of(len) >> k) & 1 == 0,
{
    let l = len as u64;
    assert((48 - l <= k < 48 ==> (((((1u64 << l) - 1) as u64) << ((48 - l) as u64)) >> k) & 1
        == 1) && (!(48 - l <= k < 48) ==> (((((1u64 << l) - 1) as u64) << ((48 - l) as u64)) >> k)
        & 1 == 0)) by (bit_vector)
        requires
            l <= 48,
            k < 64,
    ;
}

} // verus!

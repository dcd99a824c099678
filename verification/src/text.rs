//! Verified text utilities: character classes, hex and decimal digit folds,
//! trimming by a character class, and splitting on a separator character.
//!
//! Every executable function here is proved equal to a spec-level function on
//! the string's character sequence; the record and prefix parsers state their
//! contracts in terms of these spec functions.

use vstd::prelude::*;
use vstd::string::StrSliceExecFns;

verus! {

/// A hexadecimal digit, either case.
pub open spec fn is_hex_digit(c: char) -> bool {
    (48 <= c as u32 && c as u32 <= 57)  // '0'..='9'
    || (97 <= c as u32 && c as u32 <= 102)  // 'a'..='f'
    || (65 <= c as u32 && c as u32 <= 70)  // 'A'..='F'
}

/// The value of a hex digit; 0 for any other character, so the fold below is total.
pub open spec fn hex_digit_val(c: char) -> int {
    if 48 <= c as u32 && c as u32 <= 57 {
        c as u32 - 48
    } else if 97 <= c as u32 && c as u32 <= 102 {
        c as u32 - 87
    } else if 65 <= c as u32 && c as u32 <= 70 {
        c as u32 - 55
    } else {
        0
    }
}

/// A decimal digit.
pub open spec fn is_dec_digit(c: char) -> bool {
    48 <= c as u32 && c as u32 <= 57
}

/// The separators accepted inside a written MAC address.
pub open spec fn is_separator(c: char) -> bool {
    c == '-' || c == '.' || c == ':'
}

/// The whitespace this library trims: the ASCII whitespace characters.
pub open spec fn is_space(c: char) -> bool {
    c == ' ' || c == '\t' || c == '\r' || c == '\n' || c as u32 == 11 || c as u32 == 12
}

pub fn hex_digit(c: char) -> (r: bool)
    ensures
        r == is_hex_digit(c),
{
    let u = c as u32;
    (48 <= u && u <= 57) || (97 <= u && u <= 102) || (65 <= u && u <= 70)
}

pub fn dec_digit(c: char) -> (r: bool)
    ensures
        r == is_dec_digit(c),
{
    let u = c as u32;
    48 <= u && u <= 57
}

pub fn separator(c: char) -> (r: bool)
    ensures
        r == is_separator(c),
{
    c == '-' || c == '.' || c == ':'
}

pub fn space(c: char) -> (r: bool)
    ensures
        r == is_space(c),
{
    let u = c as u32;
    c == ' ' || c == '\t' || c == '\r' || c == '\n' || u == 11 || u == 12
}

/// The base-16 value of a digit string, most significant digit first.
pub open spec fn hex_fold(s: Seq<char>) -> int
    decreases s.len(),
{
    if s.len() == 0 {
        0
    } else {
        hex_fold(s.drop_last()) * 16 + hex_digit_val(s.last())
    }
}

/// The base-10 value of a digit string, most significant digit first.
pub open spec fn dec_fold(s: Seq<char>) -> int
    decreases s.len(),
{
    if s.len() == 0 {
        0
    } else {
        dec_fold(s.drop_last()) * 10 + (if is_dec_digit(s.last()) {
            c_dec_val(s.last())
        } else {
            0
        })
    }
}

pub open spec fn c_dec_val(c: char) -> int {
    c as u32 - 48
}

pub open spec fn pow16(n: nat) -> int
    decreases n,
{
    if n == 0 {
        1
    } else {
        16 * pow16((n - 1) as nat)
    }
}

/// A hex fold is nonnegative and below 16^length.
pub proof fn lemma_hex_fold_bound(s: Seq<char>)
    ensures
        0 <= hex_fold(s) < pow16(s.len()),
    decreases s.len(),
{
    if s.len() > 0 {
        lemma_hex_fold_bound(s.drop_last());
    }
}

/// Twelve hex digits fit in 48 bits.
pub proof fn lemma_hex_fold_48(s: Seq<char>)
    requires
        s.len() == 12,
    ensures
        0 <= hex_fold(s) <= 0xFFFF_FFFF_FFFF,
{
    lemma_hex_fold_bound(s);
    assert(pow16(0) == 1);
    assert(pow16(1) == 16);
    assert(pow16(2) == 0x100);
    assert(pow16(3) == 0x1000);
    assert(pow16(4) == 0x10000);
    assert(pow16(5) == 0x100000);
    assert(pow16(6) == 0x1000000);
    assert(pow16(7) == 0x10000000);
    assert(pow16(8) == 0x100000000);
    assert(pow16(9) == 0x1000000000);
    assert(pow16(10) == 0x10000000000);
    assert(pow16(11) == 0x100000000000);
    assert(pow16(12) == 0x1000000000000);
}

pub proof fn lemma_dec_fold_nonneg(s: Seq<char>)
    ensures
        dec_fold(s) >= 0,
    decreases s.len(),
{
    if s.len() > 0 {
        lemma_dec_fold_nonneg(s.drop_last());
    }
}

/// Trimming: the maximal subrange with no character satisfying `p` at either end.
pub open spec fn trim_pred(s: Seq<char>, p: spec_fn(char) -> bool) -> Seq<char>
    decreases s.len(),
{
    if s.len() > 0 && p(s[0]) {
        trim_pred(s.subrange(1, s.len() as int), p)
    } else if s.len() > 0 && p(s[s.len() - 1]) {
        trim_pred(s.subrange(0, s.len() - 1), p)
    } else {
        s
    }
}

pub open spec fn trim_ws(s: Seq<char>) -> Seq<char> {
    trim_pred(s, |c: char| is_space(c))
}

pub open spec fn trim_hash(s: Seq<char>) -> Seq<char> {
    trim_pred(s, |c: char| c == '#')
}

/// A subrange whose complement satisfies `p` and whose ends do not is the trim.
pub proof fn lemma_trim_pred_subrange(s: Seq<char>, p: spec_fn(char) -> bool, lo: int, hi: int)
    requires
        0 <= lo <= hi <= s.len(),
        forall|k: int| 0 <= k < lo ==> p(s[k]),
        forall|k: int| hi <= k < s.len() ==> p(s[k]),
        lo < hi ==> !p(s[lo]) && !p(s[hi - 1]),
    ensures
        trim_pred(s, p) == s.subrange(lo, hi),
    decreases s.len(),
{
    if s.len() == 0 {
        assert(trim_pred(s, p) =~= s.subrange(lo, hi));
    } else if p(s[0]) {
        // the first character is stripped; lo > 0 or the range is empty at 0
        let t = s.subrange(1, s.len() as int);
        if lo > 0 {
            lemma_trim_pred_subrange(t, p, lo - 1, hi - 1);
            assert(t.subrange(lo - 1, hi - 1) =~= s.subrange(lo, hi));
        } else {
            // lo == 0, so hi == 0 (else !p(s[lo]) fails): everything satisfies p
            lemma_trim_pred_subrange(t, p, 0, 0);
            assert(t.subrange(0, 0) =~= s.subrange(lo, hi));
        }
    } else if p(s[s.len() - 1]) {
        let t = s.subrange(0, s.len() - 1);
        // hi < len here: hi == len would put p(s[hi - 1]) against the bounds
        assert(hi < s.len()) by {
            if hi == s.len() {
                assert(lo < hi);
                assert(!p(s[hi - 1]));
            }
        }
        lemma_trim_pred_subrange(t, p, lo, hi);
        assert(t.subrange(lo, hi) =~= s.subrange(lo, hi));
    } else {
        // neither end is stripped, so the subrange must be the whole sequence
        assert(lo == 0) by {
            if lo > 0 {
                assert(p(s[0]));
            }
        }
        assert(hi == s.len()) by {
            if hi < s.len() {
                assert(p(s[s.len() - 1]));
            }
        }
        assert(s.subrange(lo, hi) =~= s);
    }
}

/// Trim ASCII whitespace from both ends.
pub fn trim_space(s: &str) -> (r: &str)
    ensures
        r@ == trim_ws(s@),
{
    let n = s.unicode_len();
    let mut lo: usize = 0;
    while lo < n && space(s.get_char(lo))
        invariant
            0 <= lo <= n,
            n == s@.len(),
            forall|k: int| 0 <= k < lo ==> is_space(s@[k]),
        decreases n - lo,
    {
        lo = lo + 1;
    }
    let mut hi: usize = n;
    while hi > lo && space(s.get_char(hi - 1))
        invariant
            lo <= hi <= n,
            n == s@.len(),
            forall|k: int| hi <= k < n ==> is_space(s@[k]),
        decreases hi,
    {
        hi = hi - 1;
    }
    proof {
        lemma_trim_pred_subrange(s@, |c: char| is_space(c), lo as int, hi as int);
    }
    s.substring_char(lo, hi)
}

/// Trim `#` characters from both ends.
pub fn trim_hashes(s: &str) -> (r: &str)
    ensures
        r@ == trim_hash(s@),
{
    let n = s.unicode_len();
    let mut lo: usize = 0;
    while lo < n && s.get_char(lo) == '#'
        invariant
            0 <= lo <= n,
            n == s@.len(),
            forall|k: int| 0 <= k < lo ==> s@[k] == '#',
        decreases n - lo,
    {
        lo = lo + 1;
    }
    let mut hi: usize = n;
    while hi > lo && s.get_char(hi - 1) == '#'
        invariant
            lo <= hi <= n,
            n == s@.len(),
            forall|k: int| hi <= k < n ==> s@[k] == '#',
        decreases hi,
    {
        hi = hi - 1;
    }
    proof {
        lemma_trim_pred_subrange(s@, |c: char| c == '#', lo as int, hi as int);
    }
    s.substring_char(lo, hi)
}

/// The index of the first occurrence of `c`, if any.
pub open spec fn find_char(s: Seq<char>, c: char) -> Option<nat>
    decreases s.len(),
{
    if s.len() == 0 {
        None
    } else if s[0] == c {
        Some(0)
    } else {
        match find_char(s.subrange(1, s.len() as int), c) {
            None => None,
            Some(i) => Some(i + 1),
        }
    }
}

/// `find_char` returns exactly the first occurrence.
pub proof fn lemma_find_char_at(s: Seq<char>, c: char, i: int)
    requires
        0 <= i <= s.len(),
        forall|j: int| 0 <= j < i ==> s[j] != c,
        i < s.len() ==> s[i] == c,
    ensures
        i < s.len() ==> find_char(s, c) == Some(i as nat),
        i == s.len() ==> find_char(s, c) is None,
    decreases s.len(),
{
    if s.len() > 0 && s[0] != c {
        let t = s.subrange(1, s.len() as int);
        lemma_find_char_at(t, c, i - 1);
    }
}

/// Splitting on a separator, keeping empty segments; one more segment than
/// there are separators, as `str::split` produces.
pub open spec fn split_char(s: Seq<char>, c: char) -> Seq<Seq<char>>
    decreases s.len(),
{
    if find_char(s, c) is Some && find_char(s, c)->0 < s.len() {
        let i = find_char(s, c)->0 as int;
        seq![s.subrange(0, i)] + split_char(s.subrange(i + 1, s.len() as int), c)
    } else {
        seq![s]
    }
}

/// Split a string on a separator character.
pub fn split_str<'a>(s: &'a str, c: char) -> (r: Vec<&'a str>)
    ensures
        r@.map_values(|t: &str| t@) == split_char(s@, c),
{
    let n = s.unicode_len();
    let mut r: Vec<&'a str> = Vec::new();
    let mut start: usize = 0;
    let mut i: usize = 0;
    proof {
        assert(s@.subrange(0, n as int) =~= s@);
        assert(r@.map_values(|t: &str| t@) =~= Seq::<Seq<char>>::empty());
        assert(split_char(s@, c) =~= r@.map_values(|t: &str| t@) + split_char(
            s@.subrange(0, n as int),
            c,
        ));
    }
    while i < n
        invariant
            0 <= start <= i <= n,
            n == s@.len(),
            forall|k: int| start <= k < i ==> s@[k] != c,
            split_char(s@, c) == r@.map_values(|t: &str| t@) + split_char(
                s@.subrange(start as int, n as int),
                c,
            ),
        decreases n - i,
    {
        if s.get_char(i) == c {
            let seg = s.substring_char(start, i);
            proof {
                let rest = s@.subrange(start as int, n as int);
                lemma_find_char_at(rest, c, i - start);
                assert(rest.subrange(0, i - start) =~= s@.subrange(start as int, i as int));
                assert(rest.subrange(i - start + 1, rest.len() as int) =~= s@.subrange(
                    i + 1,
                    n as int,
                ));
                assert((r@.push(seg)).map_values(|t: &str| t@) =~= r@.map_values(|t: &str| t@)
                    + seq![seg@]);
            }
            r.push(seg);
            start = i + 1;
        }
        i = i + 1;
    }
    let seg = s.substring_char(start, n);
    proof {
        let rest = s@.subrange(start as int, n as int);
        lemma_find_char_at(rest, c, rest.len() as int);
        assert(split_char(rest, c) =~= seq![rest]);
        assert((r@.push(seg)).map_values(|t: &str| t@) =~= r@.map_values(|t: &str| t@)
            + seq![seg@]);
    }
    r.push(seg);
    r
}

/// Whether a decimal-number parse of `s` succeeds as `u8::from_str` would have
/// it: an optional leading `+`, then at least one digit, value at most 255.
pub open spec fn dec_parse_body(s: Seq<char>) -> Seq<char> {
    if s.len() > 0 && s[0] == '+' {
        s.subrange(1, s.len() as int)
    } else {
        s
    }
}

pub open spec fn dec_parse_ok(s: Seq<char>) -> bool {
    let t = dec_parse_body(s);
    t.len() > 0 && (forall|i: int| 0 <= i < t.len() ==> is_dec_digit(t[i])) && dec_fold(t) <= 255
}

pub open spec fn dec_parse_val(s: Seq<char>) -> int {
    dec_fold(dec_parse_body(s))
}

/// Parse a decimal `u8`, accepting what `u8::from_str` accepts.
pub fn parse_u8_dec(s: &str) -> (r: Option<u8>)
    ensures
        dec_parse_ok(s@) ==> r == Some(dec_parse_val(s@) as u8),
        !dec_parse_ok(s@) ==> r is None,
{
    let n = s.unicode_len();
    let start: usize = if n > 0 && s.get_char(0) == '+' {
        1
    } else {
        0
    };
    let ghost t = dec_parse_body(s@);
    proof {
        assert(t =~= s@.subrange(start as int, n as int));
    }
    if n == start {
        return None;
    }
    let mut acc: u64 = 0;
    let mut big = false;
    let mut i: usize = start;
    while i < n
        invariant
            start <= i <= n,
            n == s@.len(),
            t == dec_parse_body(s@),
            t == s@.subrange(start as int, n as int),
            forall|k: int| start <= k < i ==> is_dec_digit(s@[k]),
            !big ==> acc == dec_fold(t.subrange(0, i - start)) && acc <= 255,
            big ==> dec_fold(t.subrange(0, i - start)) > 255,
        decreases n - i,
    {
        let c = s.get_char(i);
        if !dec_digit(c) {
            proof {
                let w = i - start;
                assert(0 <= w < t.len());
                assert(t[w] == s@[i as int]);
                assert(!is_dec_digit(t[w]));
                assert(!is_dec_digit(dec_parse_body(s@)[w]));
                assert(0 <= w < dec_parse_body(s@).len());
                assert(!(forall|j: int|
                    0 <= j < dec_parse_body(s@).len() ==> is_dec_digit(dec_parse_body(s@)[j])));
                assert(!dec_parse_ok(s@));
            }
            return None;
        }
        let v = (c as u32 - 48) as u64;
        proof {
            assert(t.subrange(0, i + 1 - start).drop_last() =~= t.subrange(0, i - start));
        }
        if big {
            proof {
                lemma_dec_fold_nonneg(t.subrange(0, i - start));
            }
        } else {
            acc = acc * 10 + v;
            if acc > 255 {
                big = true;
            }
        }
        i = i + 1;
    }
    proof {
        assert(t.subrange(0, n - start) =~= t);
    }
    if big {
        None
    } else {
        Some(acc as u8)
    }
}

} // verus!

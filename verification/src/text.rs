//! Character and string utilities used by the parsers: Unicode case
//! normalization (behind named trusted results), whitespace trimming,
//! prefix stripping, and decimal number parsing; everything but the case
//! mapping itself is verified against a direct specification over
//! character sequences.

use vstd::prelude::*;

verus! {

/// The characters trimmed from source lines and values: the Unicode
/// `White_Space` set, as `char::is_whitespace` defines it.
pub open spec fn is_space_char(c: char) -> bool {
    c == ' ' || c == '\t' || c == '\n' || c == '\x0b' || c == '\x0c' || c == '\r' || c
        == '\u{0085}' || c == '\u{00a0}' || c == '\u{1680}' || ('\u{2000}' <= c && c
        <= '\u{200a}') || c == '\u{2028}' || c == '\u{2029}' || c == '\u{202f}' || c
        == '\u{205f}' || c == '\u{3000}'
}

/// A character sequence with leading and trailing whitespace removed.
pub open spec fn spec_trim(s: Seq<char>) -> Seq<char>
    decreases s.len(),
{
    if s.len() == 0 {
        s
    } else if is_space_char(s[0]) {
        spec_trim(s.drop_first())
    } else if is_space_char(s[s.len() - 1]) {
        spec_trim(s.drop_last())
    } else {
        s
    }
}

/// What `str::to_lowercase` returns: the Unicode lower-casing of a
/// character sequence, a function of the characters alone.
pub uninterp spec fn lower_of(s: Seq<char>) -> Seq<char>;

/// What `str::to_uppercase` returns: the Unicode upper-casing of a
/// character sequence, a function of the characters alone.
pub uninterp spec fn upper_of(s: Seq<char>) -> Seq<char>;

pub open spec fn is_digit_char(c: char) -> bool {
    '0' <= c && c <= '9'
}

pub open spec fn digit_val(c: char) -> int {
    c as int - '0' as int
}

pub open spec fn all_digits(s: Seq<char>) -> bool {
    forall|i: int| 0 <= i < s.len() ==> is_digit_char(s[i])
}

/// The value of a sequence of decimal digits, most significant first.
pub open spec fn digits_val(s: Seq<char>) -> int
    decreases s.len(),
{
    if s.len() == 0 {
        0
    } else {
        digits_val(s.drop_last()) * 10 + digit_val(s.last())
    }
}

/// The digits of an unsigned decimal literal: everything after an
/// optional leading `+`.
pub open spec fn uint_digits_part(s: Seq<char>) -> Seq<char> {
    if s.len() > 0 && s[0] == '+' {
        s.drop_first()
    } else {
        s
    }
}

/// The unsigned integer denoted by a string: an optional leading `+`,
/// then one or more decimal digits and nothing else.
pub open spec fn spec_parse_uint(s: Seq<char>) -> Option<int> {
    let t = uint_digits_part(s);
    if t.len() > 0 && all_digits(t) {
        Some(digits_val(t))
    } else {
        None
    }
}

pub open spec fn spec_parse_u16(s: Seq<char>) -> Option<u16> {
    match spec_parse_uint(s) {
        Some(v) => if v <= u16::MAX { Some(v as u16) } else { None },
        None => None,
    }
}

pub open spec fn spec_parse_u8(s: Seq<char>) -> Option<u8> {
    match spec_parse_uint(s) {
        Some(v) => if v <= u8::MAX { Some(v as u8) } else { None },
        None => None,
    }
}

pub fn is_space(c: char) -> (r: bool)
    ensures
        r == is_space_char(c),
{
    c == ' ' || c == '\t' || c == '\n' || c == '\x0b' || c == '\x0c' || c == '\r' || c
        == '\u{0085}' || c == '\u{00a0}' || c == '\u{1680}' || ('\u{2000}' <= c && c
        <= '\u{200a}') || c == '\u{2028}' || c == '\u{2029}' || c == '\u{202f}' || c
        == '\u{205f}' || c == '\u{3000}'
}

pub fn str_eq(a: &str, b: &str) -> (r: bool)
    ensures
        r == (a@ == b@),
{
    let la = a.unicode_len();
    let lb = b.unicode_len();
    if la != lb {
        return false;
    }
    let mut i: usize = 0;
    while i < la
        invariant
            i <= la,
            la == a@.len(),
            la == b@.len(),
            forall|k: int| 0 <= k < i ==> a@[k] == b@[k],
        decreases la - i,
    {
        if a.get_char(i) != b.get_char(i) {
            return false;
        }
        i += 1;
    }
    proof {
        assert(a@ =~= b@);
    }
    true
}

pub fn has_prefix(s: &str, key: &str) -> (r: bool)
    ensures
        r == key@.is_prefix_of(s@),
{
    let lk = key.unicode_len();
    let ls = s.unicode_len();
    if lk > ls {
        return false;
    }
    let mut i: usize = 0;
    while i < lk
        invariant
            i <= lk <= ls,
            lk == key@.len(),
            ls == s@.len(),
            forall|k: int| 0 <= k < i ==> key@[k] == s@[k],
        decreases lk - i,
    {
        if key.get_char(i) != s.get_char(i) {
            proof {
                assert(key@[i as int] != s@.subrange(0, lk as int)[i as int]);
            }
            return false;
        }
        i += 1;
    }
    proof {
        assert(key@ =~= s@.subrange(0, lk as int));
    }
    true
}

/// The remainder of `s` after the prefix `key`, if `key` is a prefix of `s`.
pub fn strip_prefix_of<'a>(s: &'a str, key: &str) -> (r: Option<&'a str>)
    ensures
        key@.is_prefix_of(s@) ==> (r matches Some(t) && t@ == s@.skip(key@.len() as int)),
        !key@.is_prefix_of(s@) ==> r is None,
{
    if has_prefix(s, key) {
        Some(s.substring_char(key.unicode_len(), s.unicode_len()))
    } else {
        None
    }
}

proof fn lemma_trim_subrange(s: Seq<char>, a: int, b: int)
    requires
        0 <= a <= b <= s.len(),
        forall|k: int| 0 <= k < a ==> is_space_char(s[k]),
        forall|k: int| b <= k < s.len() ==> is_space_char(s[k]),
        a < b ==> !is_space_char(s[a]) && !is_space_char(s[b - 1]),
    ensures
        spec_trim(s) == s.subrange(a, b),
    decreases s.len(),
{
    if s.len() == 0 {
        assert(s.subrange(a, b) =~= s);
    } else if is_space_char(s[0]) {
        // a == 0 would force a == b, i.e. every character is a space
        if a == 0 && b > 0 {
            assert(!is_space_char(s[0]));
        }
        if a == b {
            // all characters are spaces; trim of the tail is empty as well
            let t = s.drop_first();
            lemma_trim_subrange(t, 0, 0);
            assert(s.subrange(a, b) =~= t.subrange(0, 0));
        } else {
            let t = s.drop_first();
            assert(forall|k: int| 0 <= k < a - 1 ==> is_space_char(#[trigger] t[k]));
            assert(forall|k: int| b - 1 <= k < t.len() ==> is_space_char(#[trigger] t[k]));
            lemma_trim_subrange(t, a - 1, b - 1);
            assert(s.subrange(a, b) =~= t.subrange(a - 1, b - 1));
        }
    } else if is_space_char(s[s.len() - 1]) {
        // the first character is not a space, so a == 0 and b < s.len()
        assert(a == 0);
        let t = s.drop_last();
        assert(b <= t.len());
        assert(forall|k: int| b <= k < t.len() ==> is_space_char(#[trigger] t[k]));
        lemma_trim_subrange(t, a, b);
        assert(s.subrange(a, b) =~= t.subrange(a, b));
    } else {
        assert(a == 0);
        assert(b == s.len());
        assert(s.subrange(a, b) =~= s);
    }
}

pub fn trim_str<'a>(s: &'a str) -> (r: &'a str)
    ensures
        r@ == spec_trim(s@),
{
    let len = s.unicode_len();
    let mut a: usize = 0;
    while a < len && is_space(s.get_char(a))
        invariant
            a <= len,
            len == s@.len(),
            forall|k: int| 0 <= k < a ==> is_space_char(s@[k]),
        decreases len - a,
    {
        a += 1;
    }
    let mut b: usize = len;
    while b > a && is_space(s.get_char(b - 1))
        invariant
            a <= b <= len,
            len == s@.len(),
            forall|k: int| b <= k < len ==> is_space_char(s@[k]),
        decreases b,
    {
        b -= 1;
    }
    proof {
        lemma_trim_subrange(s@, a as int, b as int);
    }
    s.substring_char(a, b)
}

/// Relies on str::to_lowercase: the Unicode lower-casing of the string,
/// depending on its characters alone.
#[verifier::external_body]
pub(crate) fn lowercase_str(s: &str) -> (r: String)
    ensures
        r@ == lower_of(s@),
{
    s.to_lowercase()
}

/// Relies on str::to_uppercase: the Unicode upper-casing of the string,
/// depending on its characters alone.
#[verifier::external_body]
pub(crate) fn uppercase_str(s: &str) -> (r: String)
    ensures
        r@ == upper_of(s@),
{
    s.to_uppercase()
}

proof fn lemma_digits_val_nonneg(s: Seq<char>)
    requires
        all_digits(s),
    ensures
        digits_val(s) >= 0,
    decreases s.len(),
{
    if s.len() > 0 {
        assert(all_digits(s.drop_last()));
        lemma_digits_val_nonneg(s.drop_last());
    }
}

proof fn lemma_digits_val_prefix(s: Seq<char>, n: int)
    requires
        all_digits(s),
        0 <= n <= s.len(),
    ensures
        digits_val(s) >= digits_val(s.subrange(0, n)),
    decreases s.len() - n,
{
    if n == s.len() {
        assert(s.subrange(0, n) =~= s);
    } else {
        let p = s.subrange(0, n + 1);
        assert(p.drop_last() =~= s.subrange(0, n));
        assert(all_digits(s.subrange(0, n)));
        lemma_digits_val_nonneg(s.subrange(0, n));
        assert(digits_val(p) >= digits_val(s.subrange(0, n)));
        lemma_digits_val_prefix(s, n + 1);
    }
}

/// Parses an unsigned decimal integer no greater than `cap`; any other
/// string, and any value over the cap, yields `None`.
fn parse_uint_capped(s: &str, cap: u32) -> (r: Option<u32>)
    requires
        cap <= 65535,
    ensures
        match spec_parse_uint(s@) {
            Some(v) => if v <= cap {
                r matches Some(u) && u == v
            } else {
                r is None
            },
            None => r is None,
        },
{
    let len = s.unicode_len();
    let mut start: usize = 0;
    if len > 0 && s.get_char(0) == '+' {
        start = 1;
    }
    let ghost t = uint_digits_part(s@);
    assert(t =~= s@.subrange(start as int, len as int));
    if start == len {
        return None;
    }
    let mut acc: u32 = 0;
    let mut i: usize = start;
    while i < len
        invariant
            start <= i <= len,
            len == s@.len(),
            start < len,
            cap <= 65535,
            t == uint_digits_part(s@),
            t == s@.subrange(start as int, len as int),
            all_digits(t.subrange(0, i - start)),
            acc == digits_val(t.subrange(0, i - start)),
            acc <= cap,
        decreases len - i,
    {
        let c = s.get_char(i);
        if !('0' <= c && c <= '9') {
            assert(!is_digit_char(t[i - start]));
            return None;
        }
        let d: u32 = (c as u32) - ('0' as u32);
        let next: u32 = acc * 10 + d;
        proof {
            assert(t.subrange(0, i + 1 - start as int).drop_last() =~= t.subrange(
                0,
                i - start,
            ));
            assert(digits_val(t.subrange(0, i + 1 - start as int)) == next);
            assert(all_digits(t.subrange(0, i + 1 - start as int)));
        }
        if next > cap {
            proof {
                if all_digits(t) {
                    lemma_digits_val_prefix(t, i + 1 - start as int);
                }
            }
            return None;
        }
        acc = next;
        i += 1;
    }
    proof {
        assert(t.subrange(0, len - start as int) =~= t);
    }
    Some(acc)
}

pub fn parse_u16_str(s: &str) -> (r: Option<u16>)
    ensures
        r == spec_parse_u16(s@),
{
    match parse_uint_capped(s, 65535) {
        Some(v) => Some(v as u16),
        None => None,
    }
}

pub fn parse_u8_str(s: &str) -> (r: Option<u8>)
    ensures
        r == spec_parse_u8(s@),
{
    match parse_uint_capped(s, 255) {
        Some(v) => Some(v as u8),
        None => None,
    }
}

} // verus!

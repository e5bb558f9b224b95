//! Text helpers: decimal and hexadecimal numbers, UTF-8, and the few string
//! operations of the standard library that carry no specification of their own.

use vstd::prelude::*;
use vstd::slice::slice_subrange;
use vstd::utf8::{decode_utf8, encode_utf8, is_ascii_chars, valid_utf8};

verus! {

pub const MINUS: u8 = 0x2d;

pub const PLUS: u8 = 0x2b;

// Decimal numbers

/// Whether a byte is an ASCII decimal digit.
pub open spec fn is_digit(b: u8) -> bool {
    0x30 <= b <= 0x39
}

pub open spec fn all_digits(s: Seq<u8>) -> bool {
    forall|i: int| 0 <= i < s.len() ==> is_digit(#[trigger] s[i])
}

/// The number that a string of decimal digits stands for.
pub open spec fn decimal_value(s: Seq<u8>) -> nat
    decreases s.len(),
{
    if s.len() == 0 {
        0
    } else {
        (decimal_value(s.drop_last()) * 10 + (s.last() - 0x30)) as nat
    }
}

/// The decimal digits of a number, without leading zeros.
pub open spec fn decimal(n: nat) -> Seq<u8>
    decreases n,
{
    if n < 10 {
        seq![(0x30 + n) as u8]
    } else {
        decimal(n / 10).push((0x30 + n % 10) as u8)
    }
}

/// The decimal digits of an integer, with a minus sign before a negative one.
pub open spec fn signed_decimal(n: int) -> Seq<u8> {
    if n < 0 {
        seq![MINUS] + decimal((-n) as nat)
    } else {
        decimal(n as nat)
    }
}

pub proof fn lemma_decimal(n: nat)
    ensures
        decimal(n).len() > 0,
        all_digits(decimal(n)),
        decimal_value(decimal(n)) == n,
        n == 0 || decimal(n)[0] != 0x30,
    decreases n,
{
    if n < 10 {
        assert(decimal(n).drop_last() =~= Seq::<u8>::empty());
        assert(decimal_value(decimal(n).drop_last()) == 0);
    } else {
        lemma_decimal(n / 10);
        assert(decimal(n).drop_last() =~= decimal(n / 10));
    }
}

/// The value grows with every digit that is appended.
pub proof fn lemma_decimal_value_prefix(s: Seq<u8>, i: int)
    requires
        all_digits(s),
        0 <= i <= s.len(),
    ensures
        decimal_value(s.take(i)) <= decimal_value(s),
    decreases s.len() - i,
{
    if i < s.len() {
        lemma_decimal_value_prefix(s, i + 1);
        assert(s.take(i + 1).drop_last() =~= s.take(i));
        assert(is_digit(s[i]));
    } else {
        assert(s.take(i) =~= s);
    }
}

/// The value of a non-empty string of digits, or `None` if the string is empty,
/// holds another byte, or stands for more than `max`.
pub open spec fn unsigned_of(s: Seq<u8>, max: nat) -> Option<nat> {
    if s.len() > 0 && all_digits(s) && decimal_value(s) <= max {
        Some(decimal_value(s))
    } else {
        None
    }
}

/// The 64-bit integer that a string of digits with an optional sign stands for.
pub open spec fn i64_of(s: Seq<u8>) -> Option<i64> {
    if s.len() > 0 && s[0] == MINUS {
        match unsigned_of(s.drop_first(), 0x8000_0000_0000_0000) {
            Some(n) => Some((-(n as int)) as i64),
            None => None,
        }
    } else {
        let digits = if s.len() > 0 && s[0] == PLUS {
            s.drop_first()
        } else {
            s
        };
        match unsigned_of(digits, 0x7fff_ffff_ffff_ffff) {
            Some(n) => Some(n as i64),
            None => None,
        }
    }
}

/// A written integer is read back.
pub proof fn lemma_i64_of_signed_decimal(n: i64)
    ensures
        i64_of(signed_decimal(n as int)) == Some(n),
        forall|i: int|
            0 <= i < signed_decimal(n as int).len() ==> {
                let b = #[trigger] signed_decimal(n as int)[i];
                is_digit(b) || b == MINUS
            },
{
    if n < 0 {
        let m = (-(n as int)) as nat;
        lemma_decimal(m);
        assert(signed_decimal(n as int).drop_first() =~= decimal(m));
    } else {
        lemma_decimal(n as nat);
        assert(is_digit(decimal(n as nat)[0]));
    }
}

/// Parse a string of decimal digits.
pub fn parse_unsigned(s: &[u8], from: usize, max: u64) -> (r: Option<u64>)
    requires
        from <= s.len(),
    ensures
        match unsigned_of(s@.skip(from as int), max as nat) {
            Some(n) => r == Some(n as u64),
            None => r is None,
        },
{
    let ghost digits = s@.skip(from as int);
    if from == s.len() {
        return None;
    }
    let mut v: u64 = 0;
    let mut i: usize = from;
    while i < s.len()
        invariant
            from <= i <= s.len(),
            digits == s@.skip(from as int),
            forall|j: int| 0 <= j < i - from ==> is_digit(#[trigger] digits[j]),
            v == decimal_value(digits.take(i - from)),
            v <= max,
        decreases s.len() - i,
    {
        let b = s[i];
        assert(digits[i - from] == b);
        if b < 0x30 || b > 0x39 {
            return None;
        }
        let d: u64 = (b - 0x30) as u64;
        proof {
            assert(digits.take(i - from + 1).drop_last() =~= digits.take(i - from));
            if all_digits(digits) {
                lemma_decimal_value_prefix(digits, i - from + 1);
            }
        }
        if v > max / 10 {
            assert(v * 10 > max);
            return None;
        }
        if d > max - v * 10 {
            return None;
        }
        v = v * 10 + d;
        i = i + 1;
    }
    assert(digits.take(i - from) =~= digits);
    Some(v)
}

/// Parse a 64-bit integer: digits with an optional sign.
pub fn parse_i64(s: &[u8]) -> (r: Option<i64>)
    ensures
        r == i64_of(s@),
{
    if s.len() > 0 && s[0] == MINUS {
        assert(s@.skip(1) =~= s@.drop_first());
        match parse_unsigned(s, 1, 0x8000_0000_0000_0000) {
            Some(n) => {
                if n == 0x8000_0000_0000_0000 {
                    Some(i64::MIN)
                } else {
                    Some(-(n as i64))
                }
            },
            None => None,
        }
    } else {
        let from: usize = if s.len() > 0 && s[0] == PLUS {
            1
        } else {
            0
        };
        assert(s@.skip(from as int) =~= if from == 1 {
            s@.drop_first()
        } else {
            s@
        });
        match parse_unsigned(s, from, 0x7fff_ffff_ffff_ffff) {
            Some(n) => Some(n as i64),
            None => None,
        }
    }
}

/// Why a text stands for no 64-bit integer.
#[derive(Debug, Clone, Copy, PartialEq, Eq)]
pub enum IntFault {
    Empty,
    InvalidDigit,
    TooLarge,
    TooSmall,
}

impl IntFault {
    /// The text of the fault.
    pub open spec fn text(self) -> Seq<char> {
        match self {
            IntFault::Empty => "cannot parse integer from empty string"@,
            IntFault::InvalidDigit => "invalid digit found in string"@,
            IntFault::TooLarge => "number too large to fit in target type"@,
            IntFault::TooSmall => "number too small to fit in target type"@,
        }
    }

    /// The text of the fault.
    pub fn message(&self) -> (r: &'static str)
        ensures
            r@ == self.text(),
    {
        match self {
            IntFault::Empty => "cannot parse integer from empty string",
            IntFault::InvalidDigit => "invalid digit found in string",
            IntFault::TooLarge => "number too large to fit in target type",
            IntFault::TooSmall => "number too small to fit in target type",
        }
    }
}

/// The first index at or after `i` that holds no decimal digit, or the length.
pub open spec fn digits_end(s: Seq<u8>, i: int) -> int
    decreases s.len() - i,
{
    if i < 0 || i >= s.len() {
        s.len() as int
    } else if is_digit(s[i]) {
        digits_end(s, i + 1)
    } else {
        i
    }
}

/// Why a text stands for no 64-bit integer: what is found first from the left.
pub open spec fn i64_fault(s: Seq<u8>) -> IntFault {
    if s.len() == 0 {
        IntFault::Empty
    } else {
        let from: int = if s[0] == MINUS || s[0] == PLUS {
            1
        } else {
            0
        };
        let value = decimal_value(s.subrange(from, digits_end(s, from)));
        if s[0] == MINUS && value > 0x8000_0000_0000_0000 {
            IntFault::TooSmall
        } else if s[0] != MINUS && value > 0x7fff_ffff_ffff_ffff {
            IntFault::TooLarge
        } else {
            IntFault::InvalidDigit
        }
    }
}

/// Why a text stands for no 64-bit integer.
pub fn int_fault(s: &[u8]) -> (r: IntFault)
    ensures
        r == i64_fault(s@),
{
    if s.len() == 0 {
        return IntFault::Empty;
    }
    let from: usize = if s[0] == MINUS || s[0] == PLUS {
        1
    } else {
        0
    };
    let mut end: usize = from;
    while end < s.len() && s[end] >= 0x30 && s[end] <= 0x39
        invariant
            from <= end <= s.len(),
            forall|j: int| from <= j < end ==> is_digit(#[trigger] s@[j]),
            digits_end(s@, from as int) == digits_end(s@, end as int),
        decreases s.len() - end,
    {
        end = end + 1;
    }
    let max: u64 = if s[0] == MINUS {
        0x8000_0000_0000_0000
    } else {
        0x7fff_ffff_ffff_ffff
    };
    let digits = slice_subrange(s, from, end);
    assert(digits@.skip(0) =~= digits@);
    if end > from && parse_unsigned(digits, 0, max).is_none() {
        if s[0] == MINUS {
            IntFault::TooSmall
        } else {
            IntFault::TooLarge
        }
    } else {
        IntFault::InvalidDigit
    }
}

/// Append the decimal digits of a number.
pub fn append_decimal(out: &mut Vec<u8>, n: u64)
    ensures
        final(out)@ == old(out)@ + decimal(n as nat),
    decreases n,
{
    if n >= 10 {
        append_decimal(out, n / 10);
    }
    out.push((0x30 + n % 10) as u8);
    assert(out@ =~= old(out)@ + decimal(n as nat));
}

/// Append the decimal digits of an integer, with its sign if it is negative.
pub fn append_signed_decimal(out: &mut Vec<u8>, n: i64)
    ensures
        final(out)@ == old(out)@ + signed_decimal(n as int),
{
    if n < 0 {
        out.push(MINUS);
        let m: u64 = if n == i64::MIN {
            0x8000_0000_0000_0000
        } else {
            (-n) as u64
        };
        append_decimal(out, m);
        assert(out@ =~= old(out)@ + signed_decimal(n as int));
    } else {
        append_decimal(out, n as u64);
    }
}

// Strings

/// `String::push` appends one character.
pub assume_specification[ String::push ](s: &mut String, c: char)
    ensures
        final(s)@ == old(s)@.push(c),
;

/// `String::push_str` appends a string.
pub assume_specification[ String::push_str ](s: &mut String, other: &str)
    ensures
        final(s)@ == old(s)@ + other@,
;

/// The characters of an ASCII byte string.
pub open spec fn ascii_chars(s: Seq<u8>) -> Seq<char> {
    s.map_values(|b: u8| b as char)
}

/// Append ASCII bytes to a string.
pub fn push_ascii(out: &mut String, s: &[u8])
    requires
        forall|i: int| 0 <= i < s.len() ==> #[trigger] s@[i] < 0x80,
    ensures
        final(out)@ == old(out)@ + ascii_chars(s@),
{
    let mut i: usize = 0;
    while i < s.len()
        invariant
            i <= s.len(),
            forall|i: int| 0 <= i < s.len() ==> #[trigger] s@[i] < 0x80,
            out@ == old(out)@ + ascii_chars(s@.take(i as int)),
        decreases s.len() - i,
    {
        out.push(s[i] as char);
        i = i + 1;
        assert(ascii_chars(s@.take(i as int)) =~= ascii_chars(s@.take(i - 1)).push(
            s@[i - 1] as char,
        ));
        assert(out@ =~= old(out)@ + ascii_chars(s@.take(i as int)));
    }
    assert(s@.take(i as int) =~= s@);
}

/// Append the decimal digits of a number to a string.
pub fn push_decimal(out: &mut String, n: u64)
    ensures
        final(out)@ == old(out)@ + ascii_chars(decimal(n as nat)),
{
    let mut digits: Vec<u8> = Vec::new();
    append_decimal(&mut digits, n);
    assert(digits@ =~= decimal(n as nat));
    proof {
        lemma_decimal(n as nat);
        assert forall|i: int| 0 <= i < digits@.len() implies #[trigger] digits@[i] < 0x80 by {
            assert(is_digit(digits@[i]));
        }
    }
    push_ascii(out, digits.as_slice());
}

/// The contents of a sequence of strings.
pub open spec fn texts(s: Seq<String>) -> Seq<Seq<char>> {
    s.map_values(|x: String| x@)
}

/// The content of an optional string.
pub open spec fn opt_text(s: Option<String>) -> Option<Seq<char>> {
    match s {
        Some(x) => Some(x@),
        None => None,
    }
}

/// The characters of a string.
pub fn chars_of(s: &str) -> (r: Vec<char>)
    ensures
        r@ == s@,
{
    broadcast use vstd::string::axiom_spec_iter;

    let mut out: Vec<char> = Vec::new();
    for c in it: s.chars()
        invariant
            it.seq() == s@,
            out@ == s@.take(it.index() as int),
    {
        out.push(c);
        assert(out@ =~= s@.take(it.index() + 1));
    }
    assert(out@ =~= s@);
    out
}

/// The string of the characters `from..to`.
pub fn string_of(chars: &Vec<char>, from: usize, to: usize) -> (r: String)
    requires
        from <= to <= chars.len(),
    ensures
        r@ == chars@.subrange(from as int, to as int),
{
    let mut out = String::new();
    let mut i: usize = from;
    while i < to
        invariant
            from <= i <= to <= chars.len(),
            out@ == chars@.subrange(from as int, i as int),
        decreases to - i,
    {
        out.push(chars[i]);
        i = i + 1;
        assert(out@ =~= chars@.subrange(from as int, i as int));
    }
    out
}

/// The first index at or after `from` that holds `c`, or the length.
pub open spec fn find_char(s: Seq<char>, from: int, c: char) -> int
    decreases s.len() - from,
{
    if from < 0 || from >= s.len() {
        s.len() as int
    } else if s[from] == c {
        from
    } else {
        find_char(s, from + 1, c)
    }
}

pub proof fn lemma_find_char(s: Seq<char>, from: int, c: char)
    requires
        0 <= from <= s.len(),
    ensures
        from <= find_char(s, from, c) <= s.len(),
        find_char(s, from, c) < s.len() ==> s[find_char(s, from, c)] == c,
        forall|i: int| from <= i < find_char(s, from, c) ==> s[i] != c,
    decreases s.len() - from,
{
    if from < s.len() && s[from] != c {
        lemma_find_char(s, from + 1, c);
    }
}

/// Find a character at or after `from`.
pub fn find_char_from(s: &Vec<char>, from: usize, c: char) -> (r: usize)
    requires
        from <= s.len(),
    ensures
        r == find_char(s@, from as int, c),
        from <= r <= s.len(),
{
    let mut i: usize = from;
    while i < s.len() && s[i] != c
        invariant
            from <= i <= s.len(),
            find_char(s@, from as int, c) == find_char(s@, i as int, c),
        decreases s.len() - i,
    {
        i = i + 1;
    }
    i
}

/// Whether a text starts with a prefix.
pub open spec fn has_prefix(s: Seq<char>, prefix: Seq<char>) -> bool {
    prefix.len() <= s.len() && s.take(prefix.len() as int) == prefix
}

/// A text has a prefix if and only if it is the prefix and something more.
pub proof fn lemma_has_prefix(s: Seq<char>, prefix: Seq<char>, rest: Seq<char>)
    ensures
        has_prefix(prefix + rest, prefix),
        has_prefix(s, prefix) ==> s == prefix + s.skip(prefix.len() as int),
{
    assert((prefix + rest).take(prefix.len() as int) =~= prefix);
    if has_prefix(s, prefix) {
        assert forall|i: int| 0 <= i < prefix.len() implies s[i] == prefix[i] by {
            assert(s.take(prefix.len() as int)[i] == s[i]);
        }
        assert(s =~= prefix + s.skip(prefix.len() as int));
    }
}

/// The characters after a prefix, or `None` if it does not stand there.
pub fn after_prefix(s: &Vec<char>, prefix: &str) -> (r: Option<Vec<char>>)
    ensures
        match r {
            Some(v) => has_prefix(s@, prefix@) && v@ == s@.skip(prefix@.len() as int),
            None => !has_prefix(s@, prefix@),
        },
{
    let p = chars_of(prefix);
    if p.len() > s.len() {
        return None;
    }
    let mut i: usize = 0;
    while i < p.len()
        invariant
            i <= p.len() <= s.len(),
            p@ == prefix@,
            forall|j: int| 0 <= j < i ==> s@[j] == p@[j],
        decreases p.len() - i,
    {
        if s[i] != p[i] {
            assert(s@.take(p@.len() as int)[i as int] != p@[i as int]);
            return None;
        }
        i = i + 1;
    }
    assert(s@.take(p@.len() as int) =~= p@);
    let mut out: Vec<char> = Vec::new();
    while i < s.len()
        invariant
            p.len() <= i <= s.len(),
            out@ == s@.subrange(p@.len() as int, i as int),
        decreases s.len() - i,
    {
        out.push(s[i]);
        i = i + 1;
        assert(out@ =~= s@.subrange(p@.len() as int, i as int));
    }
    assert(out@ =~= s@.skip(p@.len() as int));
    Some(out)
}

/// Whether two strings hold the same characters.
pub fn same_str(a: &str, b: &str) -> (r: bool)
    ensures
        r == (a@ == b@),
{
    let r = crate::octets::same_bytes(a.as_bytes(), b.as_bytes());
    proof {
        vstd::utf8::encode_utf8_decode_utf8(a@);
        vstd::utf8::encode_utf8_decode_utf8(b@);
    }
    r
}

// UTF-8

/// The text of the error of `std::str::from_utf8` on a byte string.
pub uninterp spec fn utf8_error(s: Seq<u8>) -> Seq<char>;

/// `std::str::from_utf8` succeeds exactly on valid UTF-8, and then gives the
/// string that those bytes encode; the text of its error depends on the bytes
/// alone.
#[verifier::external_body]
pub(crate) fn checked_utf8(s: &[u8]) -> (r: std::result::Result<&str, String>)
    ensures
        r is Ok <==> valid_utf8(s@),
        r matches Ok(t) ==> encode_utf8(t@) == s@,
        r matches Err(e) ==> e@ == utf8_error(s@),
{
    match std::str::from_utf8(s) {
        Ok(t) => Ok(t),
        Err(e) => Err(format!("{e}")),
    }
}

/// The characters of valid UTF-8, or `None`.
pub open spec fn utf8_chars(s: Seq<u8>) -> Option<Seq<char>> {
    if valid_utf8(s) {
        Some(decode_utf8(s))
    } else {
        None
    }
}

/// The string that the bytes encode, if they are valid UTF-8.
pub fn str_of(s: &[u8]) -> (r: Option<&str>)
    ensures
        match utf8_chars(s@) {
            Some(chars) => r matches Some(t) && t@ == chars,
            None => r is None,
        },
{
    match checked_utf8(s) {
        Ok(t) => {
            proof {
                vstd::utf8::encode_utf8_decode_utf8(t@);
            }
            Some(t)
        },
        Err(_) => None,
    }
}

/// ASCII bytes are valid UTF-8, and encode the characters with the same numbers.
pub proof fn lemma_ascii_utf8(s: Seq<u8>)
    requires
        forall|i: int| 0 <= i < s.len() ==> #[trigger] s[i] < 0x80,
    ensures
        valid_utf8(s),
        decode_utf8(s) == ascii_chars(s),
        encode_utf8(ascii_chars(s)) == s,
{
    let chars = ascii_chars(s);
    assert forall|i: int| 0 <= i < chars.len() implies (#[trigger] chars[i] as nat) < 128 by {
        assert(s[i] < 0x80);
    }
    assert(is_ascii_chars(chars));
    vstd::utf8::is_ascii_chars_encode_utf8(chars);
    assert forall|i: int| 0 <= i < s.len() implies #[trigger] encode_utf8(chars)[i] == s[i] by {
        assert(s[i] < 0x80);
        assert(chars[i] as u8 == s[i]);
    }
    assert(encode_utf8(chars) =~= s);
    vstd::utf8::encode_utf8_valid_utf8(chars);
    vstd::utf8::encode_utf8_decode_utf8(chars);
}

/// What `String::from_utf8_lossy` makes of a byte string.
pub uninterp spec fn utf8_lossy(s: Seq<u8>) -> Seq<char>;

/// `String::from_utf8_lossy`: valid UTF-8 is decoded as it is; in other input
/// the invalid parts are replaced. The result depends on the bytes alone.
#[verifier::external_body]
pub(crate) fn string_from_utf8_lossy(s: &[u8]) -> (r: String)
    ensures
        r@ == utf8_lossy(s@),
        valid_utf8(s@) ==> r@ == decode_utf8(s@),
{
    String::from_utf8_lossy(s).into_owned()
}

/// The upper-case form of an ASCII letter; other characters are left alone.
pub open spec fn ascii_upper(c: char) -> char {
    if 'a' <= c <= 'z' {
        ((c as u32) - 0x20) as char
    } else {
        c
    }
}

/// The lower-case form of an ASCII letter; other characters are left alone.
pub open spec fn ascii_lower(c: char) -> char {
    if 'A' <= c <= 'Z' {
        ((c as u32) + 0x20) as char
    } else {
        c
    }
}

/// An ASCII text with each letter in upper case.
pub open spec fn ascii_upper_text(s: Seq<char>) -> Seq<char> {
    s.map_values(|c: char| ascii_upper(c))
}

/// An ASCII text with each letter in lower case.
pub open spec fn ascii_lower_text(s: Seq<char>) -> Seq<char> {
    s.map_values(|c: char| ascii_lower(c))
}

/// What `str::to_uppercase` makes of a string.
pub uninterp spec fn uppercase(s: Seq<char>) -> Seq<char>;

/// `str::to_uppercase`: in an ASCII string each letter becomes its upper-case
/// form. The result depends on the characters alone.
#[verifier::external_body]
pub(crate) fn to_uppercase(s: &str) -> (r: String)
    ensures
        r@ == uppercase(s@),
        is_ascii_chars(s@) ==> r@ == ascii_upper_text(s@),
{
    s.to_uppercase()
}

/// The upper-case form of a text.
pub open spec fn upper_text(s: Seq<char>) -> Seq<char> {
    if is_ascii_chars(s) {
        ascii_upper_text(s)
    } else {
        uppercase(s)
    }
}

/// Changing the case of an ASCII text gives an ASCII text with the same
/// upper-case form.
pub proof fn lemma_ascii_case(s: Seq<char>)
    requires
        is_ascii_chars(s),
    ensures
        is_ascii_chars(ascii_upper_text(s)),
        is_ascii_chars(ascii_lower_text(s)),
        ascii_upper_text(ascii_upper_text(s)) == ascii_upper_text(s),
        ascii_upper_text(ascii_lower_text(s)) == ascii_upper_text(s),
{
    assert forall|i: int| 0 <= i < s.len() implies {
        &&& (#[trigger] ascii_upper_text(s)[i] as nat) < 128
        &&& (ascii_lower_text(s)[i] as nat) < 128
        &&& ascii_upper(ascii_upper(s[i])) == ascii_upper(s[i])
        &&& ascii_upper(ascii_lower(s[i])) == ascii_upper(s[i])
    } by {
        assert((s[i] as nat) < 128);
    }
    assert forall|i: int| 0 <= i < s.len() implies (#[trigger] ascii_lower_text(s)[i] as nat)
        < 128 by {
        assert((ascii_upper_text(s)[i] as nat) < 128);
    }
    assert forall|i: int| 0 <= i < s.len() implies ascii_upper_text(ascii_upper_text(s))[i]
        == ascii_upper_text(s)[i] && ascii_upper_text(ascii_lower_text(s))[i]
        == ascii_upper_text(s)[i] by {
        assert((ascii_upper_text(s)[i] as nat) < 128);
    }
    assert(ascii_upper_text(ascii_upper_text(s)) =~= ascii_upper_text(s));
    assert(ascii_upper_text(ascii_lower_text(s)) =~= ascii_upper_text(s));
}

// Hexadecimal

/// Whether a byte is a hexadecimal digit of either case.
pub open spec fn is_hex_digit(b: u8) -> bool {
    is_digit(b) || 0x61 <= b <= 0x66 || 0x41 <= b <= 0x46
}

/// The value of a hexadecimal digit.
pub open spec fn hex_digit_value(b: u8) -> u8 {
    if is_digit(b) {
        (b - 0x30) as u8
    } else if 0x61 <= b <= 0x66 {
        (b - 0x61 + 10) as u8
    } else {
        (b - 0x41 + 10) as u8
    }
}

/// The lower-case hexadecimal digit of a value below 16.
pub open spec fn hex_digit(n: u8) -> u8 {
    if n < 10 {
        (0x30 + n) as u8
    } else {
        (0x61 + n - 10) as u8
    }
}

/// The value of a hexadecimal digit, or `None` for another byte.
pub fn hex_value(b: u8) -> (r: Option<u8>)
    ensures
        r == if is_hex_digit(b) {
            Some(hex_digit_value(b))
        } else {
            None
        },
        r matches Some(n) ==> n < 16,
{
    if b >= 0x30 && b <= 0x39 {
        Some((b - 0x30) as u8)
    } else if b >= 0x61 && b <= 0x66 {
        Some((b - 0x61 + 10) as u8)
    } else if b >= 0x41 && b <= 0x46 {
        Some((b - 0x41 + 10) as u8)
    } else {
        None
    }
}

/// The lower-case hexadecimal text of a byte string, two digits a byte.
pub open spec fn hex_text(s: Seq<u8>) -> Seq<char> {
    Seq::new(
        2 * s.len(),
        |i: int|
            if i % 2 == 0 {
                hex_digit((s[i / 2] / 16) as u8) as char
            } else {
                hex_digit((s[i / 2] % 16) as u8) as char
            },
    )
}

/// The bytes that a string of hexadecimal digits stands for.
pub open spec fn hex_bytes(s: Seq<u8>) -> Seq<u8> {
    Seq::new(
        s.len() / 2,
        |i: int| (hex_digit_value(s[2 * i]) * 16 + hex_digit_value(s[2 * i + 1])) as u8,
    )
}

/// Whether a byte string is an even number of hexadecimal digits.
pub open spec fn is_hex(s: Seq<u8>) -> bool {
    &&& s.len() % 2 == 0
    &&& forall|i: int| 0 <= i < s.len() ==> is_hex_digit(#[trigger] s[i])
}

/// `hex::encode`: two lower-case digits for each byte. The text must fit into
/// an allocation.
#[verifier::external_body]
pub(crate) fn hex_encode(s: &[u8]) -> (r: String)
    requires
        2 * s@.len() <= isize::MAX,
    ensures
        r@ == hex_text(s@),
{
    hex::encode(s)
}

/// The text of the error of `hex::decode` on a byte string.
pub uninterp spec fn hex_error(s: Seq<u8>) -> Seq<char>;

/// `hex::decode`: succeeds exactly on an even number of hexadecimal digits of
/// either case, and then gives the bytes that they stand for; the text of its
/// error depends on the bytes alone.
#[verifier::external_body]
pub(crate) fn hex_decode(s: &[u8]) -> (r: std::result::Result<Vec<u8>, String>)
    ensures
        r is Ok <==> is_hex(s@),
        r matches Ok(v) ==> v@ == hex_bytes(s@),
        r matches Err(e) ==> e@ == hex_error(s@),
{
    match hex::decode(s) {
        Ok(v) => Ok(v),
        Err(e) => Err(format!("{e}")),
    }
}

/// The value of a hexadecimal digit does not depend on its case.
pub proof fn lemma_hex_case(s: Seq<u8>)
    ensures
        is_ascii_chars(ascii_upper_text(hex_text(s))),
        is_hex(ascii_upper_text(hex_text(s)).map_values(|c: char| c as u8)),
        hex_bytes(ascii_upper_text(hex_text(s)).map_values(|c: char| c as u8)) == s,
{
    lemma_hex_round_trip(s);
    lemma_ascii_case(hex_text(s));
    let t = hex_text(s).map_values(|c: char| c as u8);
    let u = ascii_upper_text(hex_text(s)).map_values(|c: char| c as u8);
    assert forall|i: int| 0 <= i < u.len() implies is_hex_digit(#[trigger] u[i])
        && hex_digit_value(u[i]) == hex_digit_value(t[i]) by {
        assert(is_hex_digit(t[i]));
        assert(0 <= i / 2 < s.len());
    }
    assert forall|i: int| 0 <= i < hex_bytes(u).len() implies hex_bytes(u)[i] == hex_bytes(t)[i] by {
        assert(hex_digit_value(u[2 * i]) == hex_digit_value(t[2 * i]));
        assert(hex_digit_value(u[2 * i + 1]) == hex_digit_value(t[2 * i + 1]));
    }
    assert(hex_bytes(u) =~= s);
}

/// Hexadecimal text is ASCII, and stands for the bytes that it was made of.
pub proof fn lemma_hex_round_trip(s: Seq<u8>)
    ensures
        is_ascii_chars(hex_text(s)),
        is_hex(hex_text(s).map_values(|c: char| c as u8)),
        hex_bytes(hex_text(s).map_values(|c: char| c as u8)) == s,
{
    let t = hex_text(s).map_values(|c: char| c as u8);
    assert forall|i: int| 0 <= i < t.len() implies is_hex_digit(#[trigger] t[i]) by {
        assert(0 <= i / 2 < s.len());
    }
    assert forall|i: int| 0 <= i < hex_bytes(t).len() implies hex_bytes(t)[i] == s[i] by {
        assert((2 * i) / 2 == i && (2 * i + 1) / 2 == i);
        assert(t[2 * i] == hex_digit((s[i] / 16) as u8));
        assert(t[2 * i + 1] == hex_digit((s[i] % 16) as u8));
    }
    assert(hex_bytes(t) =~= s);
}

/// The digits of a number are those of its tenth and one more; zeros in front
/// do not change a value.
pub proof fn lemma_decimal_digits(n: nat, d: nat, s: Seq<u8>)
    requires
        d < 10,
    ensures
        n > 0 ==> decimal(10 * n + d) == decimal(n).push((0x30 + d) as u8),
        decimal(d) == seq![(0x30 + d) as u8],
        decimal_value(s.push((0x30 + d) as u8)) == 10 * decimal_value(s) + d,
        decimal_value(seq![0x30u8] + s) == decimal_value(s),
    decreases s.len(),
{
    assert(s.push((0x30 + d) as u8).drop_last() =~= s);
    if s.len() > 0 {
        lemma_decimal_digits(n, d, s.drop_last());
        assert((seq![0x30u8] + s).drop_last() =~= seq![0x30u8] + s.drop_last());
        assert((seq![0x30u8] + s).last() == s.last());
    } else {
        assert((seq![0x30u8] + s).drop_last() =~= s);
        assert((seq![0x30u8] + s).last() == 0x30);
    }
}

/// An integer is read from digits with or without a sign, if it fits into 64
/// bits; nothing else is an integer.
pub proof fn lemma_i64_of(digits: Seq<u8>, i: int)
    ensures
        digits.len() > 0 && all_digits(digits) ==> {
            let n = decimal_value(digits);
            &&& n <= 0x7fff_ffff_ffff_ffff ==> i64_of(digits) == Some(n as i64) && i64_of(
                seq![0x2bu8] + digits,
            ) == Some(n as i64)
            &&& n <= 0x8000_0000_0000_0000 ==> i64_of(seq![0x2du8] + digits) is Some && i64_of(
                seq![0x2du8] + digits,
            ).unwrap() == -n
            &&& n > 0x7fff_ffff_ffff_ffff ==> i64_of(digits) is None && i64_of(
                seq![0x2bu8] + digits,
            ) is None
            &&& n > 0x8000_0000_0000_0000 ==> i64_of(seq![0x2du8] + digits) is None
        },
        i64_of(seq![]) is None,
        i64_of(seq![0x2bu8]) is None,
        i64_of(seq![0x2du8]) is None,
        0 < i < digits.len() && !is_digit(digits[i]) ==> i64_of(digits) is None,
        digits.len() > 0 && !is_digit(digits[0]) && digits[0] != 0x2b && digits[0] != 0x2d
            ==> i64_of(digits) is None,
{
    let plus = seq![0x2bu8] + digits;
    let minus = seq![0x2du8] + digits;
    assert(plus.drop_first() =~= digits);
    assert(minus.drop_first() =~= digits);
    assert(seq![0x2bu8].drop_first() =~= seq![]);
    assert(seq![0x2du8].drop_first() =~= seq![]);
    if digits.len() > 0 && all_digits(digits) {
        assert(is_digit(digits[0]));
    }
    if 0 < i < digits.len() && !is_digit(digits[i]) {
        assert(digits.drop_first()[i - 1] == digits[i]);
    }
}

/// Why a text is no integer: it is empty, a number that is too large or too
/// small, or holds something else.
pub proof fn lemma_i64_fault(digits: Seq<u8>, odd: u8, rest: Seq<u8>)
    requires
        all_digits(digits),
        !is_digit(odd),
    ensures
        i64_fault(seq![]) == IntFault::Empty,
        decimal_value(digits) > 0x7fff_ffff_ffff_ffff ==> i64_fault(digits) == IntFault::TooLarge,
        decimal_value(digits) > 0x8000_0000_0000_0000 ==> i64_fault(seq![0x2du8] + digits)
            == IntFault::TooSmall,
        digits.len() > 0 && decimal_value(digits) <= 0x7fff_ffff_ffff_ffff ==> i64_fault(
            digits.push(odd) + rest,
        ) == IntFault::InvalidDigit,
{
    lemma_digits_end(digits, 0, digits.len() as int);
    let minus = seq![0x2du8] + digits;
    assert forall|k: int| 1 <= k < minus.len() implies is_digit(#[trigger] minus[k]) by {
        assert(is_digit(digits[k - 1]));
    }
    lemma_digits_end(minus, 1, minus.len() as int);
    assert(minus.subrange(1, minus.len() as int) =~= digits);
    assert(digits.subrange(0, digits.len() as int) =~= digits);
    let mixed = digits.push(odd) + rest;
    if digits.len() > 0 {
        assert(is_digit(digits[0]));
        assert forall|k: int| 0 <= k < digits.len() implies is_digit(#[trigger] mixed[k]) by {
            assert(mixed[k] == digits[k]);
        }
        assert(mixed[digits.len() as int] == odd);
        lemma_digits_end(mixed, 0, digits.len() as int);
        assert(mixed.subrange(0, digits.len() as int) =~= digits);
    }
}

proof fn lemma_digits_end(s: Seq<u8>, i: int, end: int)
    requires
        0 <= i <= end <= s.len(),
        forall|k: int| i <= k < end ==> is_digit(#[trigger] s[k]),
        end < s.len() ==> !is_digit(s[end]),
    ensures
        digits_end(s, i) == end,
    decreases end - i,
{
    if i < end {
        assert(is_digit(s[i]));
        lemma_digits_end(s, i + 1, end);
    }
}

/// Hexadecimal text is written with figures and lower-case letters, two for
/// each byte.
pub proof fn lemma_hex_is_lower(s: Seq<u8>)
    ensures
        hex_text(s).len() == 2 * s.len(),
        forall|i: int|
            0 <= i < hex_text(s).len() ==> '0' <= #[trigger] hex_text(s)[i] <= '9' || 'a'
                <= hex_text(s)[i] <= 'f',
{
    assert forall|i: int| 0 <= i < hex_text(s).len() implies '0' <= #[trigger] hex_text(s)[i] <= '9'
        || 'a' <= hex_text(s)[i] <= 'f' by {
        assert(0 <= i / 2 < s.len());
    }
}

} // verus!

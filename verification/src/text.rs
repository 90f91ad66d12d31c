//! Character classes, string comparison, and the decimal / hexadecimal
//! number forms that the CSS value grammar and the style snapshot use.

use vstd::prelude::*;

verus! {

// ---------------------------------------------------------------------------
// Character classes
// ---------------------------------------------------------------------------

/// The Unicode `White_Space` code points, the set `char::is_whitespace`
/// recognizes.
pub open spec fn is_ws(c: char) -> bool {
    c == ' ' || c == '\t' || c == '\n' || c == '\u{0b}' || c == '\u{0c}' || c == '\r'
        || c == '\u{85}' || c == '\u{a0}' || c == '\u{1680}'
        || (c as int >= 0x2000 && c as int <= 0x200a)
        || c == '\u{2028}' || c == '\u{2029}' || c == '\u{202f}' || c == '\u{205f}'
        || c == '\u{3000}'
}

/// Executable test for [`is_ws`].
pub fn ws_char(c: char) -> (r: bool)
    ensures
        r == is_ws(c),
{
    c == ' ' || c == '\t' || c == '\n' || c == '\u{0b}' || c == '\u{0c}' || c == '\r'
        || c == '\u{85}' || c == '\u{a0}' || c == '\u{1680}'
        || (c >= '\u{2000}' && c <= '\u{200a}')
        || c == '\u{2028}' || c == '\u{2029}' || c == '\u{202f}' || c == '\u{205f}'
        || c == '\u{3000}'
}

/// An ASCII decimal digit.
pub open spec fn is_dec_digit(c: char) -> bool {
    '0' <= c && c <= '9'
}

/// Executable test for [`is_dec_digit`].
pub fn is_dec_digit_char(c: char) -> (r: bool)
    ensures
        r == is_dec_digit(c),
{
    '0' <= c && c <= '9'
}

/// An ASCII hexadecimal digit.
pub open spec fn is_hex_digit(c: char) -> bool {
    is_dec_digit(c) || ('a' <= c && c <= 'f') || ('A' <= c && c <= 'F')
}

/// Executable test for [`is_hex_digit`].
pub fn is_hex_digit_char(c: char) -> (r: bool)
    ensures
        r == is_hex_digit(c),
{
    is_dec_digit_char(c) || ('a' <= c && c <= 'f') || ('A' <= c && c <= 'F')
}

/// The numeric value of a decimal digit.
pub open spec fn dec_digit_val(c: char) -> nat
    recommends
        is_dec_digit(c),
{
    (c as int - '0' as int) as nat
}

/// The numeric value of a hexadecimal digit.
pub open spec fn hex_digit_val(c: char) -> nat
    recommends
        is_hex_digit(c),
{
    if is_dec_digit(c) {
        dec_digit_val(c)
    } else if 'a' <= c && c <= 'f' {
        (c as int - 'a' as int + 10) as nat
    } else {
        (c as int - 'A' as int + 10) as nat
    }
}

/// Every character of `s` is a decimal digit.
pub open spec fn all_dec_digits(s: Seq<char>) -> bool {
    forall|i: int| 0 <= i < s.len() ==> is_dec_digit(#[trigger] s[i])
}

/// Every character of `s` is a hexadecimal digit.
pub open spec fn all_hex_digits(s: Seq<char>) -> bool {
    forall|i: int| 0 <= i < s.len() ==> is_hex_digit(#[trigger] s[i])
}

/// The value of a digit string read in base ten.
pub open spec fn dec_val(s: Seq<char>) -> nat
    decreases s.len(),
{
    if s.len() == 0 {
        0
    } else {
        dec_val(s.drop_last()) * 10 + dec_digit_val(s.last())
    }
}

/// The value of a digit string read in base sixteen.
pub open spec fn hex_val(s: Seq<char>) -> nat
    decreases s.len(),
{
    if s.len() == 0 {
        0
    } else {
        hex_val(s.drop_last()) * 16 + hex_digit_val(s.last())
    }
}

// ---------------------------------------------------------------------------
// String comparison
// ---------------------------------------------------------------------------

/// Character-for-character equality of two string slices.
pub fn str_eq(a: &str, b: &str) -> (r: bool)
    ensures
        r == (a@ == b@),
{
    let alen = a.unicode_len();
    let blen = b.unicode_len();
    if alen != blen {
        assert(a@ != b@) by {
            assert(a@.len() != b@.len());
        }
        return false;
    }
    let mut i: usize = 0;
    while i < alen
        invariant
            alen == a@.len(),
            alen == b@.len(),
            0 <= i <= alen,
            forall|j: int| 0 <= j < i ==> a@[j] == b@[j],
        decreases alen - i,
    {
        if a.get_char(i) != b.get_char(i) {
            return false;
        }
        i = i + 1;
    }
    proof {
        assert(a@ =~= b@);
    }
    true
}

// ---------------------------------------------------------------------------
// Parsing numbers, as `str::parse` and `from_str_radix` read them
// ---------------------------------------------------------------------------

/// What `str::parse::<u16>` returns: an optional `+`, then at least one
/// decimal digit, with the value within range.
pub open spec fn spec_parse_u16(s: Seq<char>) -> Option<u16> {
    let body = if s.len() > 0 && s[0] == '+' {
        s.subrange(1, s.len() as int)
    } else {
        s
    };
    if body.len() > 0 && all_dec_digits(body) && dec_val(body) <= 0xffff {
        Some(dec_val(body) as u16)
    } else {
        None
    }
}

/// What `str::parse::<i16>` returns: an optional sign, then at least one
/// decimal digit, with the value within range.
pub open spec fn spec_parse_i16(s: Seq<char>) -> Option<i16> {
    if s.len() > 0 && s[0] == '-' {
        let body = s.subrange(1, s.len() as int);
        if body.len() > 0 && all_dec_digits(body) && dec_val(body) <= 0x8000 {
            Some((-(dec_val(body) as int)) as i16)
        } else {
            None
        }
    } else {
        let body = if s.len() > 0 && s[0] == '+' {
            s.subrange(1, s.len() as int)
        } else {
            s
        };
        if body.len() > 0 && all_dec_digits(body) && dec_val(body) <= 0x7fff {
            Some(dec_val(body) as i16)
        } else {
            None
        }
    }
}

/// What `u32::from_str_radix(s, 16)` returns: an optional `+`, then at
/// least one hexadecimal digit, with the value within range.
pub open spec fn spec_parse_hex_u32(s: Seq<char>) -> Option<u32> {
    let body = if s.len() > 0 && s[0] == '+' {
        s.subrange(1, s.len() as int)
    } else {
        s
    };
    if body.len() > 0 && all_hex_digits(body) && hex_val(body) <= 0xffff_ffff {
        Some(hex_val(body) as u32)
    } else {
        None
    }
}

proof fn lemma_dec_val_extend(s: Seq<char>, i: int)
    requires
        0 <= i < s.len(),
    ensures
        dec_val(s.subrange(0, i + 1)) == dec_val(s.subrange(0, i)) * 10 + dec_digit_val(s[i]),
{
    let t = s.subrange(0, i + 1);
    assert(t.drop_last() =~= s.subrange(0, i));
    assert(t.last() == s[i]);
}

proof fn lemma_hex_val_extend(s: Seq<char>, i: int)
    requires
        0 <= i < s.len(),
    ensures
        hex_val(s.subrange(0, i + 1)) == hex_val(s.subrange(0, i)) * 16 + hex_digit_val(s[i]),
{
    let t = s.subrange(0, i + 1);
    assert(t.drop_last() =~= s.subrange(0, i));
    assert(t.last() == s[i]);
}

proof fn lemma_dec_val_grows(s: Seq<char>, i: int, bound: nat)
    requires
        0 <= i < s.len(),
        dec_val(s.subrange(0, i)) > bound,
    ensures
        dec_val(s.subrange(0, i + 1)) > bound,
{
    lemma_dec_val_extend(s, i);
}

/// Reads the decimal digits of `s` between `from` and `s`'s end, after an
/// optional sign has been taken off by the caller. Returns the value, or
/// `None` on a non-digit, an empty run, or a value above `bound`.
fn parse_dec_body(s: &str, from: usize, bound: u32) -> (r: Option<u32>)
    requires
        from <= s@.len(),
        bound <= 0xffff,
    ensures
        ({
            let body = s@.subrange(from as int, s@.len() as int);
            if body.len() > 0 && all_dec_digits(body) && dec_val(body) <= bound {
                r == Some(dec_val(body) as u32)
            } else {
                r is None
            }
        }),
{
    let len = s.unicode_len();
    if from == len {
        return None;
    }
    let ghost body = s@.subrange(from as int, s@.len() as int);
    let mut acc: u32 = 0;
    let mut i: usize = from;
    while i < len
        invariant
            from <= i <= len,
            len == s@.len(),
            from < len,
            body == s@.subrange(from as int, s@.len() as int),
            all_dec_digits(body.subrange(0, i - from)),
            bound <= 0xffff,
            dec_val(body.subrange(0, i - from)) <= bound ==> acc == dec_val(
                body.subrange(0, i - from),
            ),
            dec_val(body.subrange(0, i - from)) > bound ==> acc > bound,
            acc <= 0x1_0000,
        decreases len - i,
    {
        let c = s.get_char(i);
        proof {
            assert(body[i - from] == s@[i as int]);
        }
        if !is_dec_digit_char(c) {
            proof {
                assert(!all_dec_digits(body));
            }
            return None;
        }
        let d: u32 = (c as u32) - 48;
        proof {
            assert(d == dec_digit_val(c));
            lemma_dec_val_extend(body, i - from);
            if dec_val(body.subrange(0, i - from)) > bound {
                lemma_dec_val_grows(body, i - from, bound as nat);
            }
        }
        let big: u32 = acc * 10 + d;
        acc = if big > 0x1_0000 {
            0x1_0000
        } else {
            big
        };
        proof {
            let pre = dec_val(body.subrange(0, i - from));
            let post = dec_val(body.subrange(0, (i + 1) - from));
            assert(post == pre * 10 + dec_digit_val(c));
            if post <= bound {
                assert(acc == post);
            } else {
                assert(acc > bound);
            }
        }
        i = i + 1;
    }
    proof {
        assert(body.subrange(0, i - from) =~= body);
    }
    if acc > bound {
        None
    } else {
        Some(acc)
    }
}

/// What `str::parse::<u16>` returns on `s`.
pub fn parse_u16(s: &str) -> (r: Option<u16>)
    ensures
        r == spec_parse_u16(s@),
{
    let len = s.unicode_len();
    let from: usize = if len > 0 && s.get_char(0) == '+' {
        1
    } else {
        0
    };
    proof {
        if !(s@.len() > 0 && s@[0] == '+') {
            assert(s@.subrange(0, s@.len() as int) =~= s@);
        }
    }
    match parse_dec_body(s, from, 0xffff) {
        Some(v) => Some(v as u16),
        None => None,
    }
}

/// What `str::parse::<i16>` returns on `s`.
pub fn parse_i16(s: &str) -> (r: Option<i16>)
    ensures
        r == spec_parse_i16(s@),
{
    let len = s.unicode_len();
    if len > 0 && s.get_char(0) == '-' {
        match parse_dec_body(s, 1, 0x8000) {
            Some(v) => Some((-(v as i32)) as i16),
            None => None,
        }
    } else {
        let from: usize = if len > 0 && s.get_char(0) == '+' {
            1
        } else {
            0
        };
        proof {
            if !(s@.len() > 0 && s@[0] == '+') {
                assert(s@.subrange(0, s@.len() as int) =~= s@);
            }
        }
        match parse_dec_body(s, from, 0x7fff) {
            Some(v) => Some(v as i16),
            None => None,
        }
    }
}

/// What `u32::from_str_radix(s, 16)` returns on `s`.
pub fn parse_hex_u32(s: &str) -> (r: Option<u32>)
    ensures
        r == spec_parse_hex_u32(s@),
{
    let len = s.unicode_len();
    let from: usize = if len > 0 && s.get_char(0) == '+' {
        1
    } else {
        0
    };
    proof {
        if !(s@.len() > 0 && s@[0] == '+') {
            assert(s@.subrange(0, s@.len() as int) =~= s@);
        }
    }
    if from == len {
        return None;
    }
    let ghost body = s@.subrange(from as int, s@.len() as int);
    let mut acc: u64 = 0;
    let mut i: usize = from;
    while i < len
        invariant
            from <= i <= len,
            len == s@.len(),
            from < len,
            from == (if s@.len() > 0 && s@[0] == '+' { 1int } else { 0int }),
            from == 0 ==> body == s@,
            body == s@.subrange(from as int, s@.len() as int),
            all_hex_digits(body.subrange(0, i - from)),
            hex_val(body.subrange(0, i - from)) <= 0xffff_ffff ==> acc == hex_val(
                body.subrange(0, i - from),
            ),
            hex_val(body.subrange(0, i - from)) > 0xffff_ffff ==> acc > 0xffff_ffff,
            acc <= 0x1_0000_0000,
        decreases len - i,
    {
        let c = s.get_char(i);
        proof {
            assert(body[i - from] == s@[i as int]);
        }
        if !is_hex_digit_char(c) {
            proof {
                assert(!all_hex_digits(body));
            }
            return None;
        }
        let d: u64 = if '0' <= c && c <= '9' {
            (c as u64) - 48
        } else if 'a' <= c && c <= 'f' {
            (c as u64) - 87
        } else {
            (c as u64) - 55
        };
        proof {
            assert(d == hex_digit_val(c));
            lemma_hex_val_extend(body, i - from);
        }
        let big: u64 = acc * 16 + d;
        acc = if big > 0x1_0000_0000 {
            0x1_0000_0000
        } else {
            big
        };
        proof {
            let pre = hex_val(body.subrange(0, i - from));
            let post = hex_val(body.subrange(0, (i + 1) - from));
            assert(post == pre * 16 + hex_digit_val(c));
            if pre > 0xffff_ffff {
                assert(post > 0xffff_ffff);
            }
        }
        i = i + 1;
    }
    proof {
        assert(body.subrange(0, i - from) =~= body);
    }
    if acc > 0xffff_ffff {
        None
    } else {
        Some(acc as u32)
    }
}

// ---------------------------------------------------------------------------
// Formatting numbers in decimal
// ---------------------------------------------------------------------------

/// The decimal digit with value `d`.
pub open spec fn dec_digit_char(d: nat) -> char
    recommends
        d < 10,
{
    if d == 0 {
        '0'
    } else if d == 1 {
        '1'
    } else if d == 2 {
        '2'
    } else if d == 3 {
        '3'
    } else if d == 4 {
        '4'
    } else if d == 5 {
        '5'
    } else if d == 6 {
        '6'
    } else if d == 7 {
        '7'
    } else if d == 8 {
        '8'
    } else {
        '9'
    }
}

/// The canonical decimal form of `n`: no sign, no leading zeros.
pub open spec fn spec_dec(n: nat) -> Seq<char>
    decreases n,
{
    if n < 10 {
        seq![dec_digit_char(n)]
    } else {
        spec_dec(n / 10).push(dec_digit_char(n % 10))
    }
}

/// The canonical decimal form of a signed value: a `-` before the
/// magnitude when the value is negative.
pub open spec fn spec_dec_int(n: int) -> Seq<char> {
    if n >= 0 {
        spec_dec(n as nat)
    } else {
        seq!['-'] + spec_dec((-n) as nat)
    }
}

/// A one-character string holding the decimal digit with value `d`.
fn dec_digit_str(d: u32) -> (r: &'static str)
    requires
        d < 10,
    ensures
        r@ =~= seq![dec_digit_char(d as nat)],
{
    proof {
        reveal_strlit("0");
        reveal_strlit("1");
        reveal_strlit("2");
        reveal_strlit("3");
        reveal_strlit("4");
        reveal_strlit("5");
        reveal_strlit("6");
        reveal_strlit("7");
        reveal_strlit("8");
        reveal_strlit("9");
    }
    if d == 0 {
        "0"
    } else if d == 1 {
        "1"
    } else if d == 2 {
        "2"
    } else if d == 3 {
        "3"
    } else if d == 4 {
        "4"
    } else if d == 5 {
        "5"
    } else if d == 6 {
        "6"
    } else if d == 7 {
        "7"
    } else if d == 8 {
        "8"
    } else {
        "9"
    }
}

/// Formats `n` in decimal.
pub fn u32_to_dec(n: u32) -> (r: String)
    ensures
        r@ == spec_dec(n as nat),
    decreases n,
{
    if n < 10 {
        String::from_str(dec_digit_str(n))
    } else {
        let mut s = u32_to_dec(n / 10);
        s.append(dec_digit_str(n % 10));
        proof {
            assert(s@ =~= spec_dec(n as nat));
        }
        s
    }
}

/// Formats a signed value in decimal.
pub fn i16_to_dec(n: i16) -> (r: String)
    ensures
        r@ == spec_dec_int(n as int),
{
    if n >= 0 {
        u32_to_dec(n as u32)
    } else {
        let mag: u32 = (-(n as i32)) as u32;
        let mut s = String::from_str("-");
        let rest = u32_to_dec(mag);
        s.append(rest.as_str());
        proof {
            reveal_strlit("-");
            assert(s@ =~= spec_dec_int(n as int));
        }
        s
    }
}

// ---------------------------------------------------------------------------
// Round trips between the canonical decimal form and parsing
// ---------------------------------------------------------------------------

proof fn lemma_dec_digit_char_val(d: nat)
    requires
        d < 10,
    ensures
        is_dec_digit(dec_digit_char(d)),
        dec_digit_val(dec_digit_char(d)) == d,
{
}

/// The canonical decimal form is made of digits and reads back to the same
/// value.
pub proof fn lemma_dec_form(n: nat)
    ensures
        spec_dec(n).len() >= 1,
        all_dec_digits(spec_dec(n)),
        dec_val(spec_dec(n)) == n,
    decreases n,
{
    if n < 10 {
        lemma_dec_digit_char_val(n);
        assert(spec_dec(n) =~= seq![dec_digit_char(n)]);
        assert(spec_dec(n).drop_last() =~= Seq::<char>::empty());
        assert(dec_val(Seq::<char>::empty()) == 0);
        assert(spec_dec(n).last() == dec_digit_char(n));
        assert(dec_val(spec_dec(n)) == dec_val(spec_dec(n).drop_last()) * 10 + dec_digit_val(
            spec_dec(n).last(),
        ));
    } else {
        lemma_dec_digit_char_val(n % 10);
        lemma_dec_form(n / 10);
        let s = spec_dec(n);
        assert(s.drop_last() =~= spec_dec(n / 10));
        assert(s.last() == dec_digit_char(n % 10));
        assert(dec_val(s) == (n / 10) * 10 + n % 10);
        assert((n / 10) * 10 + n % 10 == n) by (nonlinear_arith);
        assert forall|i: int| 0 <= i < s.len() implies is_dec_digit(#[trigger] s[i]) by {
            if i < s.len() - 1 {
                assert(s[i] == spec_dec(n / 10)[i]);
            }
        }
    }
}

/// Parsing the canonical decimal form of an in-range value gives the value
/// back.
pub proof fn lemma_parse_u16_dec(n: nat)
    requires
        n <= 0xffff,
    ensures
        spec_parse_u16(spec_dec(n)) == Some(n as u16),
{
    lemma_dec_form(n);
    let s = spec_dec(n);
    assert(s[0] != '+') by {
        assert(is_dec_digit(s[0]));
    }
}

/// Parsing the canonical signed decimal form of an in-range value gives the
/// value back.
pub proof fn lemma_parse_i16_dec(n: i16)
    ensures
        spec_parse_i16(spec_dec_int(n as int)) == Some(n),
{
    if n >= 0 {
        lemma_dec_form(n as nat);
        let s = spec_dec(n as nat);
        assert(is_dec_digit(s[0]));
        assert(s[0] != '-' && s[0] != '+');
    } else {
        let mag = (-(n as int)) as nat;
        lemma_dec_form(mag);
        let s = spec_dec_int(n as int);
        assert(s[0] == '-');
        assert(s.subrange(1, s.len() as int) =~= spec_dec(mag));
    }
}

// ---------------------------------------------------------------------------
// Lowercasing, through the standard library
// ---------------------------------------------------------------------------

/// What `str::to_lowercase` returns; the result depends on the input
/// characters alone.
pub uninterp spec fn lower_of(s: Seq<char>) -> Seq<char>;

/// Relies on `str::to_lowercase`: the Unicode lowercase form of the input,
/// a function of the input characters alone.
#[verifier::external_body]
pub fn lowercase(s: &str) -> (r: String)
    ensures
        r@ == lower_of(s@),
{
    s.to_lowercase()
}

} // verus!

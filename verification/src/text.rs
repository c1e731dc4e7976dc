//! Text helpers: whitespace, decimal numbers and piecewise strings.
//!
//! Strings are modelled by the sequence of their characters.

use vstd::prelude::*;
use vstd::utf8::{encode_utf8, encode_utf8_decode_utf8};

verus! {

/// The characters of an optional string.
pub open spec fn opt_text(value: Option<String>) -> Option<Seq<char>> {
    match value {
        Some(text) => Some(text@),
        None => None,
    }
}

/// The characters of an optional borrowed string.
pub open spec fn opt_str(value: Option<&str>) -> Option<Seq<char>> {
    match value {
        Some(text) => Some(text@),
        None => None,
    }
}

/// A character with the Unicode property `White_Space`.
pub open spec fn is_space(c: char) -> bool {
    ||| '\u{9}' <= c <= '\u{d}'
    ||| c == '\u{20}'
    ||| c == '\u{85}'
    ||| c == '\u{a0}'
    ||| c == '\u{1680}'
    ||| '\u{2000}' <= c <= '\u{200a}'
    ||| c == '\u{2028}'
    ||| c == '\u{2029}'
    ||| c == '\u{202f}'
    ||| c == '\u{205f}'
    ||| c == '\u{3000}'
}

/// Whether a text holds nothing but white space.
pub open spec fn is_blank(s: Seq<char>) -> bool {
    forall|i: int| 0 <= i < s.len() ==> is_space(#[trigger] s[i])
}

/// A text without its leading and trailing white space.
pub open spec fn trimmed(s: Seq<char>) -> Seq<char>
    decreases s.len(),
{
    if s.len() == 0 {
        s
    } else if is_space(s[0]) {
        trimmed(s.drop_first())
    } else if is_space(s.last()) {
        trimmed(s.drop_last())
    } else {
        s
    }
}

/// Whether `c` is an ASCII decimal digit.
pub open spec fn is_digit(c: char) -> bool {
    '0' <= c <= '9'
}

pub open spec fn all_digits(s: Seq<char>) -> bool {
    forall|i: int| 0 <= i < s.len() ==> is_digit(#[trigger] s[i])
}

pub open spec fn digit_value(c: char) -> int {
    c as u32 - '0' as u32
}

/// The number that a row of decimal digits stands for.
pub open spec fn decimal_value(s: Seq<char>) -> int
    decreases s.len(),
{
    if s.len() == 0 {
        0
    } else {
        decimal_value(s.drop_last()) * 10 + digit_value(s.last())
    }
}

/// A text without one leading `+`.
pub open spec fn without_plus(s: Seq<char>) -> Seq<char> {
    if s.len() > 0 && s[0] == '+' {
        s.drop_first()
    } else {
        s
    }
}

/// The non-negative integer up to `max` that a text denotes: an optional `+`
/// followed by at least one decimal digit and nothing else.
pub open spec fn parsed_unsigned(s: Seq<char>, max: int) -> Option<int> {
    let digits = without_plus(s);
    if digits.len() > 0 && all_digits(digits) && decimal_value(digits) <= max {
        Some(decimal_value(digits))
    } else {
        None
    }
}

/// The integer that a text denotes, within 64 bits: an optional sign followed by at least
/// one decimal digit and nothing else.
pub open spec fn parsed_signed(s: Seq<char>) -> Option<int> {
    if s.len() > 0 && s[0] == '-' {
        let digits = s.drop_first();
        if digits.len() > 0 && all_digits(digits) && decimal_value(digits) <= -(i64::MIN as int) {
            Some(-decimal_value(digits))
        } else {
            None
        }
    } else {
        parsed_unsigned(s, i64::MAX as int)
    }
}

/// The decimal digit of `value`.
pub open spec fn digit_char(value: int) -> char {
    if value == 0 {
        '0'
    } else if value == 1 {
        '1'
    } else if value == 2 {
        '2'
    } else if value == 3 {
        '3'
    } else if value == 4 {
        '4'
    } else if value == 5 {
        '5'
    } else if value == 6 {
        '6'
    } else if value == 7 {
        '7'
    } else if value == 8 {
        '8'
    } else {
        '9'
    }
}

/// The decimal notation of `value`, without leading zeros.
pub open spec fn decimal_text(value: nat) -> Seq<char>
    decreases value,
{
    if value < 10 {
        seq![digit_char(value as int)]
    } else {
        decimal_text(value / 10).push(digit_char((value % 10) as int))
    }
}

/// What a number prints as, it reads back as.
pub proof fn law_decimal_round_trip(value: nat)
    ensures
        parsed_unsigned(decimal_text(value), value as int) == Some(value as int),
{
    lemma_decimal_text(value);
    assert(decimal_text(value)[0] != '+');
}

proof fn lemma_decimal_text(value: nat)
    ensures
        decimal_text(value).len() > 0,
        all_digits(decimal_text(value)),
        decimal_value(decimal_text(value)) == value,
    decreases value,
{
    reveal_with_fuel(decimal_value, 2);
    let text = decimal_text(value);
    if value < 10 {
        assert(text.drop_last() =~= Seq::<char>::empty());
        assert(digit_value(text.last()) == value);
    } else {
        lemma_decimal_text(value / 10);
        assert(text.drop_last() =~= decimal_text(value / 10));
        assert(digit_value(text.last()) == value % 10);
    }
}

/// Digits added on the right never make the number smaller.
pub(crate) proof fn lemma_decimal_prefix(s: Seq<char>, n: int)
    requires
        0 <= n <= s.len(),
        all_digits(s),
    ensures
        0 <= decimal_value(s.take(n)) <= decimal_value(s),
    decreases s.len(),
{
    if n == s.len() {
        assert(s.take(n) =~= s);
        if s.len() > 0 {
            lemma_decimal_prefix(s.drop_last(), n - 1);
        }
    } else {
        lemma_decimal_prefix(s.drop_last(), n);
        assert(s.drop_last().take(n) =~= s.take(n));
    }
}

/// A text is blank exactly when trimming leaves nothing of it.
pub proof fn law_blank_trims_to_nothing(s: Seq<char>)
    ensures
        is_blank(s) <==> trimmed(s).len() == 0,
    decreases s.len(),
{
    if s.len() > 0 {
        if is_space(s[0]) {
            law_blank_trims_to_nothing(s.drop_first());
            if is_blank(s.drop_first()) {
                assert forall|i: int| 0 <= i < s.len() implies is_space(#[trigger] s[i]) by {
                    if i > 0 {
                        assert(s[i] == s.drop_first()[i - 1]);
                    }
                }
            } else {
                let i = choose|i: int|
                    0 <= i < s.drop_first().len() && !is_space(#[trigger] s.drop_first()[i]);
                assert(!is_space(s[i + 1]));
            }
        } else if is_space(s.last()) {
            law_blank_trims_to_nothing(s.drop_last());
            assert(s.drop_last()[0] == s[0]);
        }
    }
}

/// The characters of `s`, in order.
pub fn chars_of(s: &str) -> (r: Vec<char>)
    ensures
        r@ == s@,
{
    broadcast use vstd::string::axiom_spec_iter;
    let mut out: Vec<char> = Vec::new();
    for c in it: s.chars()
        invariant
            it.seq() == s@,
            out@ == s@.take(it.index() as int),
    {
        out.push(c);
    }
    out
}

/// A string made of the given characters: `String::from_iter` of std, which
/// collects the characters of a slice in order.
#[verifier::external_body]
pub(crate) fn string_of(chars: &[char]) -> (r: String)
    ensures
        r@ == chars@,
{
    String::from_iter(chars)
}

/// What std's `Debug` prints for a string: the text in double quotes with the
/// characters that need it escaped.
pub uninterp spec fn debug_text(text: Seq<char>) -> Seq<char>;

/// A string in the quoted form of std's `Debug` for `str`. Which characters are
/// escaped, and how, is left to std and named by `debug_text`.
#[verifier::external_body]
pub(crate) fn quoted(text: &str) -> (r: String)
    ensures
        r@ == debug_text(text@),
{
    format!("{:?}", text)
}

/// Whether `c` is Unicode white space.
pub fn is_whitespace(c: char) -> (r: bool)
    ensures
        r == is_space(c),
{
    ('\u{9}' <= c && c <= '\u{d}') || c == '\u{20}' || c == '\u{85}' || c == '\u{a0}' || c
        == '\u{1680}' || ('\u{2000}' <= c && c <= '\u{200a}') || c == '\u{2028}' || c == '\u{2029}'
        || c == '\u{202f}' || c == '\u{205f}' || c == '\u{3000}'
}

/// Remove leading and trailing white space.
pub fn trim(s: &str) -> (r: String)
    ensures
        r@ == trimmed(s@),
{
    let chars = chars_of(s);
    let mut from: usize = 0;
    let mut to: usize = chars.len();
    let mut done: bool = false;
    assert(chars@.subrange(0, to as int) =~= chars@);
    while !done
        invariant
            from <= to <= chars@.len(),
            trimmed(chars@) == trimmed(chars@.subrange(from as int, to as int)),
            done ==> trimmed(chars@) == chars@.subrange(from as int, to as int),
        decreases (if done { 0int } else { to - from + 1 }),
    {
        let ghost middle = chars@.subrange(from as int, to as int);
        if from == to {
            done = true;
        } else if is_whitespace(chars[from]) {
            from += 1;
            assert(middle.drop_first() =~= chars@.subrange(from as int, to as int));
        } else if is_whitespace(chars[to - 1]) {
            to -= 1;
            assert(middle.drop_last() =~= chars@.subrange(from as int, to as int));
        } else {
            done = true;
        }
    }
    string_of(vstd::slice::slice_subrange(chars.as_slice(), from, to))
}

/// Whether `chars` holds nothing but white space.
pub fn blank(chars: &[char]) -> (r: bool)
    ensures
        r == is_blank(chars@),
{
    let mut i: usize = 0;
    while i < chars.len()
        invariant
            i <= chars@.len(),
            forall|j: int| 0 <= j < i ==> is_space(#[trigger] chars@[j]),
        decreases chars@.len() - i,
    {
        if !is_whitespace(chars[i]) {
            return false;
        }
        i += 1;
    }
    true
}

/// Read the characters from position `from` on as a decimal number up to `max`.
fn digits_from(chars: &Vec<char>, from: usize, max: u64) -> (r: Option<u64>)
    requires
        from <= chars@.len(),
    ensures
        ({
            let digits = chars@.skip(from as int);
            if digits.len() > 0 && all_digits(digits) && decimal_value(digits) <= max {
                r is Some && r->0 == decimal_value(digits)
            } else {
                r is None
            }
        }),
{
    let ghost digits = chars@.skip(from as int);
    if from == chars.len() {
        return None;
    }
    let mut value: u64 = 0;
    let mut i: usize = from;
    assert(digits.take(0) =~= Seq::<char>::empty());
    while i < chars.len()
        invariant
            from <= i <= chars@.len(),
            digits == chars@.skip(from as int),
            all_digits(digits.take(i - from)),
            value == decimal_value(digits.take(i - from)),
            value <= max,
        decreases chars@.len() - i,
    {
        let c: char = chars[i];
        let ghost seen = digits.take(i - from);
        let ghost next = digits.take(i + 1 - from);
        assert(next.drop_last() =~= seen);
        assert(next.last() == c);
        if c < '0' || c > '9' {
            assert(!is_digit(digits[i - from]));
            return None;
        }
        assert(all_digits(next)) by {
            assert forall|j: int| 0 <= j < next.len() implies is_digit(#[trigger] next[j]) by {
                if j < seen.len() {
                    assert(next[j] == seen[j]);
                }
            }
        }
        let digit: u64 = (c as u32 - '0' as u32) as u64;
        assert(decimal_value(next) == value * 10 + digit);
        if value > (u64::MAX - digit) / 10 || value * 10 + digit > max {
            proof {
                if all_digits(digits) {
                    lemma_decimal_prefix(digits, i + 1 - from);
                }
            }
            return None;
        }
        value = value * 10 + digit;
        i += 1;
    }
    assert(digits.take(i - from) =~= digits);
    Some(value)
}

/// Parse a non-negative integer up to `max`, as std parses an unsigned integer.
pub fn parse_unsigned(s: &str, max: u64) -> (r: Option<u64>)
    ensures
        match parsed_unsigned(s@, max as int) {
            Some(value) => r is Some && r->0 == value,
            None => r is None,
        },
{
    let chars = chars_of(s);
    if chars.len() > 0 && chars[0] == '+' {
        assert(chars@.skip(1) =~= s@.drop_first());
        digits_from(&chars, 1, max)
    } else {
        assert(chars@.skip(0) =~= s@);
        digits_from(&chars, 0, max)
    }
}

/// Parse a 64-bit integer, as std does.
pub fn parse_signed(s: &str) -> (r: Option<i64>)
    ensures
        match parsed_signed(s@) {
            Some(value) => r is Some && r->0 == value,
            None => r is None,
        },
{
    let chars = chars_of(s);
    if chars.len() > 0 && chars[0] == '-' {
        assert(chars@.skip(1) =~= s@.drop_first());
        match digits_from(&chars, 1, 9_223_372_036_854_775_808) {
            Some(value) => if value == 9_223_372_036_854_775_808 {
                Some(i64::MIN)
            } else {
                Some(-(value as i64))
            },
            None => None,
        }
    } else {
        match parse_unsigned(s, i64::MAX as u64) {
            Some(value) => Some(value as i64),
            None => None,
        }
    }
}

/// The decimal digit of `value` as a string.
fn digit_str(value: u128) -> (r: &'static str)
    requires
        value < 10,
    ensures
        r@ == seq![digit_char(value as int)],
{
    proof {
        reveal_strlit("0");
        reveal_strlit("1");
        reveal_strlit("2");
        reveal_strlit("3");
        reveal_strlit("4");
        reveal_strlit("5");
        reveal_strlit("6");
        reveal_strlit("7");
        reveal_strlit("8");
        reveal_strlit("9");
    }
    if value == 0 {
        "0"
    } else if value == 1 {
        "1"
    } else if value == 2 {
        "2"
    } else if value == 3 {
        "3"
    } else if value == 4 {
        "4"
    } else if value == 5 {
        "5"
    } else if value == 6 {
        "6"
    } else if value == 7 {
        "7"
    } else if value == 8 {
        "8"
    } else {
        "9"
    }
}

/// Write `value` in decimal notation.
pub fn decimal(value: u128) -> (r: String)
    ensures
        r@ == decimal_text(value as nat),
    decreases value,
{
    if value < 10 {
        digit_str(value).to_owned()
    } else {
        let mut out = decimal(value / 10);
        out.append(digit_str(value % 10));
        out
    }
}

/// Whether two strings hold the same characters.
pub fn same_text(a: &str, b: &str) -> (r: bool)
    ensures
        r == (a@ == b@),
{
    let left = a.as_bytes();
    let right = b.as_bytes();
    proof {
        encode_utf8_decode_utf8(a@);
        encode_utf8_decode_utf8(b@);
    }
    if left.len() != right.len() {
        return false;
    }
    let mut i: usize = 0;
    while i < left.len()
        invariant
            i <= left@.len(),
            left@.len() == right@.len(),
            left@ == encode_utf8(a@),
            right@ == encode_utf8(b@),
            forall|j: int| 0 <= j < i ==> left@[j] == right@[j],
        decreases left@.len() - i,
    {
        if left[i] != right[i] {
            return false;
        }
        i += 1;
    }
    assert(left@ =~= right@);
    true
}

/// The text behind `prefix`, when a text starts with it.
pub open spec fn stripped(s: Seq<char>, prefix: Seq<char>) -> Option<Seq<char>> {
    if prefix.len() <= s.len() && s.take(prefix.len() as int) == prefix {
        Some(s.skip(prefix.len() as int))
    } else {
        None
    }
}

/// Remove `prefix` from the front of `s`, when it stands there.
pub fn strip_prefix(s: &str, prefix: &str) -> (r: Option<String>)
    ensures
        opt_text(r) == stripped(s@, prefix@),
{
    let chars = chars_of(s);
    let wanted = chars_of(prefix);
    if wanted.len() > chars.len() {
        return None;
    }
    let mut i: usize = 0;
    while i < wanted.len()
        invariant
            i <= wanted@.len() <= chars@.len(),
            chars@ == s@,
            wanted@ == prefix@,
            forall|j: int| 0 <= j < i ==> chars@[j] == wanted@[j],
        decreases wanted@.len() - i,
    {
        if chars[i] != wanted[i] {
            assert(s@.take(prefix@.len() as int)[i as int] != prefix@[i as int]);
            return None;
        }
        i += 1;
    }
    assert(s@.take(prefix@.len() as int) =~= prefix@);
    let rest = vstd::slice::slice_subrange(chars.as_slice(), wanted.len(), chars.len());
    assert(rest@ =~= s@.skip(prefix@.len() as int));
    Some(string_of(rest))
}

/// `c` with an ASCII capital letter made small.
pub open spec fn lower_char(c: char) -> char {
    if 'A' <= c <= 'Z' {
        (c as u32 + 32) as char
    } else {
        c
    }
}

/// A text with its ASCII capital letters made small.
pub open spec fn lowered(s: Seq<char>) -> Seq<char> {
    Seq::new(s.len(), |i: int| lower_char(s[i]))
}

/// Make the ASCII capital letters of `s` small.
pub fn to_lower(s: &str) -> (r: String)
    ensures
        r@ == lowered(s@),
{
    let chars = chars_of(s);
    let mut out: Vec<char> = Vec::new();
    let mut i: usize = 0;
    while i < chars.len()
        invariant
            i <= chars@.len(),
            chars@ == s@,
            out@.len() == i,
            forall|j: int| 0 <= j < i ==> out@[j] == lower_char(s@[j]),
        decreases chars@.len() - i,
    {
        let c: char = chars[i];
        if 'A' <= c && c <= 'Z' {
            out.push((c as u8 + 32) as char);
        } else {
            out.push(c);
        }
        i += 1;
    }
    assert(out@ =~= lowered(s@));
    string_of(out.as_slice())
}

/// Trimming takes away white space at both ends and nothing else: what is left is a part of
/// the text, everything before and behind it is white space, and it neither starts nor ends
/// with any.
pub proof fn law_trimming_takes_only_the_white_space_at_the_ends(s: Seq<char>)
    ensures
        exists|from: int, to: int|
            {
                &&& 0 <= from <= to <= s.len()
                &&& trimmed(s) == #[trigger] s.subrange(from, to)
                &&& forall|i: int|
                    0 <= i < s.len() && (i < from || i >= to) ==> is_space(#[trigger] s[i])
            },
        trimmed(s).len() > 0 ==> !is_space(trimmed(s)[0]) && !is_space(trimmed(s).last()),
{
    let (from, to) = lemma_trimmed_part(s);
    assert(trimmed(s) == s.subrange(from, to));
}

/// Where the part stands that trimming leaves.
proof fn lemma_trimmed_part(s: Seq<char>) -> (r: (int, int))
    ensures
        0 <= r.0 <= r.1 <= s.len(),
        trimmed(s) == s.subrange(r.0, r.1),
        forall|i: int| 0 <= i < s.len() && (i < r.0 || i >= r.1) ==> is_space(#[trigger] s[i]),
        trimmed(s).len() > 0 ==> !is_space(trimmed(s)[0]) && !is_space(trimmed(s).last()),
    decreases s.len(),
{
    if s.len() == 0 {
        assert(s.subrange(0, 0) =~= s);
        (0, 0)
    } else if is_space(s[0]) {
        let rest = s.drop_first();
        let (from, to) = lemma_trimmed_part(rest);
        assert(s.subrange(from + 1, to + 1) =~= rest.subrange(from, to));
        assert forall|i: int| 0 <= i < s.len() && (i < from + 1 || i >= to + 1) implies is_space(
            #[trigger] s[i],
        ) by {
            if i > 0 {
                assert(is_space(rest[i - 1]));
            }
        }
        (from + 1, to + 1)
    } else if is_space(s.last()) {
        let rest = s.drop_last();
        let (from, to) = lemma_trimmed_part(rest);
        assert(s.subrange(from, to) =~= rest.subrange(from, to));
        assert forall|i: int| 0 <= i < s.len() && (i < from || i >= to) implies is_space(
            #[trigger] s[i],
        ) by {
            if i < s.len() - 1 {
                assert(is_space(rest[i]));
            }
        }
        (from, to)
    } else {
        assert(s.subrange(0, s.len() as int) =~= s);
        (0, s.len() as int)
    }
}

/// White space by code point: among ASCII the tab, the line breaks and the blank, beyond it
/// the next line, the no-break space and the spaces and separators of the general
/// punctuation and of other scripts.
pub proof fn law_white_space_by_code_point(c: char)
    ensures
        (c as u32) < 0x80 ==> (is_space(c) <==> c == '\t' || c == '\n' || c as u32 == 0xb || c as u32
            == 0xc || c == '\r' || c == ' '),
        c as u32 >= 0x80 && is_space(c) ==> c as u32 == 0x85 || c as u32 == 0xa0 || c as u32
            == 0x1680 || 0x2000 <= c as u32 <= 0x205f || c as u32 == 0x3000,
        c as u32 == 0x85 || c as u32 == 0xa0 || c as u32 == 0x1680 || c as u32 == 0x3000
            ==> is_space(c),
        0x2000 <= c as u32 <= 0x205f ==> (is_space(c) <==> c as u32 <= 0x200a || c as u32 == 0x2028
            || c as u32 == 0x2029 || c as u32 == 0x202f || c as u32 == 0x205f),
{
}

/// Reading a number digit by digit: a digit behind a number makes it ten times as large and
/// adds the digit, as long as the result stays within the limit; anything but a digit makes
/// the text no number, and no digit makes one of a text that is none. One plus sign may stand
/// in front.
pub proof fn law_numbers_are_read_digit_by_digit(s: Seq<char>, c: char, max: int)
    requires
        max >= 0,
    ensures
        parsed_unsigned(Seq::empty(), max) is None,
        '0' <= c <= '9' ==> parsed_unsigned(seq![c], max) == if c as u32 - 48 <= max {
            Some(c as u32 - 48)
        } else {
            None::<int>
        },
        !('0' <= c <= '9') ==> parsed_unsigned(s.push(c), max) is None,
        s.len() > 0 && s != seq!['+'] && '0' <= c <= '9' ==> parsed_unsigned(s.push(c), max)
            == match parsed_unsigned(s, max) {
            Some(value) => if value * 10 + (c as u32 - 48) <= max {
                Some(value * 10 + (c as u32 - 48))
            } else {
                None
            },
            None => None,
        },
        s.len() > 0 && s[0] != '+' ==> parsed_unsigned(seq!['+'] + s, max) == parsed_unsigned(
            s,
            max,
        ),
        s.len() > 0 && s[0] == '+' ==> parsed_unsigned(seq!['+'] + s, max) is None,
{
    reveal_with_fuel(decimal_value, 2);
    let one = seq![c];
    assert(one.drop_last() =~= Seq::<char>::empty());
    if '0' <= c <= '9' {
        assert(all_digits(one));
        assert(without_plus(one) =~= one);
    }
    let longer = without_plus(s.push(c));
    if s.len() == 0 {
        assert(s.push(c) =~= one);
        if c == '+' {
            assert(longer.len() == 0);
        } else if !is_digit(c) {
            assert(!is_digit(longer[0]));
        }
    } else {
        assert(longer =~= without_plus(s).push(c));
        assert(longer.last() == c);
        assert(longer.drop_last() =~= without_plus(s));
        if is_digit(c) {
            if s != seq!['+'] {
                if without_plus(s).len() == 0 {
                    assert(s =~= seq!['+']);
                }
                if all_digits(without_plus(s)) {
                    lemma_decimal_prefix(without_plus(s), 0);
                    assert(all_digits(longer));
                } else {
                    let k = choose|k: int|
                        0 <= k < without_plus(s).len() && !is_digit(#[trigger] without_plus(s)[k]);
                    assert(!is_digit(longer[k]));
                }
            }
        } else {
            assert(!is_digit(longer[longer.len() - 1]));
        }
        let signed = seq!['+'] + s;
        assert(without_plus(signed) =~= s);
        if s[0] == '+' {
            assert(!is_digit(s[0]));
        }
    }
}

/// A minus sign in front makes the number negative, down to the smallest of 64 bits; it
/// stands alone, with no other sign behind it. Without it the number reaches up to the
/// largest of 64 bits.
pub proof fn law_minus_sign_negates(s: Seq<char>)
    ensures
        s.len() == 0 || s[0] != '+' ==> parsed_signed(seq!['-'] + s) == match parsed_unsigned(
            s,
            9_223_372_036_854_775_808,
        ) {
            Some(value) => Some(-value),
            None => None,
        },
        s.len() > 0 && s[0] == '+' ==> parsed_signed(seq!['-'] + s) is None,
        s.len() == 0 || s[0] != '-' ==> parsed_signed(s) == parsed_unsigned(
            s,
            9_223_372_036_854_775_807,
        ),
{
    let signed = seq!['-'] + s;
    assert(signed.drop_first() =~= s);
    if s.len() > 0 && s[0] == '+' {
        assert(!is_digit(s[0]));
    }
}

/// A number prints without leading zeros.
pub proof fn law_numbers_print_without_leading_zeros(value: nat)
    ensures
        decimal_text(value).len() > 1 ==> decimal_text(value)[0] != '0',
        value < 10 <==> decimal_text(value).len() == 1,
        value >= 10 ==> decimal_text(value).drop_last() == decimal_text(value / 10),
    decreases value,
{
    if value >= 10 {
        law_numbers_print_without_leading_zeros(value / 10);
        assert(decimal_text(value).drop_last() =~= decimal_text(value / 10));
        assert(decimal_text(value)[0] == decimal_text(value / 10)[0]);
        lemma_decimal_text(value / 10);
        if value / 10 < 10 {
            assert(value / 10 > 0);
        }
    }
}

/// Taking a prefix off undoes putting it on, and succeeds only where it stands in front.
pub proof fn law_stripping_undoes_prefixing(s: Seq<char>, prefix: Seq<char>)
    ensures
        stripped(prefix + s, prefix) == Some(s),
        stripped(s, prefix) matches Some(rest) ==> s == prefix + rest,
        stripped(s, prefix) is None ==> forall|rest: Seq<char>| s != #[trigger] (prefix + rest),
{
    assert((prefix + s).take(prefix.len() as int) =~= prefix);
    assert((prefix + s).skip(prefix.len() as int) =~= s);
    if let Some(rest) = stripped(s, prefix) {
        assert(s =~= prefix + rest);
    } else {
        assert forall|rest: Seq<char>| s != #[trigger] (prefix + rest) by {
            assert((prefix + rest).take(prefix.len() as int) =~= prefix);
        }
    }
}

/// Lowering a text changes its ASCII capitals, each to the small letter 32 code points on,
/// and no other character.
pub proof fn law_lowering_changes_only_capitals(s: Seq<char>, i: int)
    requires
        0 <= i < s.len(),
    ensures
        lowered(s).len() == s.len(),
        'A' <= s[i] <= 'Z' ==> lowered(s)[i] as u32 == s[i] as u32 + 32,
        !('A' <= s[i] <= 'Z') ==> lowered(s)[i] == s[i],
        lowered(lowered(s)) == lowered(s),
{
    assert(lowered(lowered(s)) =~= lowered(s));
}

} // verus!

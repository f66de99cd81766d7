//! Reading text: the tokens that a scan format picks out of a line, and the
//! numbers that the tokens are written as.

use vstd::prelude::*;

verus! {

/// The tokens that `scan_fmt::parse::scan` returns for the input text and
/// the format.
pub uninterp spec fn scanned(input: Seq<char>, format: Seq<char>) -> Seq<Seq<char>>;

/// The texts of the tokens.
pub open spec fn texts(tokens: Seq<String>) -> Seq<Seq<char>> {
    tokens.map_values(|token: String| token@)
}

/// A decimal digit.
pub open spec fn is_digit(c: char) -> bool {
    '0' <= c && c <= '9'
}

/// The `/` at position `i` opens or closes a field `{/./}`, which takes one
/// character.
pub open spec fn in_one_char_field(format: Seq<char>, i: int) -> bool {
    ||| i >= 1 && i + 3 < format.len() && format[i - 1] == '{' && format[i + 1] == '.' && format[i
        + 2] == '/' && format[i + 3] == '}'
    ||| i >= 3 && i + 1 < format.len() && format[i - 3] == '{' && format[i - 2] == '/' && format[i
        - 1] == '.' && format[i + 1] == '}'
}

/// A format that the scanner is called with: it holds no digit and no `f}`,
/// and no `/` but in fields `{/./}`. So its fields have no width, none of
/// them is a number with a fraction, and the one regular expression in them
/// is the one character `.`, without a group.
pub open spec fn plain_format(format: Seq<char>) -> bool {
    &&& forall|i: int| 0 <= i < format.len() ==> !is_digit(#[trigger] format[i])
    &&& forall|i: int|
        0 <= i < format.len() && #[trigger] format[i] == '/' ==> in_one_char_field(format, i)
    &&& forall|i: int|
        0 <= i < format.len() - 1 ==> !(#[trigger] format[i] == 'f' && format[i + 1] == '}')
}

/// Calls `scan_fmt::parse::scan`, which walks the format and the input side
/// by side and collects the text that each field of the format matches. Its
/// result is a function of the two texts, named `scanned` here; nothing is
/// claimed of what the tokens hold. The formats left out are those on which
/// the scanner can fail: it adds the width of a field to a position, and it
/// can read behind the end of a text at a number with a fraction and at a
/// regular expression that is not closed or has a group.
#[verifier::external_body]
pub(crate) fn scan(input: &str, format: &str) -> (tokens: Vec<String>)
    requires
        plain_format(format@),
    ensures
        texts(tokens@) == scanned(input@, format@),
{
    scan_fmt::parse::scan(input, format).collect()
}

/// `String::push` appends the character to the text.
pub assume_specification[ String::push ](text: &mut String, ch: char)
    ensures
        final(text)@ == old(text)@.push(ch),
;

/// The characters of a text.
pub fn chars_of(text: &str) -> (chars: Vec<char>)
    ensures
        chars@ == text@,
{
    let mut chars: Vec<char> = Vec::new();
    for c in it: text.chars()
        invariant
            it.seq() == text@,
            chars@ == it.seq().take(it.index() as int),
    {
        chars.push(c);
        proof {
            assert(chars@ =~= it.seq().take(it.index() + 1));
        }
    }
    proof {
        assert(chars@ =~= text@);
    }
    chars
}

/// Every character is a decimal digit.
pub open spec fn all_digits(text: Seq<char>) -> bool {
    forall|i: int| 0 <= i < text.len() ==> is_digit(#[trigger] text[i])
}

/// The number that a digit stands for.
pub open spec fn digit_value(c: char) -> nat {
    (c as u32 - '0' as u32) as nat
}

/// The number that a text of decimal digits is written as.
pub open spec fn digits_value(text: Seq<char>) -> nat
    decreases text.len(),
{
    if text.len() == 0 {
        0
    } else {
        digits_value(text.drop_last()) * 10 + digit_value(text.last())
    }
}

/// The number that a text stands for where no sign but `+` is taken: one
/// decimal digit or more, with or without a `+` in front.
pub open spec fn unsigned_value(text: Seq<char>) -> Option<nat> {
    let digits = if text.len() > 0 && text[0] == '+' {
        text.skip(1)
    } else {
        text
    };
    if digits.len() > 0 && all_digits(digits) {
        Some(digits_value(digits))
    } else {
        None
    }
}

/// The number that a text stands for: one decimal digit or more, with or
/// without a `+` or a `-` in front.
pub open spec fn signed_value(text: Seq<char>) -> Option<int> {
    if text.len() > 0 && text[0] == '-' {
        if text.len() > 1 && all_digits(text.skip(1)) {
            Some(-(digits_value(text.skip(1)) as int))
        } else {
            None
        }
    } else {
        match unsigned_value(text) {
            Some(value) => Some(value as int),
            None => None,
        }
    }
}

/// More digits never make a smaller number.
pub proof fn lemma_digits_of_prefix(text: Seq<char>, n: int)
    requires
        0 <= n <= text.len(),
    ensures
        digits_value(text.take(n)) <= digits_value(text),
    decreases text.len(),
{
    if n < text.len() {
        assert(text.drop_last().take(n) =~= text.take(n));
        lemma_digits_of_prefix(text.drop_last(), n);
    } else {
        assert(text.take(n) =~= text);
    }
}

/// The number that the characters from `from` on are written as, where they
/// are digits, at least one, and the number is no larger than `limit`.
fn magnitude(chars: &Vec<char>, from: usize, limit: u64) -> (value: Option<u64>)
    requires
        from <= chars@.len(),
    ensures
        value == if chars@.len() > from && all_digits(chars@.skip(from as int)) && digits_value(
            chars@.skip(from as int),
        ) <= limit {
            Some(digits_value(chars@.skip(from as int)) as u64)
        } else {
            None
        },
{
    let ghost digits = chars@.skip(from as int);
    if chars.len() == from {
        return None;
    }
    let mut total: u64 = 0;
    let mut i: usize = from;
    while i < chars.len()
        invariant
            from <= i <= chars@.len(),
            digits == chars@.skip(from as int),
            all_digits(digits.take(i - from)),
            total == digits_value(digits.take(i - from)),
            total <= limit,
        decreases chars@.len() - i,
    {
        let c = chars[i];
        proof {
            assert(digits[i - from] == c);
            assert(digits.take(i - from + 1).drop_last() =~= digits.take(i - from));
            lemma_digits_of_prefix(digits, i - from + 1);
        }
        if !('0' <= c && c <= '9') {
            return None;
        }
        let d: u64 = (c as u32 - '0' as u32) as u64;
        if d > limit {
            return None;
        }
        if total > (limit - d) / 10 {
            assert(total * 10 + d > limit) by (nonlinear_arith)
                requires
                    total > (limit - d) / 10,
                    d <= limit,
                    d < 10,
            ;
            return None;
        }
        assert(total * 10 + d <= limit) by (nonlinear_arith)
            requires
                total <= (limit - d) / 10,
                d <= limit,
        ;
        total = total * 10 + d;
        proof {
            assert forall|j: int| 0 <= j < i - from + 1 implies is_digit(
                #[trigger] digits.take(i - from + 1)[j],
            ) by {
                if j < i - from {
                    assert(digits.take(i - from)[j] == digits[j]);
                }
            }
        }
        i += 1;
    }
    proof {
        assert(digits.take(i - from) =~= digits);
    }
    Some(total)
}

/// The number that the text stands for, where it takes no sign but `+` and
/// is no larger than `limit`.
pub open spec fn bounded_unsigned(text: Seq<char>, limit: nat) -> Option<nat> {
    match unsigned_value(text) {
        Some(number) => if number <= limit {
            Some(number)
        } else {
            None
        },
        None => None,
    }
}

/// The number that the text stands for, where it is in the range of `i64`.
pub open spec fn bounded_signed(text: Seq<char>) -> Option<i64> {
    match signed_value(text) {
        Some(number) => if i64::MIN <= number <= i64::MAX {
            Some(number as i64)
        } else {
            None
        },
        None => None,
    }
}

/// Reads a number without a sign or with `+`, up to `limit`, from the
/// characters behind the first `from`.
pub fn unsigned_from_chars(chars: &Vec<char>, from: usize, limit: u64) -> (value: Option<u64>)
    requires
        from <= chars@.len(),
    ensures
        value == match bounded_unsigned(chars@.skip(from as int), limit as nat) {
            Some(number) => Some(number as u64),
            None => None,
        },
{
    let ghost text = chars@.skip(from as int);
    let start: usize = if chars.len() > from && chars[from] == '+' {
        from + 1
    } else {
        from
    };
    proof {
        assert(text.skip(0) =~= text);
        if chars@.len() > from {
            assert(text.skip(1) =~= chars@.skip(from + 1));
            assert(text[0] == chars@[from as int]);
        }
    }
    magnitude(chars, start, limit)
}

/// Reads a number with or without a sign, within the range of `i64`, from
/// the characters behind the first `from`.
pub fn signed_from_chars(chars: &Vec<char>, from: usize) -> (value: Option<i64>)
    requires
        from <= chars@.len(),
    ensures
        value == bounded_signed(chars@.skip(from as int)),
{
    let ghost text = chars@.skip(from as int);
    proof {
        if chars@.len() > from {
            assert(text.skip(1) =~= chars@.skip(from + 1));
            assert(text[0] == chars@[from as int]);
        }
    }
    if chars.len() > from && chars[from] == '-' {
        match magnitude(chars, from + 1, 0x8000_0000_0000_0000) {
            None => None,
            Some(size) => if size == 0x8000_0000_0000_0000 {
                Some(i64::MIN)
            } else {
                Some(-(size as i64))
            },
        }
    } else {
        match unsigned_from_chars(chars, from, 0x7fff_ffff_ffff_ffff) {
            None => None,
            Some(size) => Some(size as i64),
        }
    }
}

/// Reads a number without a sign or with `+`, up to `limit`.
pub fn parse_unsigned(text: &str, limit: u64) -> (value: Option<u64>)
    ensures
        value == match bounded_unsigned(text@, limit as nat) {
            Some(number) => Some(number as u64),
            None => None,
        },
{
    let chars = chars_of(text);
    proof {
        assert(chars@.skip(0) =~= chars@);
    }
    unsigned_from_chars(&chars, 0, limit)
}

/// Reads a number with or without a sign, within the range of `i64`.
pub fn parse_signed(text: &str) -> (value: Option<i64>)
    ensures
        value == bounded_signed(text@),
{
    let chars = chars_of(text);
    proof {
        assert(chars@.skip(0) =~= chars@);
    }
    signed_from_chars(&chars, 0)
}

/// Reads a text of one character.
pub fn parse_char(text: &str) -> (value: Option<char>)
    ensures
        value == if text@.len() == 1 {
            Some(text@[0])
        } else {
            None
        },
{
    let chars = chars_of(text);
    if chars.len() == 1 {
        Some(chars[0])
    } else {
        None
    }
}

/// The number that token `i` stands for, where there is such a token, it
/// takes no sign but `+` and is no larger than `limit`.
pub open spec fn unsigned_token(tokens: Seq<Seq<char>>, i: int, limit: nat) -> Option<nat> {
    if 0 <= i < tokens.len() {
        bounded_unsigned(tokens[i], limit)
    } else {
        None
    }
}

/// The number that token `i` stands for, where there is such a token and
/// the number is in the range of `i64`.
pub open spec fn signed_token(tokens: Seq<Seq<char>>, i: int) -> Option<i64> {
    if 0 <= i < tokens.len() {
        bounded_signed(tokens[i])
    } else {
        None
    }
}

/// The character that token `i` consists of, where there is such a token
/// and it is one character long.
pub open spec fn char_token(tokens: Seq<Seq<char>>, i: int) -> Option<char> {
    if 0 <= i < tokens.len() && tokens[i].len() == 1 {
        Some(tokens[i][0])
    } else {
        None
    }
}

/// Reads token `i` as a number without a sign or with `+`, up to `limit`.
pub fn unsigned_at(tokens: &Vec<String>, i: usize, limit: u64) -> (value: Option<u64>)
    ensures
        value == match unsigned_token(texts(tokens@), i as int, limit as nat) {
            Some(number) => Some(number as u64),
            None => None,
        },
{
    if i < tokens.len() {
        parse_unsigned(tokens[i].as_str(), limit)
    } else {
        None
    }
}

/// Reads token `i` as a number with or without a sign.
pub fn signed_at(tokens: &Vec<String>, i: usize) -> (value: Option<i64>)
    ensures
        value == signed_token(texts(tokens@), i as int),
{
    if i < tokens.len() {
        parse_signed(tokens[i].as_str())
    } else {
        None
    }
}

/// Reads token `i` as one character.
pub fn char_at(tokens: &Vec<String>, i: usize) -> (value: Option<char>)
    ensures
        value == char_token(texts(tokens@), i as int),
{
    if i < tokens.len() {
        parse_char(tokens[i].as_str())
    } else {
        None
    }
}

} // verus!

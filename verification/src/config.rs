//! The `Config` trait for types configured from sources, and the parsing of
//! field values out of the text that a source holds.

use vstd::prelude::*;
use crate::error::{Error, Result};
use crate::source::Source;

verus! {

/// Trait for types that can be configured by visiting sources.
///
/// Implementations define how to extract and parse the fields they need
/// from a source, and how to update themselves when several sources are
/// provided: whether to override, merge, or apply custom logic.
pub trait Config: Sized {
    /// A new instance configured from a single source.
    fn configure_from_source(source: &dyn Source) -> Result<Self>;

    /// Updates this instance with the values of another source.
    fn update_from_source(&mut self, source: &dyn Source) -> Result<()>;
}

/// Why the text of an integer was refused.
#[derive(Debug, PartialEq, Eq, Structural)]
pub enum IntErrorKind {
    /// The text is empty.
    Empty,
    /// The text holds a character that is not a decimal digit where one is
    /// needed.
    InvalidDigit,
    /// The number is larger than the type's maximum.
    PosOverflow,
    /// The number is smaller than the type's minimum.
    NegOverflow,
}

/// The description of a refusal, as the standard library words it.
pub open spec fn int_error_text(kind: IntErrorKind) -> Seq<char> {
    match kind {
        IntErrorKind::Empty => "cannot parse integer from empty string"@,
        IntErrorKind::InvalidDigit => "invalid digit found in string"@,
        IntErrorKind::PosOverflow => "number too large to fit in target type"@,
        IntErrorKind::NegOverflow => "number too small to fit in target type"@,
    }
}

/// Whether `c` is a decimal digit.
pub open spec fn is_digit(c: char) -> bool {
    '0' <= c && c <= '9'
}

/// The value of the decimal digit `c`.
pub open spec fn digit_value(c: char) -> int {
    c as int - '0' as int
}

/// Reads `digits` from left to right, accumulating a decimal number away
/// from zero (downwards if `negative`); the first character that is not a
/// digit, or the first step that leaves `[min, max]`, ends the reading.
pub open spec fn scan_digits(digits: Seq<char>, negative: bool, min: int, max: int) -> core::result::Result<int, IntErrorKind>
    decreases digits.len(),
{
    if digits.len() == 0 {
        Ok(0)
    } else {
        match scan_digits(digits.drop_last(), negative, min, max) {
            Err(e) => Err(e),
            Ok(acc) => {
                let c = digits.last();
                if !is_digit(c) {
                    Err(IntErrorKind::InvalidDigit)
                } else if negative {
                    if acc * 10 - digit_value(c) < min {
                        Err(IntErrorKind::NegOverflow)
                    } else {
                        Ok(acc * 10 - digit_value(c))
                    }
                } else {
                    if acc * 10 + digit_value(c) > max {
                        Err(IntErrorKind::PosOverflow)
                    } else {
                        Ok(acc * 10 + digit_value(c))
                    }
                }
            },
        }
    }
}

/// The integer in `[min, max]` that `text` writes in decimal: an optional
/// `+` (or `-`, where `min` is negative) followed by digits only.
pub open spec fn parse_int(text: Seq<char>, min: int, max: int) -> core::result::Result<int, IntErrorKind> {
    if text.len() == 0 {
        Err(IntErrorKind::Empty)
    } else if (text[0] == '+' || text[0] == '-') && text.len() == 1 {
        Err(IntErrorKind::InvalidDigit)
    } else if text[0] == '+' {
        scan_digits(text.drop_first(), false, min, max)
    } else if text[0] == '-' && min < 0 {
        scan_digits(text.drop_first(), true, min, max)
    } else {
        scan_digits(text, false, min, max)
    }
}

proof fn lemma_scan_in_range(digits: Seq<char>, negative: bool, min: int, max: int)
    requires
        min <= 0 <= max,
    ensures
        scan_digits(digits, negative, min, max) matches Ok(v) ==> min <= v <= max && (negative
            ==> v <= 0) && (!negative ==> v >= 0),
    decreases digits.len(),
{
    if digits.len() > 0 {
        lemma_scan_in_range(digits.drop_last(), negative, min, max);
    }
}

/// Reads the digits of `text` from position `start` on.
fn scan_exec(text: &Vec<char>, start: usize, negative: bool, min: i128, max: i128) -> (r: core::result::Result<i128, IntErrorKind>)
    requires
        start <= text.len(),
        i64::MIN <= min <= 0 <= max <= u64::MAX,
    ensures
        match r {
            Ok(v) => scan_digits(text@.skip(start as int), negative, min as int, max as int) == Ok::<int, IntErrorKind>(v as int),
            Err(e) => scan_digits(text@.skip(start as int), negative, min as int, max as int) == Err::<int, IntErrorKind>(e),
        },
{
    let ghost digits = text@.skip(start as int);
    let mut acc: i128 = 0;
    let mut i: usize = start;
    assert(digits.take(0) =~= Seq::<char>::empty());
    while i < text.len()
        invariant
            start <= i <= text.len(),
            digits == text@.skip(start as int),
            i64::MIN <= min <= 0 <= max <= u64::MAX,
            min <= acc <= max,
            negative ==> acc <= 0,
            !negative ==> acc >= 0,
            scan_digits(digits.take(i - start), negative, min as int, max as int) == Ok::<int, IntErrorKind>(acc as int),
        decreases text.len() - i,
    {
        let ghost pre = digits.take(i - start);
        assert(digits.take(i + 1 - start).drop_last() == pre);
        assert(digits.take(i + 1 - start).last() == text@[i as int]);
        let c = text[i];
        if !(c >= '0' && c <= '9') {
            assert(scan_digits(digits.take(i + 1 - start), negative, min as int, max as int) == Err::<int, IntErrorKind>(IntErrorKind::InvalidDigit));
            proof {
                lemma_scan_error_stays(digits, (i + 1 - start) as nat, negative, min as int, max as int);
            }
            return Err(IntErrorKind::InvalidDigit);
        }
        let d: i128 = (c as u32 - '0' as u32) as i128;
        assert(d == digit_value(c));
        if negative {
            let v = acc * 10 - d;
            if v < min {
                proof {
                    lemma_scan_error_stays(digits, (i + 1 - start) as nat, negative, min as int, max as int);
                }
                return Err(IntErrorKind::NegOverflow);
            }
            acc = v;
        } else {
            let v = acc * 10 + d;
            if v > max {
                proof {
                    lemma_scan_error_stays(digits, (i + 1 - start) as nat, negative, min as int, max as int);
                }
                return Err(IntErrorKind::PosOverflow);
            }
            acc = v;
        }
        i = i + 1;
    }
    assert(digits.take(text.len() - start) == digits);
    Ok(acc)
}

/// Once reading a prefix of the digits has failed, reading all of them
/// fails in the same way.
proof fn lemma_scan_error_stays(digits: Seq<char>, n: nat, negative: bool, min: int, max: int)
    requires
        n <= digits.len(),
        scan_digits(digits.take(n as int), negative, min, max) is Err,
    ensures
        scan_digits(digits, negative, min, max) == scan_digits(digits.take(n as int), negative, min, max),
    decreases digits.len() - n,
{
    if n < digits.len() {
        assert(digits.take(n + 1int).drop_last() == digits.take(n as int));
        lemma_scan_error_stays(digits, n + 1, negative, min, max);
    } else {
        assert(digits.take(n as int) == digits);
    }
}

/// The integer in `[min, max]` that `text` writes in decimal.
pub fn parse_integer(text: &str, min: i128, max: i128) -> (r: core::result::Result<i128, IntErrorKind>)
    requires
        i64::MIN <= min <= 0 <= max <= u64::MAX,
    ensures
        match r {
            Ok(v) => parse_int(text@, min as int, max as int) == Ok::<int, IntErrorKind>(v as int)
                && min <= v <= max,
            Err(e) => parse_int(text@, min as int, max as int) == Err::<int, IntErrorKind>(e),
        },
{
    let chars = crate::text::to_chars(text);
    if chars.len() == 0 {
        return Err(IntErrorKind::Empty);
    }
    let first = chars[0];
    if (first == '+' || first == '-') && chars.len() == 1 {
        return Err(IntErrorKind::InvalidDigit);
    }
    assert(chars@.skip(1) == chars@.drop_first());
    assert(chars@.skip(0) == chars@);
    let r = if first == '+' {
        scan_exec(&chars, 1, false, min, max)
    } else if first == '-' && min < 0 {
        scan_exec(&chars, 1, true, min, max)
    } else {
        scan_exec(&chars, 0, false, min, max)
    };
    proof {
        lemma_scan_in_range(chars@.drop_first(), false, min as int, max as int);
        lemma_scan_in_range(chars@.drop_first(), true, min as int, max as int);
        lemma_scan_in_range(chars@, false, min as int, max as int);
    }
    r
}

/// Why the decimal text of an integer in `[min, max]` is refused, or `None`
/// where it is accepted.
pub open spec fn int_refusal(text: Seq<char>, min: int, max: int) -> Option<Seq<char>> {
    match parse_int(text, min, max) {
        Ok(_) => None,
        Err(kind) => Some(int_error_text(kind)),
    }
}

/// The description of a refusal.
fn int_error_message(kind: IntErrorKind) -> (s: String)
    ensures
        s@ == int_error_text(kind),
{
    match kind {
        IntErrorKind::Empty => String::from_str("cannot parse integer from empty string"),
        IntErrorKind::InvalidDigit => String::from_str("invalid digit found in string"),
        IntErrorKind::PosOverflow => String::from_str("number too large to fit in target type"),
        IntErrorKind::NegOverflow => String::from_str("number too small to fit in target type"),
    }
}

/// The integer in `[min, max]` that `text` writes, or the description of
/// why it is refused.
fn int_field(text: &str, min: i128, max: i128) -> (r: core::result::Result<i128, String>)
    requires
        i64::MIN <= min <= 0 <= max <= u64::MAX,
    ensures
        match r {
            Ok(v) => parse_int(text@, min as int, max as int) == Ok::<int, IntErrorKind>(v as int)
                && min <= v <= max,
            Err(m) => int_refusal(text@, min as int, max as int) == Some(m@),
        },
{
    match parse_integer(text, min, max) {
        Ok(v) => Ok(v),
        Err(kind) => Err(int_error_message(kind)),
    }
}

/// Types whose values a configuration field can be read as, from the text
/// that a source holds for the field.
pub trait FieldValue: Sized {
    /// Whether `text` is read as `value`.
    spec fn reads_as(text: Seq<char>, value: Self) -> bool;

    /// Why `text` is refused, or `None` where it is read as a value.
    spec fn refusal(text: Seq<char>) -> Option<Seq<char>>;

    /// The value that `text` is read as, or why it is refused.
    fn parse_field(text: &str) -> (r: core::result::Result<Self, String>)
        ensures
            match r {
                Ok(v) => Self::refusal(text@) is None && Self::reads_as(text@, v),
                Err(m) => Self::refusal(text@) == Some(m@),
            },
    ;
}

impl FieldValue for String {
    open spec fn reads_as(text: Seq<char>, value: String) -> bool {
        value@ == text
    }

    open spec fn refusal(text: Seq<char>) -> Option<Seq<char>> {
        None
    }

    fn parse_field(text: &str) -> (r: core::result::Result<String, String>)
        ensures
            r matches Ok(v) && v@ == text@,
    {
        Ok(String::from_str(text))
    }
}

/// The description of a refused truth value, as the standard library words it.
pub open spec fn bool_error_text() -> Seq<char> {
    "provided string was not `true` or `false`"@
}

impl FieldValue for bool {
    open spec fn reads_as(text: Seq<char>, value: bool) -> bool {
        if value {
            text == "true"@
        } else {
            text == "false"@
        }
    }

    open spec fn refusal(text: Seq<char>) -> Option<Seq<char>> {
        if text == "true"@ || text == "false"@ {
            None
        } else {
            Some(bool_error_text())
        }
    }

    fn parse_field(text: &str) -> (r: core::result::Result<bool, String>) {
        let t = String::from_str(text);
        if t == String::from_str("true") {
            Ok(true)
        } else if t == String::from_str("false") {
            Ok(false)
        } else {
            Err(String::from_str("provided string was not `true` or `false`"))
        }
    }
}

impl FieldValue for u8 {
    open spec fn reads_as(text: Seq<char>, value: u8) -> bool {
        parse_int(text, u8::MIN as int, u8::MAX as int) == Ok::<int, IntErrorKind>(value as int)
    }

    open spec fn refusal(text: Seq<char>) -> Option<Seq<char>> {
        int_refusal(text, u8::MIN as int, u8::MAX as int)
    }

    fn parse_field(text: &str) -> (r: core::result::Result<u8, String>) {
        match int_field(text, u8::MIN as i128, u8::MAX as i128) {
            Ok(v) => Ok(v as u8),
            Err(m) => Err(m),
        }
    }
}

impl FieldValue for u16 {
    open spec fn reads_as(text: Seq<char>, value: u16) -> bool {
        parse_int(text, u16::MIN as int, u16::MAX as int) == Ok::<int, IntErrorKind>(value as int)
    }

    open spec fn refusal(text: Seq<char>) -> Option<Seq<char>> {
        int_refusal(text, u16::MIN as int, u16::MAX as int)
    }

    fn parse_field(text: &str) -> (r: core::result::Result<u16, String>) {
        match int_field(text, u16::MIN as i128, u16::MAX as i128) {
            Ok(v) => Ok(v as u16),
            Err(m) => Err(m),
        }
    }
}

impl FieldValue for u32 {
    open spec fn reads_as(text: Seq<char>, value: u32) -> bool {
        parse_int(text, u32::MIN as int, u32::MAX as int) == Ok::<int, IntErrorKind>(value as int)
    }

    open spec fn refusal(text: Seq<char>) -> Option<Seq<char>> {
        int_refusal(text, u32::MIN as int, u32::MAX as int)
    }

    fn parse_field(text: &str) -> (r: core::result::Result<u32, String>) {
        match int_field(text, u32::MIN as i128, u32::MAX as i128) {
            Ok(v) => Ok(v as u32),
            Err(m) => Err(m),
        }
    }
}

impl FieldValue for u64 {
    open spec fn reads_as(text: Seq<char>, value: u64) -> bool {
        parse_int(text, u64::MIN as int, u64::MAX as int) == Ok::<int, IntErrorKind>(value as int)
    }

    open spec fn refusal(text: Seq<char>) -> Option<Seq<char>> {
        int_refusal(text, u64::MIN as int, u64::MAX as int)
    }

    fn parse_field(text: &str) -> (r: core::result::Result<u64, String>) {
        match int_field(text, u64::MIN as i128, u64::MAX as i128) {
            Ok(v) => Ok(v as u64),
            Err(m) => Err(m),
        }
    }
}

impl FieldValue for usize {
    open spec fn reads_as(text: Seq<char>, value: usize) -> bool {
        parse_int(text, usize::MIN as int, usize::MAX as int) == Ok::<int, IntErrorKind>(value as int)
    }

    open spec fn refusal(text: Seq<char>) -> Option<Seq<char>> {
        int_refusal(text, usize::MIN as int, usize::MAX as int)
    }

    fn parse_field(text: &str) -> (r: core::result::Result<usize, String>) {
        match int_field(text, usize::MIN as i128, usize::MAX as i128) {
            Ok(v) => Ok(v as usize),
            Err(m) => Err(m),
        }
    }
}

impl FieldValue for i8 {
    open spec fn reads_as(text: Seq<char>, value: i8) -> bool {
        parse_int(text, i8::MIN as int, i8::MAX as int) == Ok::<int, IntErrorKind>(value as int)
    }

    open spec fn refusal(text: Seq<char>) -> Option<Seq<char>> {
        int_refusal(text, i8::MIN as int, i8::MAX as int)
    }

    fn parse_field(text: &str) -> (r: core::result::Result<i8, String>) {
        match int_field(text, i8::MIN as i128, i8::MAX as i128) {
            Ok(v) => Ok(v as i8),
            Err(m) => Err(m),
        }
    }
}

impl FieldValue for i16 {
    open spec fn reads_as(text: Seq<char>, value: i16) -> bool {
        parse_int(text, i16::MIN as int, i16::MAX as int) == Ok::<int, IntErrorKind>(value as int)
    }

    open spec fn refusal(text: Seq<char>) -> Option<Seq<char>> {
        int_refusal(text, i16::MIN as int, i16::MAX as int)
    }

    fn parse_field(text: &str) -> (r: core::result::Result<i16, String>) {
        match int_field(text, i16::MIN as i128, i16::MAX as i128) {
            Ok(v) => Ok(v as i16),
            Err(m) => Err(m),
        }
    }
}

impl FieldValue for i32 {
    open spec fn reads_as(text: Seq<char>, value: i32) -> bool {
        parse_int(text, i32::MIN as int, i32::MAX as int) == Ok::<int, IntErrorKind>(value as int)
    }

    open spec fn refusal(text: Seq<char>) -> Option<Seq<char>> {
        int_refusal(text, i32::MIN as int, i32::MAX as int)
    }

    fn parse_field(text: &str) -> (r: core::result::Result<i32, String>) {
        match int_field(text, i32::MIN as i128, i32::MAX as i128) {
            Ok(v) => Ok(v as i32),
            Err(m) => Err(m),
        }
    }
}

impl FieldValue for i64 {
    open spec fn reads_as(text: Seq<char>, value: i64) -> bool {
        parse_int(text, i64::MIN as int, i64::MAX as int) == Ok::<int, IntErrorKind>(value as int)
    }

    open spec fn refusal(text: Seq<char>) -> Option<Seq<char>> {
        int_refusal(text, i64::MIN as int, i64::MAX as int)
    }

    fn parse_field(text: &str) -> (r: core::result::Result<i64, String>) {
        match int_field(text, i64::MIN as i128, i64::MAX as i128) {
            Ok(v) => Ok(v as i64),
            Err(m) => Err(m),
        }
    }
}

impl FieldValue for isize {
    open spec fn reads_as(text: Seq<char>, value: isize) -> bool {
        parse_int(text, isize::MIN as int, isize::MAX as int) == Ok::<int, IntErrorKind>(value as int)
    }

    open spec fn refusal(text: Seq<char>) -> Option<Seq<char>> {
        int_refusal(text, isize::MIN as int, isize::MAX as int)
    }

    fn parse_field(text: &str) -> (r: core::result::Result<isize, String>) {
        match int_field(text, isize::MIN as i128, isize::MAX as i128) {
            Ok(v) => Ok(v as isize),
            Err(m) => Err(m),
        }
    }
}

/// The message of the error under which a field's text is refused.
pub open spec fn parse_failure(value: Seq<char>, reason: Seq<char>) -> Seq<char> {
    "Failed to parse '"@ + value + "': "@ + reason
}

/// Parses the text of a field as a value of type `T`; where `T` refuses the
/// text, the error is a `Parse` error that quotes the text and the reason.
pub fn parse_field_value<T: FieldValue>(value: &str) -> (r: Result<T>)
    ensures
        match r {
            Ok(v) => T::refusal(value@) is None && T::reads_as(value@, v),
            Err(e) => T::refusal(value@) matches Some(reason) && e matches Error::Parse(m) && m@
                == parse_failure(value@, reason),
        },
{
    match T::parse_field(value) {
        Ok(v) => Ok(v),
        Err(reason) => {
            let mut m = String::from_str("Failed to parse '");
            m.append(value);
            m.append("': ");
            m.append(reason.as_str());
            Err(Error::Parse(m))
        },
    }
}

/// What a source's answer for a field gives: the source's error as it is,
/// no value where the source has none, and otherwise the field's text
/// parsed as a `T`.
pub fn parse_lookup<T: FieldValue>(found: Result<Option<String>>) -> (r: Result<Option<T>>)
    ensures
        match found {
            Err(e) => r matches Err(e2) && e2 == e,
            Ok(None) => r matches Ok(None),
            Ok(Some(text)) => match r {
                Ok(Some(v)) => T::refusal(text@) is None && T::reads_as(text@, v),
                Ok(None) => false,
                Err(e) => T::refusal(text@) matches Some(reason) && e matches Error::Parse(m)
                    && m@ == parse_failure(text@, reason),
            },
        },
{
    match found {
        Err(e) => Err(e),
        Ok(None) => Ok(None),
        Ok(Some(text)) => match parse_field_value::<T>(text.as_str()) {
            Ok(v) => Ok(Some(v)),
            Err(e) => Err(e),
        },
    }
}

/// What a source's answer `found` for a field gives as the field's value:
/// the source's error as it is, no value where the source has none, and
/// otherwise the text read as a `T`, or a `Parse` error quoting the text
/// and why `T` refuses it.
pub open spec fn looked_up<T: FieldValue>(found: Result<Option<String>>, r: Result<Option<T>>) -> bool {
    match found {
        Err(e) => r == Err::<Option<T>, Error>(e),
        Ok(None) => r is Ok && r->Ok_0 is None,
        Ok(Some(text)) => match r {
            Ok(Some(v)) => T::refusal(text@) is None && T::reads_as(text@, v),
            Ok(None) => false,
            Err(e) => T::refusal(text@) matches Some(reason) && e matches Error::Parse(m) && m@
                == parse_failure(text@, reason),
        },
    }
}

/// The value of `field` in `source`, read as a `T`; `None` where the source
/// has no such field. The source is asked for `field` itself, and its
/// answer is what the result is made of.
pub fn get_field_value<T: FieldValue>(source: &(impl Source + ?Sized), field: &str) -> (r: Result<Option<T>>)
    ensures
        r matches Ok(Some(v)) ==> exists|text: Seq<char>| T::refusal(text) is None && T::reads_as(text, v),
        exists|found: Result<Option<String>>|
            #[trigger] call_ensures(Source::get, (source, field), found) && looked_up(found, r),
{
    let found = source.get(field);
    let ghost seen = found;
    let r = parse_lookup(found);
    assert(looked_up(seen, r));
    r
}

} // verus!

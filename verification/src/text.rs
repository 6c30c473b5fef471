//! Text as a sequence of characters: escaping, numbers, splitting and order.
use std::borrow::Cow;
use vstd::prelude::*;

verus! {

/// `String::push` appends one character.
pub assume_specification[ String::push ](s: &mut String, c: char)
    ensures
        final(s)@ == old(s)@.push(c),
;

/// What the standard library prints for a string under `{:?}`.
pub uninterp spec fn debug_text(text: Seq<char>) -> Seq<char>;

/// The `Debug` form of a string, as `format!` prints it under `{:?}`: quoted and
/// escaped. The form is named, its escapes are not restated.
#[verifier::external_body]
pub(crate) fn debug_of(text: &str) -> (res: String)
    ensures
        res@ == debug_text(text@),
{
    format!("{:?}", text)
}

/// The characters of each string.
pub open spec fn texts(strings: Seq<String>) -> Seq<Seq<char>> {
    strings.map_values(|s: String| s@)
}

/// The characters of an optional string.
pub open spec fn optional_text(value: Option<String>) -> Option<Seq<char>> {
    match value {
        Some(s) => Some(s@),
        None => None,
    }
}

/// The characters of an optional string slice.
pub open spec fn optional_str(value: Option<&str>) -> Option<Seq<char>> {
    match value {
        Some(s) => Some(s@),
        None => None,
    }
}

/// The characters of `value`, one by one.
pub fn chars_of(value: &str) -> (res: Vec<char>)
    ensures
        res@ == value@,
{
    let mut out: Vec<char> = Vec::new();
    for c in it: value.chars()
        invariant
            out@ == value@.take(it.index() as int),
            it.seq() == value@,
    {
        out.push(c);
    }
    out
}

/// The text made of `chars[from..to]`.
pub fn text_of(chars: &Vec<char>, from: usize, to: usize) -> (res: String)
    requires
        from <= to <= chars@.len(),
    ensures
        res@ == chars@.subrange(from as int, to as int),
{
    let mut out = String::new();
    let mut i: usize = from;
    while i < to
        invariant
            from <= i <= to <= chars@.len(),
            out@ == chars@.subrange(from as int, i as int),
        decreases to - i,
    {
        out.push(chars[i]);
        i = i + 1;
    }
    out
}

/// Whether two texts are the same.
pub fn same_text(left: &str, right: &str) -> (res: bool)
    ensures
        res == (left@ == right@),
{
    left.to_owned() == right.to_owned()
}

/// Whether two optional texts are the same.
pub fn same_optional(left: &Option<String>, right: &Option<String>) -> (res: bool)
    ensures
        res == (optional_text(*left) == optional_text(*right)),
{
    match (left, right) {
        (Some(a), Some(b)) => *a == *b,
        (None, None) => true,
        _ => false,
    }
}

/// A copy of each string.
pub fn clone_texts(strings: &Vec<String>) -> (res: Vec<String>)
    ensures
        res@ == strings@,
{
    let mut out: Vec<String> = Vec::new();
    let mut i: usize = 0;
    while i < strings.len()
        invariant
            i <= strings@.len(),
            out@ == strings@.take(i as int),
        decreases strings@.len() - i,
    {
        out.push(strings[i].clone());
        i = i + 1;
        proof {
            assert(out@ =~= strings@.take(i as int));
        }
    }
    proof {
        assert(strings@.take(i as int) =~= strings@);
    }
    out
}

/// A copy of an optional string.
pub fn clone_optional(value: &Option<String>) -> (res: Option<String>)
    ensures
        res == *value,
{
    match value {
        Some(s) => Some(s.clone()),
        None => None,
    }
}

// ---------------------------------------------------------------------------
// Numbers
// ---------------------------------------------------------------------------

/// The character of a digit below sixteen, in lower case.
pub open spec fn digit_char(d: nat) -> char {
    if d < 10 {
        ((48 + d) as u8) as char
    } else {
        ((87 + d) as u8) as char
    }
}

/// `n` in decimal, without leading zeros.
pub open spec fn decimal(n: nat) -> Seq<char>
    decreases n,
{
    if n < 10 {
        seq![digit_char(n)]
    } else {
        decimal(n / 10).push(digit_char(n % 10))
    }
}

/// `n` in lower-case hexadecimal, without leading zeros.
pub open spec fn hexadecimal(n: nat) -> Seq<char>
    decreases n,
{
    if n < 16 {
        seq![digit_char(n)]
    } else {
        hexadecimal(n / 16).push(digit_char(n % 16))
    }
}

/// `s` with zeros before it, up to `width` characters.
pub open spec fn zero_padded(s: Seq<char>, width: nat) -> Seq<char> {
    if s.len() >= width {
        s
    } else {
        Seq::new((width - s.len()) as nat, |i: int| '0') + s
    }
}

fn digit(d: u8) -> (res: char)
    requires
        d < 16,
    ensures
        res == digit_char(d as nat),
{
    if d < 10 {
        (48 + d) as char
    } else {
        (87 + d) as char
    }
}

/// Prints `n` in decimal.
pub fn decimal_text(n: u64) -> (res: String)
    ensures
        res@ == decimal(n as nat),
    decreases n,
{
    if n < 10 {
        let mut s = String::new();
        s.push(digit(n as u8));
        proof {
            assert(s@ =~= seq![digit_char(n as nat)]);
        }
        s
    } else {
        let mut s = decimal_text(n / 10);
        s.push(digit((n % 10) as u8));
        s
    }
}

/// Prints `n` in lower-case hexadecimal.
pub fn hexadecimal_text(n: u64) -> (res: String)
    ensures
        res@ == hexadecimal(n as nat),
    decreases n,
{
    if n < 16 {
        let mut s = String::new();
        s.push(digit(n as u8));
        proof {
            assert(s@ =~= seq![digit_char(n as nat)]);
        }
        s
    } else {
        let mut s = hexadecimal_text(n / 16);
        s.push(digit((n % 16) as u8));
        s
    }
}

/// Puts zeros before `s` until it has `width` characters.
pub fn zero_pad(s: &str, width: usize) -> (res: String)
    ensures
        res@ == zero_padded(s@, width as nat),
{
    let length = chars_of(s).len();
    let mut out = String::new();
    let mut i: usize = length;
    while i < width
        invariant
            length == s@.len(),
            length <= i,
            i <= width || i == length,
            out@ == Seq::new((i - length) as nat, |k: int| '0'),
        decreases width - i,
    {
        out.push('0');
        i = i + 1;
        proof {
            assert(out@ =~= Seq::new((i - length) as nat, |k: int| '0'));
        }
    }
    out.append(s);
    proof {
        assert(out@ =~= zero_padded(s@, width as nat));
    }
    out
}

/// Whether `c` is one of the ten decimal digits.
pub open spec fn is_digit(c: char) -> bool {
    '0' <= c && c <= '9'
}

/// The number that a sequence of decimal digits writes.
pub open spec fn decimal_value(digits: Seq<char>) -> nat
    decreases digits.len(),
{
    if digits.len() == 0 {
        0
    } else {
        decimal_value(digits.drop_last()) * 10 + (digits.last() as nat - 48) as nat
    }
}

/// Why a text is not an unsigned number.
#[derive(Clone, Copy, Debug, PartialEq, Eq, Structural)]
pub enum NumberError {
    Empty,
    InvalidDigit,
    Overflow,
}

impl NumberError {
    /// The wording of the standard library for this error.
    pub open spec fn wording(self) -> Seq<char> {
        match self {
            NumberError::Empty => "cannot parse integer from empty string"@,
            NumberError::InvalidDigit => "invalid digit found in string"@,
            NumberError::Overflow => "number too large to fit in target type"@,
        }
    }

    pub fn describe(self) -> (res: &'static str)
        ensures
            res@ == self.wording(),
    {
        match self {
            NumberError::Empty => "cannot parse integer from empty string",
            NumberError::InvalidDigit => "invalid digit found in string",
            NumberError::Overflow => "number too large to fit in target type",
        }
    }
}

/// The digits of an unsigned number: what follows an optional plus sign. A plus
/// sign alone is not one.
pub open spec fn number_digits(text: Seq<char>) -> Seq<char> {
    if text.len() > 1 && text[0] == '+' {
        text.drop_first()
    } else {
        text
    }
}

/// What reading digits from the left gives: the first character that is no digit
/// or the first digit that passes `max` decides.
pub open spec fn read_digits(digits: Seq<char>, max: nat) -> Result<nat, NumberError>
    decreases digits.len(),
{
    if digits.len() == 0 {
        Ok(0)
    } else {
        match read_digits(digits.drop_last(), max) {
            Err(error) => Err(error),
            Ok(value) => if !is_digit(digits.last()) {
                Err(NumberError::InvalidDigit)
            } else if value * 10 + (digits.last() as nat - 48) > max {
                Err(NumberError::Overflow)
            } else {
                Ok((value * 10 + (digits.last() as nat - 48)) as nat)
            },
        }
    }
}

/// The unsigned number up to `max` that `text` writes, or why it writes none.
pub open spec fn number(text: Seq<char>, max: nat) -> Result<nat, NumberError> {
    if text.len() == 0 {
        Err(NumberError::Empty)
    } else {
        read_digits(number_digits(text), max)
    }
}

/// A text writes a number exactly when it is made of digits, after an optional
/// plus sign, whose value is at most the bound; the number is that value.
pub proof fn lemma_number_is_its_decimal_value(text: Seq<char>, max: nat)
    ensures
        number(text, max) is Ok <==> {
            &&& text.len() > 0
            &&& number_digits(text).all(|c: char| is_digit(c))
            &&& decimal_value(number_digits(text)) <= max
        },
        number(text, max) matches Ok(value) ==> value == decimal_value(number_digits(text)),
{
    if text.len() > 0 {
        lemma_read_digits(number_digits(text), max);
    }
}

proof fn lemma_read_digits(digits: Seq<char>, max: nat)
    ensures
        read_digits(digits, max) is Ok <==> {
            &&& digits.all(|c: char| is_digit(c))
            &&& decimal_value(digits) <= max
        },
        read_digits(digits, max) matches Ok(value) ==> value == decimal_value(digits),
    decreases digits.len(),
{
    if digits.len() > 0 {
        let front = digits.drop_last();
        lemma_read_digits(front, max);
        let p = |c: char| is_digit(c);
        if front.all(p) && is_digit(digits.last()) {
            assert forall|i: int| 0 <= i < digits.len() implies #[trigger] p(digits[i]) by {
                if i < front.len() {
                    assert(p(front[i]));
                }
            }
        }
        if digits.all(p) {
            assert forall|i: int| 0 <= i < front.len() implies #[trigger] p(front[i]) by {
                assert(p(digits[i]));
            }
            assert(p(digits[digits.len() - 1]));
        }
    }
}

/// Reads an unsigned number of at most `max`, as the standard library reads one.
pub fn parse_number(text: &str, max: u64) -> (res: Result<u64, NumberError>)
    ensures
        match res {
            Ok(value) => number(text@, max as nat) == Ok::<nat, NumberError>(value as nat),
            Err(error) => number(text@, max as nat) == Err::<nat, NumberError>(error),
        },
{
    let chars = chars_of(text);
    if chars.len() == 0 {
        return Err(NumberError::Empty);
    }
    let first: usize = if chars.len() > 1 && chars[0] == '+' {
        1
    } else {
        0
    };
    let ghost digits = number_digits(text@);
    let mut value: u64 = 0;
    let mut i: usize = first;
    proof {
        assert(digits =~= chars@.skip(first as int));
        assert(digits.take(0) =~= Seq::<char>::empty());
    }
    while i < chars.len()
        invariant
            first <= i <= chars@.len(),
            chars@ == text@,
            chars@.len() > 0,
            digits == number_digits(text@),
            digits == chars@.skip(first as int),
            value <= max,
            read_digits(digits.take(i - first), max as nat) == Ok::<nat, NumberError>(
                value as nat,
            ),
        decreases chars@.len() - i,
    {
        let c = chars[i];
        proof {
            lemma_read_digits_step(digits, max as nat, i - first);
        }
        if c < '0' || c > '9' {
            proof {
                lemma_read_digits_error(digits, max as nat, i + 1 - first);
            }
            return Err(NumberError::InvalidDigit);
        }
        let d: u64 = (c as u32 - 48) as u64;
        if d > max || value > max / 10 || value * 10 > max - d {
            proof {
                assert(value * 10 + d > max);
                lemma_read_digits_error(digits, max as nat, i + 1 - first);
            }
            return Err(NumberError::Overflow);
        }
        value = value * 10 + d;
        i = i + 1;
    }
    proof {
        assert(digits.take(i - first) =~= digits);
    }
    Ok(value)
}

/// One more digit read.
proof fn lemma_read_digits_step(digits: Seq<char>, max: nat, n: int)
    requires
        0 <= n < digits.len(),
        read_digits(digits.take(n), max) is Ok,
    ensures
        ({
            let value = read_digits(digits.take(n), max)->Ok_0;
            read_digits(digits.take(n + 1), max) == if !is_digit(digits[n]) {
                Err::<nat, NumberError>(NumberError::InvalidDigit)
            } else if value * 10 + (digits[n] as nat - 48) > max {
                Err::<nat, NumberError>(NumberError::Overflow)
            } else {
                Ok::<nat, NumberError>((value * 10 + (digits[n] as nat - 48)) as nat)
            }
        }),
{
    assert(digits.take(n + 1).drop_last() =~= digits.take(n));
    assert(digits.take(n + 1).last() == digits[n]);
}

/// A failed prefix decides what the whole reads as.
proof fn lemma_read_digits_error(digits: Seq<char>, max: nat, n: int)
    requires
        0 <= n <= digits.len(),
        read_digits(digits.take(n), max) is Err,
    ensures
        read_digits(digits, max) == read_digits(digits.take(n), max),
    decreases digits.len(),
{
    if n == digits.len() {
        assert(digits.take(n) =~= digits);
    } else {
        assert(digits.drop_last().take(n) =~= digits.take(n));
        lemma_read_digits_error(digits.drop_last(), max, n);
    }
}

// ---------------------------------------------------------------------------
// Control characters
// ---------------------------------------------------------------------------

/// Whether `c` is a control character.
pub open spec fn is_control_char(c: char) -> bool {
    c as u32 <= 0x1f || 0x7f <= c as u32 <= 0x9f
}

/// A control character as it is printed: a short escape for the tab and the two
/// line ends, a hexadecimal escape for the others.
pub open spec fn escaped_control(c: char) -> Seq<char> {
    if c == '\t' {
        seq!['\\', 't']
    } else if c == '\r' {
        seq!['\\', 'r']
    } else if c == '\n' {
        seq!['\\', 'n']
    } else {
        seq!['\\', 'u', '{'] + hexadecimal(c as u32 as nat) + seq!['}']
    }
}

/// The text with each control character replaced by its escape.
pub open spec fn escaped(text: Seq<char>) -> Seq<char>
    decreases text.len(),
{
    if text.len() == 0 {
        Seq::empty()
    } else {
        escaped(text.drop_last()) + if is_control_char(text.last()) {
            escaped_control(text.last())
        } else {
            seq![text.last()]
        }
    }
}

fn is_control(c: char) -> (res: bool)
    ensures
        res == is_control_char(c),
{
    let code = c as u32;
    code <= 0x1f || (0x7f <= code && code <= 0x9f)
}

/// Makes a text safe to print: its control characters are escaped.
pub fn escape_control(value: &str) -> (res: Cow<'_, str>)
    ensures
        res@ == escaped(value@),
{
    let chars = chars_of(value);
    let mut out = String::new();
    let mut changed = false;
    let mut i: usize = 0;
    while i < chars.len()
        invariant
            i <= chars@.len(),
            chars@ == value@,
            out@ == escaped(chars@.take(i as int)),
            !changed ==> forall|k: int| 0 <= k < i ==> !is_control_char(#[trigger] chars@[k]),
        decreases chars@.len() - i,
    {
        let c = chars[i];
        let ghost before = out@;
        proof {
            assert(chars@.take(i + 1).drop_last() =~= chars@.take(i as int));
            assert(chars@.take(i + 1).last() == c);
        }
        if is_control(c) {
            changed = true;
            out.push('\\');
            if c == '\t' {
                out.push('t');
            } else if c == '\r' {
                out.push('r');
            } else if c == '\n' {
                out.push('n');
            } else {
                out.push('u');
                out.push('{');
                let code = hexadecimal_text((c as u32) as u64);
                out.append(code.as_str());
                out.push('}');
            }
            proof {
                assert(out@ =~= before + escaped_control(c));
            }
        } else {
            out.push(c);
            proof {
                assert(out@ =~= before + seq![c]);
            }
        }
        i = i + 1;
    }
    proof {
        assert(chars@.take(i as int) =~= chars@);
    }
    if changed {
        Cow::Owned(out)
    } else {
        proof {
            lemma_printable_text_is_kept(value@);
        }
        Cow::Borrowed(value)
    }
}

/// [`escape_control`] into a string of its own.
pub(crate) fn escape_owned(value: &str) -> (res: String)
    ensures
        res@ == escaped(value@),
{
    match escape_control(value) {
        Cow::Borrowed(text) => text.to_owned(),
        Cow::Owned(text) => text,
    }
}

/// A text without control characters is printed as it is.
pub proof fn lemma_printable_text_is_kept(text: Seq<char>)
    requires
        forall|i: int| 0 <= i < text.len() ==> !is_control_char(#[trigger] text[i]),
    ensures
        escaped(text) == text,
    decreases text.len(),
{
    if text.len() > 0 {
        assert forall|i: int| 0 <= i < text.drop_last().len() implies !is_control_char(
            #[trigger] text.drop_last()[i],
        ) by {
            assert(text.drop_last()[i] == text[i]);
        }
        lemma_printable_text_is_kept(text.drop_last());
        assert(!is_control_char(text[text.len() - 1]));
        assert(escaped(text) =~= text);
    }
}

/// A printed text never holds a control character.
pub proof fn lemma_escaped_text_is_printable(text: Seq<char>)
    ensures
        forall|i: int| 0 <= i < escaped(text).len() ==> !is_control_char(#[trigger] escaped(text)[i]),
    decreases text.len(),
{
    if text.len() > 0 {
        let front = escaped(text.drop_last());
        lemma_escaped_text_is_printable(text.drop_last());
        lemma_hexadecimal_is_printable(text.last() as u32 as nat);
        assert forall|i: int| 0 <= i < escaped(text).len() implies !is_control_char(
            #[trigger] escaped(text)[i],
        ) by {
            if i < front.len() {
                assert(escaped(text)[i] == front[i]);
            } else if is_control_char(text.last()) {
                let k = i - front.len();
                assert(escaped(text)[i] == escaped_control(text.last())[k]);
                let digits = hexadecimal(text.last() as u32 as nat);
                if text.last() != '\t' && text.last() != '\r' && text.last() != '\n' && 3 <= k < 3
                    + digits.len() {
                    assert(escaped_control(text.last())[k] == digits[k - 3]);
                }
            }
        }
    }
}

proof fn lemma_hexadecimal_is_printable(n: nat)
    ensures
        forall|i: int| 0 <= i < hexadecimal(n).len() ==> !is_control_char(
            #[trigger] hexadecimal(n)[i],
        ),
    decreases n,
{
    if n >= 16 {
        lemma_hexadecimal_is_printable(n / 16);
        assert forall|i: int| 0 <= i < hexadecimal(n).len() implies !is_control_char(
            #[trigger] hexadecimal(n)[i],
        ) by {
            if i < hexadecimal(n / 16).len() {
                assert(hexadecimal(n)[i] == hexadecimal(n / 16)[i]);
            }
        }
    }
}

// ---------------------------------------------------------------------------
// Parts of a text
// ---------------------------------------------------------------------------

/// The parts of a text between the occurrences of `separator`. There is always one.
pub open spec fn split(text: Seq<char>, separator: char) -> Seq<Seq<char>>
    decreases text.len(),
{
    if text.len() == 0 {
        seq![Seq::<char>::empty()]
    } else {
        let before = split(text.drop_last(), separator);
        if text.last() == separator {
            before.push(Seq::empty())
        } else {
            before.drop_last().push(before.last().push(text.last()))
        }
    }
}

/// Parts with `separator` between them.
pub open spec fn join(parts: Seq<Seq<char>>, separator: Seq<char>) -> Seq<char>
    decreases parts.len(),
{
    if parts.len() == 0 {
        Seq::empty()
    } else if parts.len() == 1 {
        parts[0]
    } else {
        join(parts.drop_last(), separator) + separator + parts.last()
    }
}

/// No part of a split text holds the separator, there is a part, and joining the
/// parts gives the text back.
pub proof fn lemma_split(text: Seq<char>, separator: char)
    ensures
        split(text, separator).len() >= 1,
        forall|i: int|
            0 <= i < split(text, separator).len() ==> !(#[trigger] split(
                text,
                separator,
            )[i]).contains(separator),
        join(split(text, separator), seq![separator]) == text,
    decreases text.len(),
{
    let parts = split(text, separator);
    if text.len() == 0 {
        assert(join(parts, seq![separator]) =~= text);
    } else {
        let front = text.drop_last();
        let before = split(front, separator);
        lemma_split(front, separator);
        if text.last() == separator {
            assert(parts.drop_last() =~= before);
            assert(join(parts, seq![separator]) =~= front + seq![separator] + Seq::<char>::empty());
            assert(front.push(separator) =~= text);
            assert(join(parts, seq![separator]) =~= text);
        } else {
            assert forall|i: int| 0 <= i < parts.len() implies !(
            #[trigger] parts[i]).contains(separator) by {
                if i < before.len() - 1 {
                    assert(parts[i] == before[i]);
                } else {
                    assert(!before[before.len() - 1].contains(separator));
                    let part = parts[i];
                    if part.contains(separator) {
                        let k = choose|k: int| 0 <= k < part.len() && part[k] == separator;
                        assert(before.last()[k] == separator);
                    }
                }
            }
            assert(parts.drop_last() =~= before.drop_last());
            assert(join(parts, seq![separator]) =~= join(before, seq![separator]).push(
                text.last(),
            ));
            assert(front.push(text.last()) =~= text);
        }
    }
}

/// Splits a text at each `separator`.
pub fn split_text(value: &str, separator: char) -> (res: Vec<String>)
    ensures
        texts(res@) == split(value@, separator),
{
    let chars = chars_of(value);
    let mut parts: Vec<String> = Vec::new();
    let mut part = String::new();
    let mut i: usize = 0;
    proof {
        assert(texts(parts@).push(part@) =~= split(chars@.take(0), separator));
    }
    while i < chars.len()
        invariant
            i <= chars@.len(),
            chars@ == value@,
            texts(parts@).push(part@) == split(chars@.take(i as int), separator),
        decreases chars@.len() - i,
    {
        let c = chars[i];
        let ghost before = split(chars@.take(i as int), separator);
        proof {
            assert(chars@.take(i + 1).drop_last() =~= chars@.take(i as int));
            assert(chars@.take(i + 1).last() == c);
            assert(before.drop_last() =~= texts(parts@));
            assert(before.last() == part@);
        }
        if c == separator {
            let ghost previous = parts@;
            parts.push(part);
            part = String::new();
            proof {
                assert(texts(parts@) =~= before);
            }
        } else {
            part.push(c);
        }
        i = i + 1;
    }
    proof {
        assert(chars@.take(i as int) =~= chars@);
    }
    parts.push(part);
    proof {
        assert(texts(parts@) =~= split(value@, separator));
    }
    parts
}

/// Joins texts with `separator` between them.
pub fn join_texts(parts: &Vec<String>, separator: &str) -> (res: String)
    ensures
        res@ == join(texts(parts@), separator@),
{
    let mut out = String::new();
    let mut i: usize = 0;
    let ghost all = texts(parts@);
    while i < parts.len()
        invariant
            i <= parts@.len(),
            all == texts(parts@),
            out@ == join(all.take(i as int), separator@),
        decreases parts@.len() - i,
    {
        proof {
            assert(all.take(i + 1).drop_last() =~= all.take(i as int));
            assert(all.take(i + 1).last() == parts@[i as int]@);
        }
        if i > 0 {
            out.append(separator);
        }
        out.append(parts[i].as_str());
        i = i + 1;
        proof {
            if i == 1 {
                assert(out@ =~= join(all.take(i as int), separator@));
            }
        }
    }
    proof {
        assert(all.take(i as int) =~= all);
    }
    out
}

/// What stands before and behind the first `separator`, if there is one.
pub open spec fn divided(text: Seq<char>, separator: char) -> Option<(Seq<char>, Seq<char>)>
    decreases text.len(),
{
    if text.len() == 0 {
        None
    } else if text[0] == separator {
        Some((Seq::empty(), text.drop_first()))
    } else {
        match divided(text.drop_first(), separator) {
            Some((left, right)) => Some((seq![text[0]] + left, right)),
            None => None,
        }
    }
}

/// A text is divided at its first separator.
pub proof fn lemma_divided(text: Seq<char>, separator: char)
    ensures
        match divided(text, separator) {
            Some((left, right)) => {
                &&& text == left + seq![separator] + right
                &&& !left.contains(separator)
            },
            None => !text.contains(separator),
        },
    decreases text.len(),
{
    if text.len() > 0 {
        let rest = text.drop_first();
        if text[0] == separator {
            assert(text =~= Seq::<char>::empty() + seq![separator] + rest);
        } else {
            lemma_divided(rest, separator);
            match divided(rest, separator) {
                Some((left, right)) => {
                    let longer = seq![text[0]] + left;
                    assert(text =~= seq![text[0]] + rest);
                    assert(rest == left + seq![separator] + right);
                    assert(text =~= longer + seq![separator] + right);
                    if longer.contains(separator) {
                        let k = choose|k: int| 0 <= k < longer.len() && longer[k] == separator;
                        assert(left[k - 1] == separator);
                    }
                },
                None => {
                    if text.contains(separator) {
                        let k = choose|k: int| 0 <= k < text.len() && text[k] == separator;
                        assert(rest[k - 1] == separator);
                    }
                },
            }
        }
    }
}

/// Where a separator stands for the first time, a text is divided.
pub proof fn lemma_division_is_unique(
    text: Seq<char>,
    separator: char,
    left: Seq<char>,
    right: Seq<char>,
)
    requires
        text == left + seq![separator] + right,
        !left.contains(separator),
    ensures
        divided(text, separator) == Some((left, right)),
{
    lemma_divided(text, separator);
    assert(text[left.len() as int] == separator);
    assert(text.contains(separator));
    let (first, rest) = divided(text, separator)->0;
    if first.len() < left.len() {
        assert(left[first.len() as int] == text[first.len() as int]);
        assert(left.contains(separator));
    }
    if first.len() > left.len() {
        assert(first[left.len() as int] == text[left.len() as int]);
        assert(first.contains(separator));
    }
    assert(first =~= left) by {
        assert forall|i: int| 0 <= i < left.len() implies first[i] == left[i] by {
            assert(text[i] == left[i]);
            assert(text[i] == first[i]);
        }
    }
    assert(rest =~= right) by {
        assert forall|i: int| 0 <= i < right.len() implies rest[i] == right[i] by {
            assert(text[left.len() + 1 + i] == right[i]);
            assert(text[first.len() + 1 + i] == rest[i]);
        }
    }
}

/// Divides a text at the first `separator`.
pub fn split_once(value: &str, separator: char) -> (res: Option<(String, String)>)
    ensures
        match res {
            Some((left, right)) => divided(value@, separator) == Some((left@, right@)),
            None => divided(value@, separator) is None,
        },
{
    let chars = chars_of(value);
    let length = chars.len();
    match find_char(&chars, 0, separator) {
        Some(i) => {
            let left = text_of(&chars, 0, i);
            let right = text_of(&chars, i + 1, length);
            proof {
                assert(value@ =~= left@ + seq![separator] + right@);
                lemma_division_is_unique(value@, separator, left@, right@);
            }
            Some((left, right))
        },
        None => {
            proof {
                lemma_divided(value@, separator);
                if divided(value@, separator) is Some {
                    let (left, right) = divided(value@, separator)->0;
                    assert(value@[left.len() as int] == separator);
                }
            }
            None
        },
    }
}

/// The first index from `from` at which `c` stands.
pub fn find_char(chars: &Vec<char>, from: usize, c: char) -> (res: Option<usize>)
    requires
        from <= chars@.len(),
    ensures
        match res {
            Some(i) => {
                &&& from <= i < chars@.len()
                &&& chars@[i as int] == c
                &&& forall|k: int| from <= k < i ==> #[trigger] chars@[k] != c
            },
            None => forall|k: int| from <= k < chars@.len() ==> #[trigger] chars@[k] != c,
        },
{
    let mut i: usize = from;
    while i < chars.len()
        invariant
            from <= i <= chars@.len(),
            forall|k: int| from <= k < i ==> #[trigger] chars@[k] != c,
        decreases chars@.len() - i,
    {
        if chars[i] == c {
            return Some(i);
        }
        i = i + 1;
    }
    None
}

/// Whether `c` stands in the text.
pub fn contains_char(value: &str, c: char) -> (res: bool)
    ensures
        res == value@.contains(c),
{
    let chars = chars_of(value);
    find_char(&chars, 0, c).is_some()
}

/// Whether `part` stands somewhere in `text`.
pub open spec fn occurs(part: Seq<char>, text: Seq<char>) -> bool {
    exists|i: int| occurs_at(part, text, i)
}

/// Whether `part` stands in `text` at index `i`.
pub open spec fn occurs_at(part: Seq<char>, text: Seq<char>, i: int) -> bool {
    &&& 0 <= i
    &&& i + part.len() <= text.len()
    &&& text.subrange(i, i + part.len()) == part
}

fn matches_at(chars: &Vec<char>, part: &Vec<char>, at: usize) -> (res: bool)
    ensures
        res == occurs_at(part@, chars@, at as int),
{
    let length = chars.len();
    if part.len() > length || at > length - part.len() {
        return false;
    }
    let mut i: usize = 0;
    while i < part.len()
        invariant
            i <= part@.len(),
            length == chars@.len(),
            at + part@.len() <= length,
            forall|k: int| 0 <= k < i ==> chars@[at + k] == #[trigger] part@[k],
        decreases part@.len() - i,
    {
        if chars[at + i] != part[i] {
            proof {
                assert(chars@.subrange(at as int, at + part@.len())[i as int] != part@[i as int]);
            }
            return false;
        }
        i = i + 1;
    }
    proof {
        assert(chars@.subrange(at as int, at + part@.len()) =~= part@);
    }
    true
}

/// Whether `part` stands somewhere in `value`.
pub fn contains_text(value: &str, part: &str) -> (res: bool)
    ensures
        res == occurs(part@, value@),
{
    let chars = chars_of(value);
    let wanted = chars_of(part);
    let mut i: usize = 0;
    while i <= chars.len()
        invariant
            i <= chars@.len() + 1,
            chars@ == value@,
            wanted@ == part@,
            forall|k: int| 0 <= k < i ==> !#[trigger] occurs_at(wanted@, chars@, k),
        decreases chars@.len() + 1 - i,
    {
        if matches_at(&chars, &wanted, i) {
            return true;
        }
        if i == chars.len() {
            return false;
        }
        i = i + 1;
    }
    false
}

/// What follows `prefix` in a text that begins with it.
pub fn strip_prefix(value: &str, prefix: &str) -> (res: Option<String>)
    ensures
        match res {
            Some(rest) => value@ == prefix@ + rest@,
            None => !prefix@.is_prefix_of(value@),
        },
{
    let chars = chars_of(value);
    let wanted = chars_of(prefix);
    if matches_at(&chars, &wanted, 0) {
        let rest = text_of(&chars, wanted.len(), chars.len());
        proof {
            assert(value@.subrange(0, prefix@.len() as int) == prefix@);
            assert(value@ =~= prefix@ + rest@);
        }
        Some(rest)
    } else {
        proof {
            if prefix@.is_prefix_of(value@) {
                assert(value@.subrange(0, prefix@.len() as int) =~= prefix@);
                assert(occurs_at(prefix@, value@, 0));
            }
        }
        None
    }
}

/// Whether a text begins with `c`.
pub fn starts_with_char(value: &str, c: char) -> (res: bool)
    ensures
        res == (value@.len() > 0 && value@[0] == c),
{
    let chars = chars_of(value);
    chars.len() > 0 && chars[0] == c
}

/// Whether a text ends with `c`.
pub fn ends_with_char(value: &str, c: char) -> (res: bool)
    ensures
        res == (value@.len() > 0 && value@.last() == c),
{
    let chars = chars_of(value);
    chars.len() > 0 && chars[chars.len() - 1] == c
}

/// The text without the occurrences of `c` at its end.
pub open spec fn without_trailing(text: Seq<char>, c: char) -> Seq<char>
    decreases text.len(),
{
    if text.len() > 0 && text.last() == c {
        without_trailing(text.drop_last(), c)
    } else {
        text
    }
}

pub fn trim_trailing(value: &str, c: char) -> (res: String)
    ensures
        res@ == without_trailing(value@, c),
{
    let chars = chars_of(value);
    let mut to: usize = chars.len();
    proof {
        assert(chars@.take(to as int) =~= value@);
    }
    while to > 0 && chars[to - 1] == c
        invariant
            to <= chars@.len(),
            without_trailing(chars@.take(to as int), c) == without_trailing(value@, c),
        decreases to,
    {
        proof {
            assert(chars@.take(to as int).drop_last() =~= chars@.take(to - 1));
        }
        to = to - 1;
    }
    let res = text_of(&chars, 0, to);
    proof {
        assert(res@ =~= chars@.take(to as int));
    }
    res
}

/// Whether `c` is white space, by the Unicode property of that name.
pub open spec fn is_white_space(c: char) -> bool {
    let code = c as u32;
    ||| 0x09 <= code <= 0x0d
    ||| code == 0x20
    ||| code == 0x85
    ||| code == 0xa0
    ||| code == 0x1680
    ||| 0x2000 <= code <= 0x200a
    ||| code == 0x2028
    ||| code == 0x2029
    ||| code == 0x202f
    ||| code == 0x205f
    ||| code == 0x3000
}

fn is_space(c: char) -> (res: bool)
    ensures
        res == is_white_space(c),
{
    let code = c as u32;
    (0x09 <= code && code <= 0x0d) || code == 0x20 || code == 0x85 || code == 0xa0 || code
        == 0x1680 || (0x2000 <= code && code <= 0x200a) || code == 0x2028 || code == 0x2029
        || code == 0x202f || code == 0x205f || code == 0x3000
}

/// The text without the white space at its end.
pub open spec fn trimmed_end(text: Seq<char>) -> Seq<char>
    decreases text.len(),
{
    if text.len() > 0 && is_white_space(text.last()) {
        trimmed_end(text.drop_last())
    } else {
        text
    }
}

/// The text without the white space at its start.
pub open spec fn trimmed_start(text: Seq<char>) -> Seq<char>
    decreases text.len(),
{
    if text.len() > 0 && is_white_space(text[0]) {
        trimmed_start(text.drop_first())
    } else {
        text
    }
}

/// The text without the white space around it.
pub open spec fn trimmed(text: Seq<char>) -> Seq<char> {
    trimmed_start(trimmed_end(text))
}

/// Removes the white space around a text.
pub fn trim_text(value: &str) -> (res: String)
    ensures
        res@ == trimmed(value@),
{
    let chars = chars_of(value);
    let mut to: usize = chars.len();
    proof {
        assert(chars@.take(to as int) =~= value@);
    }
    while to > 0 && is_space(chars[to - 1])
        invariant
            to <= chars@.len(),
            trimmed_end(chars@.take(to as int)) == trimmed_end(value@),
        decreases to,
    {
        proof {
            assert(chars@.take(to as int).drop_last() =~= chars@.take(to - 1));
        }
        to = to - 1;
    }
    let ghost body = chars@.take(to as int);
    let mut from: usize = 0;
    proof {
        assert(trimmed_end(value@) == body);
        assert(body.skip(0) =~= body);
    }
    while from < to && is_space(chars[from])
        invariant
            from <= to <= chars@.len(),
            body == chars@.take(to as int),
            trimmed_start(body.skip(from as int)) == trimmed_start(body),
        decreases to - from,
    {
        proof {
            assert(body.skip(from as int).drop_first() =~= body.skip(from + 1));
        }
        from = from + 1;
    }
    let res = text_of(&chars, from, to);
    proof {
        assert(res@ =~= body.skip(from as int));
    }
    res
}

/// An ASCII capital letter as a small one; any other character as it is.
pub open spec fn lower_char(c: char) -> char {
    if 'A' <= c && c <= 'Z' {
        ((c as u8 + 32) as u8) as char
    } else {
        c
    }
}

/// The text with ASCII capital letters as small ones.
pub open spec fn lowered(text: Seq<char>) -> Seq<char> {
    text.map_values(|c: char| lower_char(c))
}

pub fn lower_text(value: &str) -> (res: String)
    ensures
        res@ == lowered(value@),
{
    let chars = chars_of(value);
    let mut out = String::new();
    let mut i: usize = 0;
    while i < chars.len()
        invariant
            i <= chars@.len(),
            out@ == lowered(chars@.take(i as int)),
        decreases chars@.len() - i,
    {
        let c = chars[i];
        if 'A' <= c && c <= 'Z' {
            out.push((c as u8 + 32) as char);
        } else {
            out.push(c);
        }
        i = i + 1;
        proof {
            assert(out@ =~= lowered(chars@.take(i as int)));
        }
    }
    proof {
        assert(chars@.take(i as int) =~= value@);
    }
    out
}

// ---------------------------------------------------------------------------
// Order
// ---------------------------------------------------------------------------

/// Whether `left` stands at or before `right` in the order of strings: that of
/// their code points, from the left.
pub open spec fn ordered(left: Seq<char>, right: Seq<char>) -> bool
    decreases left.len(),
{
    if left.len() == 0 {
        true
    } else if right.len() == 0 {
        false
    } else if left[0] == right[0] {
        ordered(left.drop_first(), right.drop_first())
    } else {
        left[0] < right[0]
    }
}

/// The order of strings is total, transitive and antisymmetric.
pub proof fn lemma_ordered(a: Seq<char>, b: Seq<char>, c: Seq<char>)
    ensures
        ordered(a, a),
        ordered(a, b) || ordered(b, a),
        ordered(a, b) && ordered(b, c) ==> ordered(a, c),
        ordered(a, b) && ordered(b, a) ==> a == b,
    decreases a.len(),
{
    if a.len() == 0 {
        if ordered(b, a) {
            assert(a =~= b);
        }
    } else {
        let empty = Seq::<char>::empty();
        let b1 = if b.len() > 0 {
            b.drop_first()
        } else {
            empty
        };
        let c1 = if c.len() > 0 {
            c.drop_first()
        } else {
            empty
        };
        lemma_ordered(a.drop_first(), b1, c1);
        if ordered(a, b) && ordered(b, a) {
            assert(a =~= seq![a[0]] + a.drop_first());
            assert(b =~= seq![b[0]] + b.drop_first());
        }
    }
}

/// Whether `left` stands at or before `right` in the order of strings.
pub fn is_ordered(left: &str, right: &str) -> (res: bool)
    ensures
        res == ordered(left@, right@),
{
    let a = chars_of(left);
    let b = chars_of(right);
    let mut i: usize = 0;
    proof {
        assert(a@.skip(0) =~= a@);
        assert(b@.skip(0) =~= b@);
    }
    while i < a.len() && i < b.len()
        invariant
            i <= a@.len(),
            i <= b@.len(),
            a@ == left@,
            b@ == right@,
            ordered(left@, right@) == ordered(a@.skip(i as int), b@.skip(i as int)),
        decreases a@.len() - i,
    {
        if a[i] != b[i] {
            return a[i] < b[i];
        }
        proof {
            assert(a@.skip(i as int).drop_first() =~= a@.skip(i + 1));
            assert(b@.skip(i as int).drop_first() =~= b@.skip(i + 1));
        }
        i = i + 1;
    }
    i == a.len()
}

// ---------------------------------------------------------------------------
// Laws
// ---------------------------------------------------------------------------

/// The value of each string in a list, or of one that may be missing, is that of the string.
pub proof fn lemma_values_of_strings(strings: Seq<String>, value: Option<String>)
    ensures
        texts(strings).len() == strings.len(),
        forall|i: int| 0 <= i < strings.len() ==> #[trigger] texts(strings)[i] == strings[i]@,
        value is Some <==> optional_text(value) is Some,
        value matches Some(s) ==> optional_text(value) == Some(s@),
{
}

/// A number is written in the ten digits, the last of which stands for its rest by ten, and
/// those before it for its tenth part.
pub proof fn lemma_decimal_is_positional(n: nat)
    ensures
        decimal(n).len() > 0,
        forall|i: int| 0 <= i < decimal(n).len() ==> '0' <= #[trigger] decimal(n)[i] <= '9',
        decimal(n).last() as nat == 48 + n % 10,
        n < 10 ==> decimal(n).len() == 1,
        n >= 10 ==> decimal(n).drop_last() == decimal(n / 10),
        n > 0 ==> decimal(n)[0] != '0',
    decreases n,
{
    if n >= 10 {
        lemma_decimal_is_positional(n / 10);
        assert(decimal(n).drop_last() =~= decimal(n / 10));
        assert forall|i: int| 0 <= i < decimal(n).len() implies '0' <= #[trigger] decimal(
            n,
        )[i] <= '9' by {
            if i < decimal(n / 10).len() {
                assert(decimal(n)[i] == decimal(n / 10)[i]);
            }
        }
        assert(decimal(n)[0] == decimal(n / 10)[0]);
    }
}

/// A number is written in the sixteen digits, in lower case, the last of which stands for
/// its rest by sixteen, and those before it for its sixteenth part.
pub proof fn lemma_hexadecimal_is_positional(n: nat)
    ensures
        hexadecimal(n).len() > 0,
        forall|i: int|
            0 <= i < hexadecimal(n).len() ==> '0' <= #[trigger] hexadecimal(n)[i] <= '9' || 'a'
                <= hexadecimal(n)[i] <= 'f',
        n % 16 < 10 ==> hexadecimal(n).last() as nat == 48 + n % 16,
        n % 16 >= 10 ==> hexadecimal(n).last() as nat == 97 + (n % 16 - 10),
        n < 16 ==> hexadecimal(n).len() == 1,
        n >= 16 ==> hexadecimal(n).drop_last() == hexadecimal(n / 16),
    decreases n,
{
    if n >= 16 {
        lemma_hexadecimal_is_positional(n / 16);
        assert(hexadecimal(n).drop_last() =~= hexadecimal(n / 16));
        assert forall|i: int| 0 <= i < hexadecimal(n).len() implies '0' <= #[trigger] hexadecimal(
            n,
        )[i] <= '9' || 'a' <= hexadecimal(n)[i] <= 'f' by {
            if i < hexadecimal(n / 16).len() {
                assert(hexadecimal(n)[i] == hexadecimal(n / 16)[i]);
            }
        }
    }
}

/// Padding keeps a text at the end, puts only zeros before it, and no more than the width
/// asks for.
pub proof fn lemma_padding_adds_zeros(s: Seq<char>, width: nat)
    ensures
        s.len() >= width ==> zero_padded(s, width) == s,
        s.len() < width ==> zero_padded(s, width).len() == width,
        zero_padded(s, width).skip(zero_padded(s, width).len() - s.len()) == s,
        forall|i: int|
            0 <= i < zero_padded(s, width).len() - s.len() ==> #[trigger] zero_padded(s, width)[i]
                == '0',
{
    assert(zero_padded(s, width).skip(zero_padded(s, width).len() - s.len()) =~= s);
}

proof fn lemma_decimal_is_read(n: nat, max: nat)
    requires
        n <= max,
    ensures
        read_digits(decimal(n), max) == Ok::<nat, NumberError>(n),
    decreases n,
{
    reveal_with_fuel(read_digits, 2);
    if n < 10 {
        assert(decimal(n).drop_last() =~= Seq::empty());
    } else {
        lemma_decimal_is_read(n / 10, max);
        assert(decimal(n).drop_last() =~= decimal(n / 10));
    }
}

/// A number is read back from what it is written as, with a plus sign or without, unless it
/// is larger than what can be held.
pub proof fn lemma_number_is_read_as_written(n: nat, max: nat)
    ensures
        n <= max ==> number(decimal(n), max) == Ok::<nat, NumberError>(n),
        n <= max ==> number(seq!['+'] + decimal(n), max) == Ok::<nat, NumberError>(n),
        n > max ==> number(decimal(n), max) == Err::<nat, NumberError>(NumberError::Overflow),
{
    lemma_decimal_is_positional(n);
    let signed = seq!['+'] + decimal(n);
    assert(signed.drop_first() =~= decimal(n));
    assert(number_digits(signed) == decimal(n));
    assert(number_digits(decimal(n)) == decimal(n));
    if n <= max {
        lemma_decimal_is_read(n, max);
    } else {
        lemma_overflow(n, max);
    }
}

proof fn lemma_overflow(n: nat, max: nat)
    requires
        n > max,
    ensures
        read_digits(decimal(n), max) == Err::<nat, NumberError>(NumberError::Overflow),
    decreases n,
{
    lemma_decimal_is_positional(n);
    reveal_with_fuel(read_digits, 2);
    if n < 10 {
        assert(decimal(n).drop_last() =~= Seq::empty());
    } else {
        assert(decimal(n).drop_last() =~= decimal(n / 10));
        if n / 10 > max {
            lemma_overflow(n / 10, max);
        } else {
            lemma_decimal_is_read(n / 10, max);
        }
    }
}

/// Nothing but digits behind an optional plus sign is a number: an empty text is none, and
/// neither is one with a character that is no digit, whatever stands behind it.
pub proof fn lemma_only_digits_are_numbers(text: Seq<char>, max: nat)
    ensures
        number(text, max) == Err::<nat, NumberError>(NumberError::Empty) <==> text.len() == 0,
        number(text, max) is Ok ==> forall|i: int|
            0 < i < text.len() ==> '0' <= #[trigger] text[i] <= '9',
        number(text, max) is Ok ==> '0' <= text[0] <= '9' || text[0] == '+' && text.len() > 1,
        number(text, max) matches Ok(value) ==> value <= max,
        text.len() > 0 && !('0' <= text[0] <= '9') && !(text[0] == '+' && text.len() > 1)
            ==> number(text, max) == Err::<nat, NumberError>(NumberError::InvalidDigit),
{
    lemma_number_is_its_decimal_value(text, max);
    let digits = number_digits(text);
    let p = |c: char| is_digit(c);
    if text.len() > 0 {
        lemma_read_kind(digits, max);
        if number(text, max) is Ok {
            assert(digits.all(p));
            assert forall|i: int| 0 < i < text.len() implies '0' <= #[trigger] text[i] <= '9' by {
                if digits == text {
                    assert(p(digits[i]));
                } else {
                    assert(p(digits[i - 1]));
                }
            }
            assert(p(digits[0]));
        }
        if !('0' <= text[0] <= '9') && !(text[0] == '+' && text.len() > 1) {
            assert(digits == text);
            assert(digits.take(1).drop_last() =~= Seq::empty());
            assert(digits.take(1).last() == text[0]);
            reveal_with_fuel(read_digits, 2);
            lemma_read_digits_error(digits, max, 1);
        }
    }
}

proof fn lemma_read_kind(digits: Seq<char>, max: nat)
    ensures
        read_digits(digits, max) != Err::<nat, NumberError>(NumberError::Empty),
        digits.len() > 0 ==> (read_digits(digits, max) matches Ok(value) ==> value <= max),
    decreases digits.len(),
{
    if digits.len() > 0 {
        lemma_read_kind(digits.drop_last(), max);
    }
}

/// One more digit makes a number ten times as large and adds the digit; one more character
/// that is no digit makes it none.
pub proof fn lemma_digits_are_read_from_the_left(text: Seq<char>, c: char, max: nat)
    requires
        number(text, max) is Ok,
    ensures
        ({
            let value = number(text, max)->Ok_0;
            &&& '0' <= c <= '9' && 10 * value + (c as nat - 48) <= max ==> number(
                text.push(c),
                max,
            ) == Ok::<nat, NumberError>((10 * value + (c as nat - 48)) as nat)
            &&& '0' <= c <= '9' && 10 * value + (c as nat - 48) > max ==> number(
                text.push(c),
                max,
            ) == Err::<nat, NumberError>(NumberError::Overflow)
            &&& !('0' <= c <= '9') ==> number(text.push(c), max) == Err::<nat, NumberError>(
                NumberError::InvalidDigit,
            )
        }),
{
    let longer = text.push(c);
    lemma_only_digits_are_numbers(text, max);
    assert(number_digits(longer) =~= number_digits(text).push(c));
    assert(number_digits(longer).drop_last() =~= number_digits(text));
}

/// A printed text is printed character by character. A character outside of the two blocks
/// of control characters stays; the tab and the line ends have short escapes; the others
/// are written by their code.
pub proof fn lemma_characters_are_printed_one_by_one(text: Seq<char>, c: char)
    ensures
        escaped(Seq::empty()) == Seq::<char>::empty(),
        0x20 <= c as u32 <= 0x7e || c as u32 >= 0xa0 ==> escaped(text.push(c)) == escaped(
            text,
        ).push(c),
        c == '\t' ==> escaped(text.push(c)) == escaped(text) + seq!['\\', 't'],
        c == '\n' ==> escaped(text.push(c)) == escaped(text) + seq!['\\', 'n'],
        c == '\r' ==> escaped(text.push(c)) == escaped(text) + seq!['\\', 'r'],
        c != '\t' && c != '\n' && c != '\r' && (c as u32 <= 0x1f || 0x7f <= c as u32 <= 0x9f)
            ==> escaped(text.push(c)) == escaped(text) + seq!['\\', 'u', '{'] + hexadecimal(
            c as u32 as nat,
        ) + seq!['}'],
{
    let longer = text.push(c);
    assert(longer.drop_last() =~= text);
    if is_control_char(c) {
        assert(escaped(longer) == escaped(text) + escaped_control(c));
        if c != '\t' && c != '\n' && c != '\r' {
            assert(escaped(longer) =~= escaped(text) + seq!['\\', 'u', '{'] + hexadecimal(
                c as u32 as nat,
            ) + seq!['}']);
        }
    } else {
        assert(escaped(longer) =~= escaped(text).push(c));
    }
}

/// A text without the separator is its only part; what stands before the first separator is
/// the first part, and the parts of what stands behind it are the others.
pub proof fn lemma_parts_stand_between_separators(
    left: Seq<char>,
    right: Seq<char>,
    separator: char,
)
    requires
        !left.contains(separator),
    ensures
        split(left, separator) == seq![left],
        split(left + seq![separator] + right, separator) == seq![left] + split(right, separator),
    decreases right.len(),
{
    lemma_split_of_one_part(left, separator);
    let whole = left + seq![separator] + right;
    let front = whole.drop_last();
    if right.len() == 0 {
        assert(front =~= left);
        assert(split(whole, separator) =~= seq![left] + split(right, separator));
    } else {
        assert(front =~= left + seq![separator] + right.drop_last());
        lemma_parts_stand_between_separators(left, right.drop_last(), separator);
        lemma_split(right.drop_last(), separator);
        let before = split(right.drop_last(), separator);
        assert((seq![left] + before).drop_last() =~= seq![left] + before.drop_last());
        assert(split(whole, separator) =~= seq![left] + split(right, separator));
    }
}

proof fn lemma_split_of_one_part(text: Seq<char>, separator: char)
    requires
        !text.contains(separator),
    ensures
        split(text, separator) == seq![text],
    decreases text.len(),
{
    if text.len() == 0 {
        assert(text =~= Seq::<char>::empty());
        assert(split(text, separator) =~= seq![text]);
    } else {
        let front = text.drop_last();
        assert forall|i: int| 0 <= i < front.len() implies front[i] != separator by {
            assert(text.contains(text[i]));
        }
        lemma_split_of_one_part(front, separator);
        assert(text.contains(text.last()));
        assert(front.push(text.last()) =~= text);
        assert(split(text, separator) =~= seq![text]);
    }
}

/// Joined texts stand in their order with the separator between any two.
pub proof fn lemma_joined_texts_stand_in_order(
    left: Seq<Seq<char>>,
    right: Seq<Seq<char>>,
    part: Seq<char>,
    separator: Seq<char>,
)
    ensures
        join(Seq::empty(), separator) == Seq::<char>::empty(),
        join(seq![part], separator) == part,
        left.len() > 0 && right.len() > 0 ==> join(left + right, separator) == join(
            left,
            separator,
        ) + separator + join(right, separator),
    decreases right.len(),
{
    if left.len() > 0 && right.len() > 0 {
        let whole = left + right;
        assert(whole.drop_last() =~= left + right.drop_last());
        if right.len() == 1 {
            assert(whole.drop_last() =~= left);
        } else {
            lemma_joined_texts_stand_in_order(left, right.drop_last(), part, separator);
            assert(join(whole, separator) =~= join(left, separator) + separator + join(
                right,
                separator,
            ));
        }
    }
}

/// A text occurs in another exactly if the other is that text with something, or nothing, on
/// either side.
pub proof fn lemma_occurrence_has_sides(part: Seq<char>, text: Seq<char>)
    ensures
        occurs(part, text) <==> exists|left: Seq<char>, right: Seq<char>|
            text == #[trigger] (left + part + right),
{
    if occurs(part, text) {
        let i = choose|i: int| occurs_at(part, text, i);
        let left = text.subrange(0, i);
        let right = text.subrange(i + part.len(), text.len() as int);
        assert(text =~= left + part + right) by {
            assert forall|k: int| i <= k < i + part.len() implies text[k] == part[k - i] by {
                assert(text.subrange(i, i + part.len())[k - i] == part[k - i]);
            }
        }
    }
    if exists|left: Seq<char>, right: Seq<char>| text == #[trigger] (left + part + right) {
        let (left, right) = choose|left: Seq<char>, right: Seq<char>|
            text == #[trigger] (left + part + right);
        assert(text.subrange(left.len() as int, (left.len() + part.len()) as int) =~= part);
        assert(occurs_at(part, text, left.len() as int));
    }
}

/// What is left of a text without its trailing characters is a beginning that does not end
/// with such a one; nothing else was cut off.
pub proof fn lemma_only_trailing_characters_are_cut(text: Seq<char>, c: char)
    ensures
        without_trailing(text, c).is_prefix_of(text),
        without_trailing(text, c).len() > 0 ==> without_trailing(text, c).last() != c,
        forall|i: int| without_trailing(text, c).len() <= i < text.len() ==> #[trigger] text[i] == c,
    decreases text.len(),
{
    if text.len() > 0 && text.last() == c {
        let front = text.drop_last();
        lemma_only_trailing_characters_are_cut(front, c);
        assert forall|i: int| without_trailing(text, c).len() <= i < text.len() implies
            #[trigger] text[i] == c by {
            if i < front.len() {
                assert(front[i] == text[i]);
            }
        }
    }
}

/// Among the ASCII characters, the blank and those from the tab to the carriage return are
/// white space; beyond them, the blanks and separators of Unicode are.
pub proof fn lemma_white_space(c: char)
    ensures
        c as u32 <= 0x7f ==> (is_white_space(c) <==> c == ' ' || '\t' <= c <= '\r'),
        c as u32 >= 0x80 ==> (is_white_space(c) <==> seq![
            0x85u32,
            0xa0,
            0x1680,
            0x2000,
            0x2001,
            0x2002,
            0x2003,
            0x2004,
            0x2005,
            0x2006,
            0x2007,
            0x2008,
            0x2009,
            0x200a,
            0x2028,
            0x2029,
            0x202f,
            0x205f,
            0x3000,
        ].contains(c as u32)),
{
    let all = seq![
        0x85u32,
        0xa0,
        0x1680,
        0x2000,
        0x2001,
        0x2002,
        0x2003,
        0x2004,
        0x2005,
        0x2006,
        0x2007,
        0x2008,
        0x2009,
        0x200a,
        0x2028,
        0x2029,
        0x202f,
        0x205f,
        0x3000,
    ];
    let code = c as u32;
    assert(all[0] == 0x85 && all[1] == 0xa0 && all[2] == 0x1680 && all[3] == 0x2000 && all[4]
        == 0x2001 && all[5] == 0x2002 && all[6] == 0x2003 && all[7] == 0x2004 && all[8] == 0x2005
        && all[9] == 0x2006 && all[10] == 0x2007 && all[11] == 0x2008 && all[12] == 0x2009
        && all[13] == 0x200a && all[14] == 0x2028 && all[15] == 0x2029 && all[16] == 0x202f
        && all[17] == 0x205f && all[18] == 0x3000);
    if code >= 0x80 && is_white_space(c) {
        assert(all.contains(code));
    }
}

/// What is cut off a text on either side is white space, and what is left neither begins nor
/// ends with any.
pub proof fn lemma_only_surrounding_white_space_is_cut(text: Seq<char>)
    ensures
        exists|left: Seq<char>, right: Seq<char>|
            {
                &&& text == #[trigger] (left + trimmed(text) + right)
                &&& forall|i: int| 0 <= i < left.len() ==> is_white_space(#[trigger] left[i])
                &&& forall|i: int| 0 <= i < right.len() ==> is_white_space(#[trigger] right[i])
            },
        trimmed(text).len() > 0 ==> !is_white_space(trimmed(text)[0]) && !is_white_space(
            trimmed(text).last(),
        ),
{
    lemma_trimmed_end(text);
    let body = trimmed_end(text);
    lemma_trimmed_start(body);
    let left = body.subrange(0, body.len() - trimmed(text).len());
    let right = text.skip(body.len() as int);
    assert(body =~= left + trimmed(text));
    assert(text =~= body + right);
    assert(text =~= left + trimmed(text) + right);
}

proof fn lemma_trimmed_end(text: Seq<char>)
    ensures
        trimmed_end(text).is_prefix_of(text),
        trimmed_end(text).len() > 0 ==> !is_white_space(trimmed_end(text).last()),
        forall|i: int|
            trimmed_end(text).len() <= i < text.len() ==> is_white_space(#[trigger] text[i]),
    decreases text.len(),
{
    if text.len() > 0 && is_white_space(text.last()) {
        let front = text.drop_last();
        lemma_trimmed_end(front);
        assert forall|i: int| trimmed_end(text).len() <= i < text.len() implies is_white_space(
            #[trigger] text[i],
        ) by {
            if i < front.len() {
                assert(front[i] == text[i]);
            }
        }
    }
}

proof fn lemma_trimmed_start(text: Seq<char>)
    ensures
        trimmed_start(text).len() <= text.len(),
        trimmed_start(text) == text.skip(text.len() - trimmed_start(text).len()),
        trimmed_start(text).len() > 0 ==> !is_white_space(trimmed_start(text)[0]),
        forall|i: int|
            0 <= i < text.len() - trimmed_start(text).len() ==> is_white_space(#[trigger] text[i]),
    decreases text.len(),
{
    if text.len() > 0 && is_white_space(text[0]) {
        let rest = text.drop_first();
        lemma_trimmed_start(rest);
        assert(text.skip(text.len() - trimmed_start(text).len()) =~= rest.skip(
            rest.len() - trimmed_start(rest).len(),
        ));
        assert forall|i: int| 0 <= i < text.len() - trimmed_start(text).len() implies
            is_white_space(#[trigger] text[i]) by {
            if i > 0 {
                assert(rest[i - 1] == text[i]);
            }
        }
    } else {
        assert(text.skip(0) =~= text);
    }
}

/// A text with neither white space at its start nor at its end is what is left of it
/// wherever white space stands around it.
pub proof fn lemma_text_inside_white_space(left: Seq<char>, text: Seq<char>, right: Seq<char>)
    requires
        forall|i: int| 0 <= i < left.len() ==> is_white_space(#[trigger] left[i]),
        forall|i: int| 0 <= i < right.len() ==> is_white_space(#[trigger] right[i]),
        text.len() > 0 ==> !is_white_space(text[0]) && !is_white_space(text.last()),
    ensures
        trimmed(left + text + right) == text,
{
    let whole = left + text + right;
    let body = trimmed_end(whole);
    lemma_trimmed_end(whole);
    lemma_trimmed_start(body);
    let rest = trimmed(whole);
    if text.len() > 0 {
        let at = left.len() + text.len() - 1;
        assert(whole[at] == text.last());
        assert(body.len() > at);
        if body.len() > at + 1 {
            assert(body.last() == whole[body.len() - 1]);
            assert(whole[body.len() - 1] == right[body.len() - 1 - at - 1]);
        }
        assert(body =~= left + text);
        assert(body[left.len() as int] == text[0]);
        assert(body.len() - rest.len() <= left.len());
        if body.len() - rest.len() < left.len() {
            let k = body.len() - rest.len();
            assert(rest[0] == body[k]);
            assert(body[k] == left[k]);
        }
        assert(rest =~= text);
    } else {
        if body.len() > 0 {
            let k = body.len() - 1;
            assert(body.last() == whole[k]);
            if k < left.len() {
                assert(whole[k] == left[k]);
            } else {
                assert(whole[k] == right[k - left.len()]);
            }
        }
        assert(rest =~= text);
    }
}

/// Each of the letters from A to Z becomes the small one; every other character stays.
pub proof fn lemma_only_capital_letters_are_lowered(text: Seq<char>)
    ensures
        lowered(text).len() == text.len(),
        forall|i: int|
            0 <= i < text.len() && 'A' <= text[i] <= 'Z' ==> #[trigger] lowered(text)[i] as nat
                == text[i] as nat + 32,
        forall|i: int|
            0 <= i < text.len() && !('A' <= text[i] <= 'Z') ==> #[trigger] lowered(text)[i]
                == text[i],
{
}

/// A text stands before another exactly if the other begins with it, or if it has the lesser
/// character where the two first differ.
pub proof fn lemma_order_is_decided_by_the_first_difference(left: Seq<char>, right: Seq<char>)
    ensures
        ordered(left, right) <==> left.is_prefix_of(right) || exists|i: int|
            {
                &&& 0 <= i < left.len()
                &&& i < right.len()
                &&& left.take(i) == right.take(i)
                &&& #[trigger] left[i] < right[i]
            },
    decreases left.len(),
{
    if left.len() == 0 {
        assert(right.subrange(0, 0) =~= left);
    } else if right.len() > 0 {
        let a = left.drop_first();
        let b = right.drop_first();
        lemma_order_is_decided_by_the_first_difference(a, b);
        if left[0] == right[0] {
            if a.is_prefix_of(b) {
                assert(right.subrange(0, left.len() as int) =~= left) by {
                    assert forall|k: int| 0 < k < left.len() implies right[k] == left[k] by {
                        assert(b.subrange(0, a.len() as int)[k - 1] == a[k - 1]);
                    }
                }
            }
            if left.is_prefix_of(right) {
                assert(b.subrange(0, a.len() as int) =~= a) by {
                    assert forall|k: int| 0 <= k < a.len() implies b[k] == a[k] by {
                        assert(right.subrange(0, left.len() as int)[k + 1] == left[k + 1]);
                    }
                }
            }
            if exists|i: int| 0 <= i < a.len() && i < b.len() && a.take(i) == b.take(i)
                && #[trigger] a[i] < b[i] {
                let i = choose|i: int|
                    0 <= i < a.len() && i < b.len() && a.take(i) == b.take(i) && #[trigger] a[i]
                        < b[i];
                assert(left.take(i + 1) =~= seq![left[0]] + a.take(i));
                assert(right.take(i + 1) =~= seq![right[0]] + b.take(i));
                assert(left[i + 1] < right[i + 1]);
            }
            if exists|i: int| 0 <= i < left.len() && i < right.len() && left.take(i) == right.take(i)
                && #[trigger] left[i] < right[i] {
                let i = choose|i: int|
                    0 <= i < left.len() && i < right.len() && left.take(i) == right.take(i)
                        && #[trigger] left[i] < right[i];
                assert(i > 0);
                assert(a.take(i - 1) =~= left.take(i).drop_first());
                assert(b.take(i - 1) =~= right.take(i).drop_first());
                assert(a[i - 1] < b[i - 1]);
            }
        } else {
            if left.is_prefix_of(right) {
                assert(right.subrange(0, left.len() as int)[0] == left[0]);
            }
            if left[0] < right[0] {
                assert(left.take(0) =~= right.take(0));
            }
            if exists|i: int| 0 <= i < left.len() && i < right.len() && left.take(i) == right.take(i)
                && #[trigger] left[i] < right[i] {
                let i = choose|i: int|
                    0 <= i < left.len() && i < right.len() && left.take(i) == right.take(i)
                        && #[trigger] left[i] < right[i];
                if i > 0 {
                    assert(left.take(i)[0] == right.take(i)[0]);
                }
            }
        }
    }
}

/// Whether a part of a text stands from `i` up to `j`: a separator or an end of the text on
/// either side, and no separator inside.
pub open spec fn is_part(text: Seq<char>, separator: char, i: int, j: int) -> bool {
    &&& 0 <= i <= j <= text.len()
    &&& i == 0 || text[i - 1] == separator
    &&& j == text.len() || text[j] == separator
    &&& forall|k: int| i <= k < j ==> #[trigger] text[k] != separator
}

/// Whether a text is a part of another one.
pub open spec fn is_enclosed(part: Seq<char>, text: Seq<char>, separator: char) -> bool {
    exists|i: int, j: int| #[trigger] is_part(text, separator, i, j) && part == text.subrange(i, j)
}

/// The parts of a text are exactly what separators, or the ends of the text, enclose.
pub proof fn lemma_parts_are_enclosed(text: Seq<char>, separator: char)
    ensures
        forall|k: int|
            0 <= k < split(text, separator).len() ==> is_enclosed(
                #[trigger] split(text, separator)[k],
                text,
                separator,
            ),
        forall|i: int, j: int| #[trigger]
            is_part(text, separator, i, j) ==> split(text, separator).contains(
                text.subrange(i, j),
            ),
    decreases text.len(),
{
    lemma_divided(text, separator);
    let parts = split(text, separator);
    match divided(text, separator) {
        None => {
            lemma_split_of_one_part(text, separator);
            assert(text.subrange(0, text.len() as int) =~= text);
            assert forall|i: int| 0 <= i < text.len() implies #[trigger] text[i] != separator by {
                assert(text.contains(text[i]));
            }
            assert(is_part(text, separator, 0, text.len() as int));
            assert forall|k: int| 0 <= k < parts.len() implies is_enclosed(
                #[trigger] parts[k],
                text,
                separator,
            ) by {
                assert(parts[k] == text.subrange(0, text.len() as int));
            }
            assert forall|i: int, j: int| #[trigger] is_part(text, separator, i, j) implies
                parts.contains(text.subrange(i, j)) by {
                assert(i == 0 && j == text.len());
                assert(parts[0] == text.subrange(i, j));
            }
        },
        Some((left, right)) => {
            let n = left.len() + 1;
            lemma_parts_stand_between_separators(left, right, separator);
            lemma_parts_are_enclosed(right, separator);
            let others = split(right, separator);
            assert forall|k: int| 0 <= k < left.len() implies #[trigger] left[k] != separator by {
                assert(left.contains(left[k]));
            }
            assert(forall|k: int| 0 <= k < left.len() ==> #[trigger] text[k] == left[k]);
            assert(forall|k: int| n <= k < text.len() ==> #[trigger] text[k] == right[k - n]);
            assert(text[n - 1] == separator);
            assert forall|k: int| 0 <= k < parts.len() implies is_enclosed(
                #[trigger] parts[k],
                text,
                separator,
            ) by {
                if k == 0 {
                    assert(is_part(text, separator, 0, n - 1));
                    assert(text.subrange(0, n - 1) =~= left);
                } else {
                    assert(parts[k] == others[k - 1]);
                    assert(is_enclosed(others[k - 1], right, separator));
                    let (i, j) = choose|i: int, j: int|
                        #[trigger] is_part(right, separator, i, j) && others[k - 1]
                            == right.subrange(i, j);
                    assert(is_part(text, separator, i + n, j + n));
                    assert(text.subrange(i + n, j + n) =~= right.subrange(i, j));
                }
            }
            assert forall|i: int, j: int| #[trigger] is_part(text, separator, i, j) implies
                parts.contains(text.subrange(i, j)) by {
                if i == 0 {
                    if j < n - 1 {
                        assert(text[j] == left[j]);
                    }
                    assert(j == n - 1);
                    assert(text.subrange(i, j) =~= left);
                    assert(parts[0] == left);
                } else {
                    if i < n {
                        assert(text[i - 1] == left[i - 1]);
                    }
                    assert forall|k: int| i - n <= k < j - n implies #[trigger] right[k]
                        != separator by {
                        assert(text[k + n] != separator);
                    }
                    assert(is_part(right, separator, i - n, j - n));
                    assert(text.subrange(i, j) =~= right.subrange(i - n, j - n));
                    let k = choose|k: int|
                        0 <= k < others.len() && others[k] == right.subrange(i - n, j - n);
                    assert(parts[k + 1] == others[k]);
                }
            }
        },
    }
}

} // verus!

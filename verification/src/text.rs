//! Text: UTF-8, whitespace, ASCII case and decimal numbers.

use vstd::prelude::*;
use vstd::utf8::*;

verus! {

/// `String::push`: appends one character.
pub assume_specification[ String::push ](text: &mut String, c: char)
    ensures
        final(text)@ == old(text)@.push(c),
;

/// Whether a character is a letter: the Unicode property Alphabetic.
pub uninterp spec fn char_alphabetic(c: char) -> bool;

/// Whether a character is a lower case letter: the Unicode property Lowercase.
pub uninterp spec fn char_lowercase(c: char) -> bool;

/// `char::is_alphabetic`: a fixed property of the character.
pub assume_specification[ char::is_alphabetic ](c: char) -> (alphabetic: bool)
    ensures
        alphabetic == char_alphabetic(c),
;

/// `char::is_lowercase`: a fixed property of the character.
pub assume_specification[ char::is_lowercase ](c: char) -> (lowercase: bool)
    ensures
        lowercase == char_lowercase(c),
;

/// How many characters at the front are whitespace.
pub open spec fn leading_space(text: Seq<char>) -> nat
    decreases text.len(),
{
    if text.len() > 0 && spec_is_whitespace(text[0]) {
        1 + leading_space(text.drop_first())
    } else {
        0
    }
}

/// How many characters at the back are whitespace.
pub open spec fn trailing_space(text: Seq<char>) -> nat
    decreases text.len(),
{
    if text.len() > 0 && spec_is_whitespace(text.last()) {
        1 + trailing_space(text.drop_last())
    } else {
        0
    }
}

/// A text without the whitespace around it.
pub open spec fn spec_trim(text: Seq<char>) -> Seq<char> {
    let front = text.skip(leading_space(text) as int);
    front.take(front.len() - trailing_space(front))
}

/// The whitespace around a text is not longer than the text.
pub proof fn lemma_trim_bounds(text: Seq<char>)
    ensures
        leading_space(text) <= text.len(),
        trailing_space(text) <= text.len(),
        trailing_space(text.skip(leading_space(text) as int)) <= text.len() - leading_space(text),
{
    lemma_space_bounds(text);
    lemma_space_bounds(text.skip(leading_space(text) as int));
}

proof fn lemma_space_bounds(text: Seq<char>)
    ensures
        leading_space(text) <= text.len(),
        trailing_space(text) <= text.len(),
    decreases text.len(),
{
    if text.len() > 0 {
        lemma_space_bounds(text.drop_first());
        lemma_space_bounds(text.drop_last());
    }
}

/// `str::trim`: leaves out the whitespace at the front and at the back.
pub assume_specification[ str::trim ](text: &str) -> (trimmed: &str)
    ensures
        trimmed@ == spec_trim(text@),
;

/// How many bytes at the front of `bytes` decode, one character after another.
pub open spec fn valid_up_to(bytes: Seq<u8>) -> nat
    decreases bytes.len(),
{
    if bytes.len() > 0 && valid_first_scalar(bytes) {
        (length_of_first_scalar(bytes) + valid_up_to(pop_first_scalar(bytes))) as nat
    } else {
        0
    }
}

/// Whether more bytes could make these decode: they end within a character.
pub open spec fn ends_early(bytes: Seq<u8>) -> bool {
    !valid_utf8(bytes) && exists|rest: Seq<u8>| valid_utf8(#[trigger] (bytes + rest))
}

/// `core::str::from_utf8`: succeeds on valid UTF-8. Otherwise the first part of
/// the error is how far the bytes decode, and the second says whether the input
/// ended in the middle of a character rather than holding a wrong byte.
#[verifier::external_body]
pub(crate) fn str_from_utf8(bytes: &[u8]) -> (text: Result<&str, (usize, bool)>)
    ensures
        text is Ok <==> valid_utf8(bytes@),
        text matches Ok(text) ==> text@ == decode_utf8(bytes@),
        text matches Err(error) ==> error.0 == valid_up_to(bytes@) && error.1 == ends_early(bytes@),
{
    core::str::from_utf8(bytes).map_err(|e| (e.valid_up_to(), e.error_len().is_none()))
}

/// The front of `bytes` that decodes is valid UTF-8.
pub proof fn lemma_valid_up_to(bytes: Seq<u8>)
    ensures
        valid_up_to(bytes) <= bytes.len(),
        valid_utf8(bytes.take(valid_up_to(bytes) as int)),
    decreases bytes.len(),
{
    if bytes.len() > 0 && valid_first_scalar(bytes) {
        let rest = pop_first_scalar(bytes);
        let n = length_of_first_scalar(bytes);
        lemma_valid_up_to(rest);
        let front = bytes.take(valid_up_to(bytes) as int);
        assert(valid_first_scalar(front));
        assert(pop_first_scalar(front) =~= rest.take(valid_up_to(rest) as int));
    }
}

/// The text that bytes hold, if the only thing wrong with them is that they end
/// in the middle of a character.
pub open spec fn spec_lenient_text(bytes: Seq<u8>) -> Option<Seq<char>> {
    if valid_utf8(bytes) {
        Some(decode_utf8(bytes))
    } else if ends_early(bytes) {
        Some(decode_utf8(bytes.take(valid_up_to(bytes) as int)))
    } else {
        None
    }
}

/// The text that bytes hold; an unfinished last character is left out.
pub fn lenient_text<'a>(bytes: &'a [u8]) -> (text: Option<&'a str>)
    ensures
        text is Some <==> spec_lenient_text(bytes@) is Some,
        text matches Some(text) ==> text@ == spec_lenient_text(bytes@)->0,
{
    match str_from_utf8(bytes) {
        Ok(text) => Some(text),
        Err((n, ends_early)) => {
            if !ends_early {
                return None;
            }
            proof {
                lemma_valid_up_to(bytes@);
            }
            let front = vstd::slice::slice_subrange(bytes, 0, n);
            assert(front@ =~= bytes@.take(n as int));
            match str_from_utf8(front) {
                Ok(text) => Some(text),
                Err(_) => None,
            }
        },
    }
}

/// The number of bytes that encode a character.
pub open spec fn spec_utf8_len(c: char) -> nat {
    encode_scalar(c as u32).len()
}

/// The number of bytes that encode a character.
pub fn utf8_len(c: char) -> (len: usize)
    ensures
        len == spec_utf8_len(c),
        1 <= len <= 4,
{
    let code: u32 = c as u32;
    if code < 0x80 {
        1
    } else if code < 0x800 {
        2
    } else if code < 0x1_0000 {
        3
    } else {
        4
    }
}

/// Appending a character appends its encoding.
pub proof fn lemma_encode_push(text: Seq<char>, c: char)
    ensures
        encode_utf8(text.push(c)) == encode_utf8(text) + encode_scalar(c as u32),
    decreases text.len(),
{
    reveal_with_fuel(encode_utf8, 2);
    if text.len() == 0 {
        assert(text.push(c).drop_first() =~= Seq::<char>::empty());
        assert(encode_utf8(text.push(c)) =~= encode_utf8(text) + encode_scalar(c as u32));
    } else {
        lemma_encode_push(text.drop_first(), c);
        assert(text.push(c).drop_first() =~= text.drop_first().push(c));
        assert(encode_utf8(text.push(c)) =~= encode_utf8(text) + encode_scalar(c as u32));
    }
}

/// The encoding of a concatenation is the concatenation of the encodings.
pub proof fn lemma_encode_concat(a: Seq<char>, b: Seq<char>)
    ensures
        encode_utf8(a + b) == encode_utf8(a) + encode_utf8(b),
    decreases b.len(),
{
    if b.len() == 0 {
        assert(a + b =~= a);
        assert(encode_utf8(a) + encode_utf8(b) =~= encode_utf8(a));
    } else {
        let front = b.drop_last();
        lemma_encode_concat(a, front);
        lemma_encode_push(a + front, b.last());
        lemma_encode_push(front, b.last());
        assert((a + front).push(b.last()) =~= a + b);
        assert(front.push(b.last()) =~= b);
        assert(encode_utf8(a + b) =~= encode_utf8(a) + encode_utf8(b));
    }
}

/// The Unicode property White_Space.
pub open spec fn spec_is_whitespace(c: char) -> bool {
    let code = c as u32;
    ||| 0x9 <= code <= 0xd
    ||| code == 0x20
    ||| code == 0x85
    ||| code == 0xa0
    ||| code == 0x1680
    ||| 0x2000 <= code <= 0x200a
    ||| code == 0x2028
    ||| code == 0x2029
    ||| code == 0x202f
    ||| code == 0x205f
    ||| code == 0x3000
}

/// Whether a character has the Unicode property White_Space.
pub fn is_whitespace(c: char) -> (whitespace: bool)
    ensures
        whitespace == spec_is_whitespace(c),
{
    let code: u32 = c as u32;
    (0x9 <= code && code <= 0xd) || code == 0x20 || code == 0x85 || code == 0xa0 || code == 0x1680
        || (0x2000 <= code && code <= 0x200a) || code == 0x2028 || code == 0x2029 || code == 0x202f
        || code == 0x205f || code == 0x3000
}

/// A byte with an ASCII upper case letter replaced by its lower case.
pub open spec fn spec_ascii_lower(b: u8) -> u8 {
    if 65 <= b <= 90 {
        (b + 32) as u8
    } else {
        b
    }
}

/// A byte with an ASCII upper case letter replaced by its lower case.
pub fn ascii_lower(b: u8) -> (lower: u8)
    ensures
        lower == spec_ascii_lower(b),
{
    if 65 <= b && b <= 90 {
        b + 32
    } else {
        b
    }
}

/// The bytes with every ASCII letter in lower case.
pub open spec fn spec_ascii_lowercase(bytes: Seq<u8>) -> Seq<u8> {
    Seq::new(bytes.len(), |i: int| spec_ascii_lower(bytes[i]))
}

/// Whether two byte strings differ in nothing but the case of ASCII letters.
pub fn eq_ignore_ascii_case(a: &[u8], b: &[u8]) -> (equal: bool)
    ensures
        equal == (spec_ascii_lowercase(a@) == spec_ascii_lowercase(b@)),
{
    if a.len() != b.len() {
        assert(spec_ascii_lowercase(a@).len() != spec_ascii_lowercase(b@).len());
        return false;
    }
    let mut i: usize = 0;
    while i < a.len()
        invariant
            i <= a@.len() == b@.len(),
            forall|j: int|
                0 <= j < i ==> spec_ascii_lower(#[trigger] a@[j]) == spec_ascii_lower(b@[j]),
        decreases a@.len() - i,
    {
        if ascii_lower(a[i]) != ascii_lower(b[i]) {
            assert(spec_ascii_lowercase(a@)[i as int] != spec_ascii_lowercase(b@)[i as int]);
            return false;
        }
        i += 1;
    }
    assert(spec_ascii_lowercase(a@) =~= spec_ascii_lowercase(b@));
    true
}

/// Whether `bytes` starts with `prefix`.
pub open spec fn spec_starts_with(bytes: Seq<u8>, prefix: Seq<u8>) -> bool {
    prefix.len() <= bytes.len() && bytes.take(prefix.len() as int) == prefix
}

/// Whether `bytes` starts with `prefix`.
pub fn starts_with(bytes: &[u8], prefix: &[u8]) -> (starts: bool)
    ensures
        starts == spec_starts_with(bytes@, prefix@),
{
    if bytes.len() < prefix.len() {
        return false;
    }
    let mut i: usize = 0;
    while i < prefix.len()
        invariant
            i <= prefix@.len() <= bytes@.len(),
            forall|j: int| 0 <= j < i ==> bytes@[j] == #[trigger] prefix@[j],
        decreases prefix@.len() - i,
    {
        if bytes[i] != prefix[i] {
            assert(bytes@.take(prefix@.len() as int)[i as int] != prefix@[i as int]);
            return false;
        }
        i += 1;
    }
    assert(bytes@.take(prefix@.len() as int) =~= prefix@);
    true
}

/// Appends bytes to others.
pub fn append_bytes(out: &mut Vec<u8>, bytes: &[u8])
    ensures
        final(out)@ == old(out)@ + bytes@,
{
    let mut i: usize = 0;
    assert(bytes@.take(0) =~= Seq::<u8>::empty());
    while i < bytes.len()
        invariant
            i <= bytes@.len(),
            out@ == old(out)@ + bytes@.take(i as int),
        decreases bytes@.len() - i,
    {
        out.push(bytes[i]);
        assert(bytes@.take(i + 1) =~= bytes@.take(i as int).push(bytes@[i as int]));
        assert(out@ =~= old(out)@ + bytes@.take(i + 1));
        i += 1;
    }
    assert(bytes@.take(bytes@.len() as int) =~= bytes@);
}

/// Whether bytes come before others: at the first difference, or by being the
/// beginning of the others.
pub open spec fn bytes_before(a: Seq<u8>, b: Seq<u8>) -> bool
    decreases a.len(),
{
    if b.len() == 0 {
        false
    } else if a.len() == 0 {
        true
    } else if a[0] != b[0] {
        a[0] < b[0]
    } else {
        bytes_before(a.drop_first(), b.drop_first())
    }
}

pub proof fn lemma_bytes_before_total(a: Seq<u8>, b: Seq<u8>)
    ensures
        a == b ==> !bytes_before(a, b),
        a != b ==> bytes_before(a, b) == !bytes_before(b, a),
    decreases a.len(),
{
    if a.len() > 0 && b.len() > 0 && a[0] == b[0] {
        lemma_bytes_before_total(a.drop_first(), b.drop_first());
        if a.drop_first() == b.drop_first() {
            assert(a =~= seq![a[0]] + a.drop_first());
            assert(b =~= seq![b[0]] + b.drop_first());
        }
    } else if a.len() == 0 && b.len() == 0 {
        assert(a =~= b);
    }
}

pub proof fn lemma_bytes_before_trans(a: Seq<u8>, b: Seq<u8>, c: Seq<u8>)
    requires
        bytes_before(a, b),
        bytes_before(b, c),
    ensures
        bytes_before(a, c),
    decreases a.len(),
{
    if a.len() > 0 && a[0] == b[0] && b[0] == c[0] {
        lemma_bytes_before_trans(a.drop_first(), b.drop_first(), c.drop_first());
    }
}

/// Whether bytes come before others.
pub fn is_before(a: &[u8], b: &[u8]) -> (before: bool)
    ensures
        before == bytes_before(a@, b@),
{
    let mut i: usize = 0;
    assert(a@.skip(0) =~= a@);
    assert(b@.skip(0) =~= b@);
    while i < a.len() && i < b.len() && a[i] == b[i]
        invariant
            i <= a@.len(),
            i <= b@.len(),
            bytes_before(a@, b@) == bytes_before(a@.skip(i as int), b@.skip(i as int)),
        decreases a@.len() - i,
    {
        proof {
            assert(a@.skip(i as int).drop_first() =~= a@.skip(i + 1));
            assert(b@.skip(i as int).drop_first() =~= b@.skip(i + 1));
        }
        i += 1;
    }
    if i == b.len() {
        false
    } else if i == a.len() {
        true
    } else {
        a[i] < b[i]
    }
}

/// Whether two strings are the same.
pub fn str_equal(a: &str, b: &str) -> (equal: bool)
    ensures
        equal == (a@ == b@),
{
    proof {
        encode_utf8_decode_utf8(a@);
        encode_utf8_decode_utf8(b@);
    }
    bytes_equal(a.as_bytes(), b.as_bytes())
}

/// Whether two byte strings are the same.
pub fn bytes_equal(a: &[u8], b: &[u8]) -> (equal: bool)
    ensures
        equal == (a@ == b@),
{
    if a.len() != b.len() {
        return false;
    }
    let equal = starts_with(a, b);
    assert(a@.take(b@.len() as int) =~= a@);
    equal
}

/// The decimal digits of a number, most significant first.
pub open spec fn decimal(n: nat) -> Seq<u8>
    decreases n,
{
    if n < 10 {
        seq![(48 + n) as u8]
    } else {
        decimal(n / 10).push((48 + n % 10) as u8)
    }
}

/// ASCII bytes as characters.
pub open spec fn ascii_chars(bytes: Seq<u8>) -> Seq<char> {
    Seq::new(bytes.len(), |i: int| bytes[i] as char)
}

/// ASCII bytes decode to the characters of the same numbers, and encode back.
pub proof fn lemma_ascii_decodes(bytes: Seq<u8>)
    requires
        forall|i: int| 0 <= i < bytes.len() ==> #[trigger] bytes[i] < 128,
    ensures
        valid_utf8(bytes),
        decode_utf8(bytes) == ascii_chars(bytes),
        encode_utf8(ascii_chars(bytes)) == bytes,
    decreases bytes.len(),
{
    if bytes.len() == 0 {
        assert(ascii_chars(bytes) =~= Seq::<char>::empty());
        assert(decode_utf8(bytes) =~= ascii_chars(bytes));
    } else {
        let b = bytes[0];
        assert(b & 0x7f == b) by (bit_vector)
            requires
                b < 128,
        ;
        assert(valid_first_scalar(bytes));
        assert(pop_first_scalar(bytes) =~= bytes.drop_first());
        lemma_ascii_decodes(bytes.drop_first());
        assert(decode_utf8(bytes) =~= seq![b as char] + ascii_chars(bytes.drop_first()));
        assert(decode_utf8(bytes) =~= ascii_chars(bytes));
        decode_utf8_encode_utf8(bytes);
    }
}

/// Appends the decimal digits of a number.
pub fn push_decimal(out: &mut Vec<u8>, n: u64)
    ensures
        final(out)@ == old(out)@ + decimal(n as nat),
    decreases n,
{
    if n < 10 {
        out.push(48 + n as u8);
    } else {
        push_decimal(out, n / 10);
        out.push(48 + (n % 10) as u8);
        assert(out@ =~= old(out)@ + decimal(n as nat));
    }
}

/// The decimal digits of a number, as characters.
pub open spec fn decimal_text(n: nat) -> Seq<char> {
    ascii_chars(decimal(n))
}

/// Appends the decimal digits of a number to a text.
pub fn push_number(out: &mut String, n: u64)
    ensures
        final(out)@ == old(out)@ + decimal_text(n as nat),
    decreases n,
{
    if n >= 10 {
        push_number(out, n / 10);
    }
    let digit: u8 = 48 + (n % 10) as u8;
    out.push(digit as char);
    assert(out@ =~= old(out)@ + decimal_text(n as nat));
}

/// The value of a string of decimal digits.
pub open spec fn digits_value(digits: Seq<u8>) -> nat
    decreases digits.len(),
{
    if digits.len() == 0 {
        0
    } else {
        (10 * digits_value(digits.drop_last()) + (digits.last() - 48)) as nat
    }
}

/// Whether every byte is a decimal digit.
pub open spec fn all_digits(bytes: Seq<u8>) -> bool {
    forall|i: int| 0 <= i < bytes.len() ==> 48 <= #[trigger] bytes[i] <= 57
}

/// The bytes without a leading plus sign.
pub open spec fn strip_plus(bytes: Seq<u8>) -> Seq<u8> {
    if bytes.len() > 0 && bytes[0] == 43 {
        bytes.drop_first()
    } else {
        bytes
    }
}

/// The number that a string of decimal digits with an optional plus sign stands
/// for, if it is one and fits.
pub open spec fn spec_parse_u64(bytes: Seq<u8>) -> Option<u64> {
    let digits = strip_plus(bytes);
    if digits.len() > 0 && all_digits(digits) && digits_value(digits) <= u64::MAX {
        Some(digits_value(digits) as u64)
    } else {
        None
    }
}

proof fn lemma_digits_value_monotonic(digits: Seq<u8>, n: int)
    requires
        all_digits(digits),
        0 <= n <= digits.len(),
    ensures
        digits_value(digits.take(n)) <= digits_value(digits),
    decreases digits.len() - n,
{
    if n < digits.len() {
        let longer = digits.take(n + 1);
        assert(longer.drop_last() =~= digits.take(n));
        assert(longer.last() == digits[n]);
        lemma_digits_value_monotonic(digits, n + 1);
    } else {
        assert(digits.take(n) =~= digits);
    }
}

/// Parses an unsigned decimal number with an optional plus sign.
pub fn parse_u64(bytes: &[u8]) -> (value: Option<u64>)
    ensures
        value == spec_parse_u64(bytes@),
{
    let first: usize = if bytes.len() > 0 && bytes[0] == 43 {
        1
    } else {
        0
    };
    let ghost digits = strip_plus(bytes@);
    assert(digits =~= bytes@.skip(first as int));
    if first == bytes.len() {
        return None;
    }
    let mut value: u64 = 0;
    let mut i: usize = first;
    assert(digits.take(0) =~= Seq::<u8>::empty());
    while i < bytes.len()
        invariant
            first <= i <= bytes@.len(),
            digits == bytes@.skip(first as int),
            digits == strip_plus(bytes@),
            value == digits_value(digits.take(i - first)),
            all_digits(digits.take(i - first)),
        decreases bytes@.len() - i,
    {
        let b: u8 = bytes[i];
        let ghost longer = digits.take(i - first + 1);
        assert(longer.drop_last() =~= digits.take(i - first));
        assert(longer.last() == b && digits[i - first] == b);
        if b < 48 || b > 57 {
            return None;
        }
        assert forall|j: int| 0 <= j < longer.len() implies 48 <= #[trigger] longer[j] <= 57 by {
            if j < i - first {
                assert(digits.take(i - first)[j] == longer[j]);
            }
        }
        let digit: u64 = (b - 48) as u64;
        if value > u64::MAX / 10 || value * 10 > u64::MAX - digit {
            assert(digits_value(longer) > u64::MAX);
            proof {
                if all_digits(digits) {
                    lemma_digits_value_monotonic(digits, i - first + 1);
                }
            }
            return None;
        }
        value = value * 10 + digit;
        i += 1;
    }
    assert(digits.take(i - first) =~= digits);
    Some(value)
}

/// The digits of a number are digits, and stand for it.
pub proof fn lemma_decimal_value(n: nat)
    ensures
        all_digits(decimal(n)),
        decimal(n).len() > 0,
        digits_value(decimal(n)) == n,
    decreases n,
{
    if n < 10 {
        let d = (48 + n) as u8;
        assert(decimal(n).drop_last() =~= Seq::<u8>::empty());
        assert(digits_value(Seq::<u8>::empty()) == 0);
    } else {
        lemma_decimal_value(n / 10);
        assert(decimal(n).drop_last() =~= decimal(n / 10));
    }
}

/// A number survives being written in decimal and parsed.
pub proof fn lemma_parse_of_decimal(n: u64)
    ensures
        spec_parse_u64(decimal(n as nat)) == Some(n),
{
    lemma_decimal_value(n as nat);
    assert(strip_plus(decimal(n as nat)) == decimal(n as nat));
}

/// Where a valid beginning of a valid text ends is a character boundary.
pub proof fn lemma_valid_prefix_boundary(bytes: Seq<u8>, n: int)
    requires
        valid_utf8(bytes),
        0 <= n <= bytes.len(),
        valid_utf8(bytes.take(n)),
    ensures
        is_char_boundary(bytes, n),
    decreases n,
{
    let front = bytes.take(n);
    if n > 0 {
        assert(valid_first_scalar(front));
        assert(valid_first_scalar(bytes));
        let k = length_of_first_scalar(bytes);
        assert(pop_first_scalar(front) =~= pop_first_scalar(bytes).take(n - k));
        lemma_valid_prefix_boundary(pop_first_scalar(bytes), n - k);
        reveal_with_fuel(is_char_boundary, 2);
    }
}

/// A text whose encoding begins with that of another text begins with it.
pub proof fn lemma_text_prefix(text: Seq<char>, prefix: Seq<char>)
    requires
        spec_starts_with(encode_utf8(text), encode_utf8(prefix)),
    ensures
        text.len() >= prefix.len(),
        text.take(prefix.len() as int) == prefix,
{
    let bytes = encode_utf8(text);
    let n = encode_utf8(prefix).len() as int;
    encode_utf8_valid_utf8(text);
    encode_utf8_decode_utf8(text);
    encode_utf8_valid_utf8(prefix);
    encode_utf8_decode_utf8(prefix);
    lemma_valid_prefix_boundary(bytes, n);
    decode_utf8_split(bytes, n);
    assert(bytes.subrange(0, n) =~= bytes.take(n));
    assert(text.take(prefix.len() as int) =~= prefix);
}

/// The first byte that differs decides which of two byte strings comes first; if there is
/// none, the shorter one does.
pub proof fn lemma_first_difference_decides(a: &[u8], b: &[u8], n: int, before: bool)
    requires
        call_ensures(is_before, (a, b), before),
        0 <= n <= a@.len(),
        n <= b@.len(),
        a@.take(n) == b@.take(n),
        n == a@.len() || n == b@.len() || a@[n] != b@[n],
    ensures
        n < a@.len() && n < b@.len() ==> before == (a@[n] < b@[n]),
        n == a@.len() ==> before == (a@.len() < b@.len()),
        n == b@.len() ==> !before,
{
    lemma_same_beginning(a@, b@, n);
}

proof fn lemma_same_beginning(a: Seq<u8>, b: Seq<u8>, n: int)
    requires
        0 <= n <= a.len(),
        n <= b.len(),
        a.take(n) == b.take(n),
        n == a.len() || n == b.len() || a[n] != b[n],
    ensures
        n < a.len() && n < b.len() ==> bytes_before(a, b) == (a[n] < b[n]),
        n == a.len() ==> bytes_before(a, b) == (a.len() < b.len()),
        n == b.len() ==> !bytes_before(a, b),
    decreases n,
{
    if n > 0 {
        assert(a[0] == a.take(n)[0] && b[0] == b.take(n)[0]);
        let rest_a = a.drop_first();
        let rest_b = b.drop_first();
        assert forall|i: int| 0 <= i < n - 1 implies #[trigger] rest_a[i] == rest_b[i] by {
            assert(a[i + 1] == a.take(n)[i + 1] && b[i + 1] == b.take(n)[i + 1]);
        }
        assert(rest_a.take(n - 1) =~= rest_b.take(n - 1));
        lemma_same_beginning(rest_a, rest_b, n - 1);
    }
}

/// A number is written in decimal digits, the first of which is zero only in zero itself. Ten
/// times as large a number is written with a zero behind it.
pub proof fn lemma_decimal_digits(n: nat)
    ensures
        decimal(n).len() > 0,
        forall|i: int| 0 <= i < decimal(n).len() ==> '0' as u8 <= #[trigger] decimal(n)[i] <= '9' as u8,
        n > 0 ==> decimal(n)[0] != '0' as u8,
        n < 10 ==> decimal(n) == seq![('0' as u8 + n) as u8],
        n > 0 ==> decimal(10 * n) == decimal(n).push('0' as u8),
    decreases n,
{
    if n >= 10 {
        lemma_decimal_digits(n / 10);
    }
}

/// Only digits are read as a number, with a plus sign before them or not.
pub proof fn lemma_only_digits_are_numbers(bytes: &[u8], value: Option<u64>)
    requires
        call_ensures(parse_u64, (bytes,), value),
    ensures
        bytes@.len() == 0 ==> value is None,
        bytes@ == seq!['+' as u8] ==> value is None,
        forall|i: int|
            0 < i < bytes@.len() && !('0' as u8 <= #[trigger] bytes@[i] <= '9' as u8) ==> value is None,
        bytes@.len() > 0 && !('0' as u8 <= bytes@[0] <= '9' as u8) && bytes@[0] != '+' as u8
            ==> value is None,
        value matches Some(n) ==> {
            let digits = if bytes@[0] == '+' as u8 {
                bytes@.drop_first()
            } else {
                bytes@
            };
            digits_value(digits) == n
        },
{
    let digits = strip_plus(bytes@);
    assert forall|i: int|
        0 < i < bytes@.len() && !('0' as u8 <= #[trigger] bytes@[i] <= '9' as u8) implies value is None by {
        if all_digits(digits) {
            if bytes@[0] == 43 {
                assert(digits[i - 1] == bytes@[i]);
            } else {
                assert(digits[i] == bytes@[i]);
            }
        }
    }
    if bytes@.len() > 0 && bytes@[0] != 43 {
        assert(digits[0] == bytes@[0]);
    }
}

/// Bytes that are a text are taken as it is. Of others only the last character may be cut off:
/// what is taken is their beginning and lacks less than one character.
pub proof fn lemma_lenient_text(bytes: &[u8], text: Option<&str>)
    requires
        call_ensures(lenient_text, (bytes,), text),
    ensures
        valid_utf8(bytes@) ==> (text matches Some(text) && encode_utf8(text@) == bytes@),
        text matches Some(text) ==> {
            let taken = encode_utf8(text@);
            &&& taken.len() <= bytes@.len()
            &&& bytes@.take(taken.len() as int) == taken
        },
{
    if valid_utf8(bytes@) {
        decode_utf8_encode_utf8(bytes@);
        assert(bytes@.take(bytes@.len() as int) =~= bytes@);
    } else {
        lemma_valid_up_to(bytes@);
        decode_utf8_encode_utf8(bytes@.take(valid_up_to(bytes@) as int));
    }
}

/// The characters that are counted at the front of a text are whitespace, and the one after
/// them is not.
pub proof fn lemma_leading_space(text: Seq<char>)
    ensures
        leading_space(text) <= text.len(),
        forall|i: int|
            0 <= i < leading_space(text) ==> spec_is_whitespace(#[trigger] text[i]),
        leading_space(text) < text.len() ==> !spec_is_whitespace(text[leading_space(text) as int]),
    decreases text.len(),
{
    if text.len() > 0 && spec_is_whitespace(text[0]) {
        let rest = text.drop_first();
        lemma_leading_space(rest);
        assert forall|i: int| 0 <= i < leading_space(text) implies spec_is_whitespace(
            #[trigger] text[i],
        ) by {
            if i > 0 {
                assert(rest[i - 1] == text[i]);
            }
        }
    }
}

/// The characters that are counted at the end of a text are whitespace, and the one before
/// them is not.
pub proof fn lemma_trailing_space(text: Seq<char>)
    ensures
        trailing_space(text) <= text.len(),
        forall|i: int|
            text.len() - trailing_space(text) <= i < text.len() ==> spec_is_whitespace(
                #[trigger] text[i],
            ),
        trailing_space(text) < text.len() ==> !spec_is_whitespace(
            text[text.len() - trailing_space(text) - 1],
        ),
    decreases text.len(),
{
    if text.len() > 0 && spec_is_whitespace(text.last()) {
        let rest = text.drop_last();
        lemma_trailing_space(rest);
        assert forall|i: int|
            text.len() - trailing_space(text) <= i < text.len() implies spec_is_whitespace(
            #[trigger] text[i],
        ) by {
            if i < rest.len() {
                assert(rest[i] == text[i]);
            }
        }
    }
}

/// In ASCII, a space and the characters from the tab to the carriage return are whitespace, and
/// beyond that none but the next line, the two no-break spaces and the other spaces and
/// separators of Unicode.
pub proof fn lemma_whitespace(c: char, whitespace: bool)
    requires
        call_ensures(is_whitespace, (c,), whitespace),
    ensures
        (c as u32) < 0x80 ==> (whitespace <==> c == ' ' || c == '\t' || c == '\n' || c == '\r' || c
            == '\u{b}' || c == '\u{c}'),
        c == '\u{85}' || c == '\u{a0}' || c == '\u{202f}' || c == '\u{205f}' || c == '\u{3000}' || c
            == '\u{1680}' || c == '\u{2028}' || c == '\u{2029}' ==> whitespace,
        '\u{2000}' <= c <= '\u{200a}' ==> whitespace,
        whitespace ==> c as u32 <= 0x3000,
        whitespace && c as u32 >= 0x80 ==> c == '\u{85}' || c == '\u{a0}' || c == '\u{1680}' || (
        0x2000 <= c as u32 <= 0x205f) || c == '\u{3000}',
{
}

} // verus!

//! Numbers as text.
//!
//! Everything Keel prints is put together from literal text, other text and the
//! numbers here, so that what a report says is as provable as what it is about.

use vstd::prelude::*;
use vstd::string::*;

use crate::order::bytes_below;

verus! {

/// `String::push`: appends one character.
pub assume_specification[ String::push ](s: &mut String, c: char)
    ensures
        final(s)@ == old(s)@.push(c),
;

/// How `{:?}` prints some text: in double quotes, with what cannot stand between
/// them escaped.
pub uninterp spec fn debug_text(text: Seq<char>) -> Seq<char>;

/// Text as `{:?}` prints it.
///
/// Calls `format!` with the `Debug` of `str`, and gives what comes of it a name:
/// the same text is printed the same way every time. Which characters are
/// escaped, and how, is left unsaid.
#[verifier::external_body]
pub(crate) fn quoted(text: &str) -> (r: String)
    ensures
        r@ == debug_text(text@),
{
    format!("{text:?}")
}

/// The character of a decimal or hexadecimal digit.
pub open spec fn digit(d: nat) -> char {
    if d == 0 { '0' }
    else if d == 1 { '1' }
    else if d == 2 { '2' }
    else if d == 3 { '3' }
    else if d == 4 { '4' }
    else if d == 5 { '5' }
    else if d == 6 { '6' }
    else if d == 7 { '7' }
    else if d == 8 { '8' }
    else if d == 9 { '9' }
    else if d == 10 { 'a' }
    else if d == 11 { 'b' }
    else if d == 12 { 'c' }
    else if d == 13 { 'd' }
    else if d == 14 { 'e' }
    else { 'f' }
}

fn digit_char(d: u64) -> (c: char)
    requires
        d < 16,
    ensures
        c == digit(d as nat),
{
    match d {
        0 => '0',
        1 => '1',
        2 => '2',
        3 => '3',
        4 => '4',
        5 => '5',
        6 => '6',
        7 => '7',
        8 => '8',
        9 => '9',
        10 => 'a',
        11 => 'b',
        12 => 'c',
        13 => 'd',
        14 => 'e',
        _ => 'f',
    }
}

/// A number in decimal, without leading zeros.
pub open spec fn decimal(n: nat) -> Seq<char>
    decreases n,
{
    if n < 10 {
        seq![digit(n)]
    } else {
        decimal(n / 10).push(digit(n % 10))
    }
}

/// Append a number in decimal.
pub fn push_decimal(out: &mut String, n: u64)
    ensures
        final(out)@ == old(out)@ + decimal(n as nat),
    decreases n,
{
    if n < 10 {
        out.push(digit_char(n));
        proof {
            assert(out@ =~= old(out)@ + decimal(n as nat));
        }
    } else {
        push_decimal(out, n / 10);
        out.push(digit_char(n % 10));
        proof {
            assert(out@ =~= old(out)@ + decimal(n as nat));
        }
    }
}

/// Append a wide number in decimal.
pub fn push_wide_decimal(out: &mut String, n: u128)
    ensures
        final(out)@ == old(out)@ + decimal(n as nat),
    decreases n,
{
    if n <= u64::MAX as u128 {
        push_decimal(out, n as u64);
    } else {
        push_wide_decimal(out, n / 10);
        out.push(digit_char((n % 10) as u64));
        proof {
            assert(out@ =~= old(out)@ + decimal(n as nat));
        }
    }
}

/// A signed number in decimal.
pub open spec fn signed_decimal(n: int) -> Seq<char> {
    if n < 0 {
        seq!['-'] + decimal((-n) as nat)
    } else {
        decimal(n as nat)
    }
}

/// Append a signed number in decimal.
pub fn push_signed(out: &mut String, n: i64)
    ensures
        final(out)@ == old(out)@ + signed_decimal(n as int),
{
    if n < 0 {
        out.push('-');
        let magnitude: u64 = ((-(n + 1)) as u64) + 1;
        push_decimal(out, magnitude);
        proof {
            assert(out@ =~= old(out)@ + signed_decimal(n as int));
        }
    } else {
        push_decimal(out, n as u64);
    }
}

/// `n` copies of one character.
pub open spec fn repeated(c: char, n: nat) -> Seq<char> {
    Seq::new(n, |i: int| c)
}

/// Text moved right to fill a width.
pub open spec fn padded(text: Seq<char>, fill: char, width: nat) -> Seq<char> {
    if text.len() >= width {
        text
    } else {
        repeated(fill, (width - text.len()) as nat) + text
    }
}

/// Append text, moved right to fill a width.
pub fn push_padded(out: &mut String, text: &str, fill: char, width: usize)
    ensures
        final(out)@ == old(out)@ + padded(text@, fill, width as nat),
{
    let len: usize = text.unicode_len();
    let mut done: usize = len;
    proof {
        assert(repeated(fill, 0) =~= Seq::empty());
        assert(old(out)@ + repeated(fill, 0) =~= old(out)@);
    }
    while done < width
        invariant
            len <= done,
            done <= width || done == len,
            out@ == old(out)@ + repeated(fill, (done - len) as nat),
        decreases width - done,
    {
        out.push(fill);
        proof {
            assert(repeated(fill, (done + 1 - len) as nat) =~= repeated(
                fill,
                (done - len) as nat,
            ).push(fill));
            assert(out@ =~= old(out)@ + repeated(fill, (done + 1 - len) as nat));
        }
        done += 1;
    }
    out.append(text);
    proof {
        assert(out@ =~= old(out)@ + padded(text@, fill, width as nat));
    }
}

/// A number in decimal, with zeros before it up to a width.
pub open spec fn zero_padded(n: nat, width: nat) -> Seq<char> {
    padded(decimal(n), '0', width)
}

/// Append a number in decimal, with zeros before it up to a width.
pub fn push_zero_padded(out: &mut String, n: u64, width: usize)
    ensures
        final(out)@ == old(out)@ + zero_padded(n as nat, width as nat),
{
    let mut digits = String::new();
    push_decimal(&mut digits, n);
    proof {
        assert(digits@ =~= decimal(n as nat));
    }
    push_padded(out, digits.as_str(), '0', width);
}

/// Bytes in hexadecimal, two digits each.
pub open spec fn hex(bytes: Seq<u8>) -> Seq<char>
    decreases bytes.len(),
{
    if bytes.len() == 0 {
        Seq::empty()
    } else {
        hex(bytes.drop_last()).push(digit((bytes.last() / 16) as nat)).push(
            digit((bytes.last() % 16) as nat),
        )
    }
}

/// Append bytes in hexadecimal, two digits each.
pub fn push_hex(out: &mut String, bytes: &[u8])
    ensures
        final(out)@ == old(out)@ + hex(bytes@),
{
    let mut i: usize = 0;
    proof {
        assert(bytes@.take(0) =~= Seq::empty());
        assert(old(out)@ + hex(bytes@.take(0)) =~= old(out)@);
    }
    while i < bytes.len()
        invariant
            i <= bytes@.len(),
            out@ == old(out)@ + hex(bytes@.take(i as int)),
        decreases bytes@.len() - i,
    {
        let b: u64 = bytes[i] as u64;
        out.push(digit_char(b / 16));
        out.push(digit_char(b % 16));
        proof {
            let next = bytes@.take(i + 1);
            assert(next.drop_last() =~= bytes@.take(i as int));
            assert(next.last() == bytes@[i as int]);
            assert(out@ =~= old(out)@ + hex(next));
        }
        i += 1;
    }
    proof {
        assert(bytes@.take(i as int) =~= bytes@);
    }
}

/// What a hexadecimal digit is worth.
pub open spec fn hex_value(c: char) -> Option<nat> {
    if '0' <= c && c <= '9' {
        Some((c as int - '0' as int) as nat)
    } else if 'a' <= c && c <= 'f' {
        Some((c as int - 'a' as int + 10) as nat)
    } else if 'A' <= c && c <= 'F' {
        Some((c as int - 'A' as int + 10) as nat)
    } else {
        None
    }
}

// ------------------------------------------------------------------ reading

/// The characters of some text.
pub fn characters(text: &str) -> (r: Vec<char>)
    ensures
        r@ == text@,
{
    let mut r: Vec<char> = Vec::new();
    for c in it: text.chars()
        invariant
            it.seq() == text@,
            r@ == text@.take(it.index() as int),
    {
        proof {
            assert(text@.take(it.index() + 1) =~= text@.take(it.index() as int).push(c));
        }
        r.push(c);
    }
    proof {
        assert(text@.take(text@.len() as int) =~= text@);
    }
    r
}

/// Text made of some characters.
pub fn text_of(chars: &[char]) -> (r: String)
    ensures
        r@ == chars@,
{
    let mut r = String::new();
    let mut i: usize = 0;
    while i < chars.len()
        invariant
            i <= chars@.len(),
            r@ == chars@.take(i as int),
        decreases chars@.len() - i,
    {
        proof {
            assert(chars@.take(i + 1) =~= chars@.take(i as int).push(chars@[i as int]));
        }
        r.push(chars[i]);
        i += 1;
    }
    proof {
        assert(chars@.take(i as int) =~= chars@);
    }
    r
}

pub open spec fn is_digit(c: char) -> bool {
    '0' <= c && c <= '9'
}

/// What a row of decimal digits is worth.
pub open spec fn digits_value(s: Seq<char>) -> nat
    decreases s.len(),
{
    if s.len() == 0 {
        0
    } else {
        10 * digits_value(s.drop_last()) + (s.last() as int - '0' as int) as nat
    }
}

/// The digits of a number that may have a plus sign in front of it.
pub open spec fn unsigned_digits(s: Seq<char>) -> Seq<char> {
    if s.len() > 0 && s[0] == '+' {
        s.skip(1)
    } else {
        s
    }
}

/// The number that some text is in decimal, where it is one that fits.
pub open spec fn parsed_number(s: Seq<char>) -> Option<u64> {
    let digits = unsigned_digits(s);
    if digits.len() > 0 && (forall|i: int| 0 <= i < digits.len() ==> is_digit(#[trigger] digits[i]))
        && digits_value(digits) <= u64::MAX {
        Some(digits_value(digits) as u64)
    } else {
        None
    }
}

proof fn lemma_digits_value_grows(s: Seq<char>, n: int)
    requires
        0 <= n <= s.len(),
        forall|i: int| 0 <= i < s.len() ==> is_digit(#[trigger] s[i]),
    ensures
        digits_value(s.take(n)) <= digits_value(s),
    decreases s.len() - n,
{
    if n == s.len() {
        assert(s.take(n) =~= s);
    } else {
        lemma_digits_value_grows(s, n + 1);
        assert(s.take(n + 1).drop_last() =~= s.take(n));
    }
}

/// Read a number in decimal.
pub fn parse_number(chars: &[char]) -> (r: Option<u64>)
    ensures
        r == parsed_number(chars@),
{
    let start: usize = if chars.len() > 0 && chars[0] == '+' {
        1
    } else {
        0
    };
    let ghost digits = unsigned_digits(chars@);
    proof {
        assert(digits =~= chars@.skip(start as int));
    }
    if start == chars.len() {
        return None;
    }
    let mut i: usize = start;
    let mut value: u64 = 0;
    proof {
        assert(digits.take(0) =~= Seq::empty());
    }
    while i < chars.len()
        invariant
            start <= i <= chars@.len(),
            start < chars@.len(),
            digits == chars@.skip(start as int),
            digits == unsigned_digits(chars@),
            forall|j: int| 0 <= j < i - start ==> is_digit(#[trigger] digits[j]),
            value == digits_value(digits.take(i - start)),
        decreases chars@.len() - i,
    {
        let c: char = chars[i];
        proof {
            assert(digits[i - start] == c);
            let next = digits.take(i - start + 1);
            assert(next.drop_last() =~= digits.take(i - start));
            assert(next.last() == c);
        }
        if c < '0' || c > '9' {
            return None;
        }
        let d: u64 = (c as u64) - ('0' as u64);
        if value > (u64::MAX - d) / 10 {
            proof {
                if forall|j: int| 0 <= j < digits.len() ==> is_digit(#[trigger] digits[j]) {
                    lemma_digits_value_grows(digits, i - start + 1);
                }
            }
            return None;
        }
        value = value * 10 + d;
        i += 1;
    }
    proof {
        assert(digits.take(i - start) =~= digits);
    }
    Some(value)
}

/// Append one digit.
pub fn push_digit(out: &mut String, d: u64)
    requires
        d < 16,
    ensures
        final(out)@ == old(out)@.push(digit(d as nat)),
{
    out.push(digit_char(d));
}

/// A number in hexadecimal, without leading zeros.
pub open spec fn plain_hex(n: nat) -> Seq<char>
    decreases n,
{
    if n < 16 {
        seq![digit(n)]
    } else {
        plain_hex(n / 16).push(digit(n % 16))
    }
}

/// Append a number in hexadecimal, without leading zeros.
pub fn push_plain_hex(out: &mut String, n: u64)
    ensures
        final(out)@ == old(out)@ + plain_hex(n as nat),
    decreases n,
{
    if n < 16 {
        out.push(digit_char(n));
        proof {
            assert(out@ =~= old(out)@ + plain_hex(n as nat));
        }
    } else {
        push_plain_hex(out, n / 16);
        out.push(digit_char(n % 16));
        proof {
            assert(out@ =~= old(out)@ + plain_hex(n as nat));
        }
    }
}

// ---------------------------------------------------------------- comparing

/// Whether two texts are the same.
pub fn same_text(a: &str, b: &str) -> (r: bool)
    ensures
        r == (a@ == b@),
{
    let left: Vec<char> = characters(a);
    let right: Vec<char> = characters(b);
    same_characters(left.as_slice(), right.as_slice())
}

/// Whether two runs of characters are the same.
pub fn same_characters(left: &[char], right: &[char]) -> (r: bool)
    ensures
        r == (left@ == right@),
{
    if left.len() != right.len() {
        return false;
    }
    let mut i: usize = 0;
    while i < left.len()
        invariant
            i <= left@.len(),
            left@.len() == right@.len(),
            forall|j: int| 0 <= j < i ==> left@[j] == right@[j],
        decreases left@.len() - i,
    {
        if left[i] != right[i] {
            return false;
        }
        i += 1;
    }
    proof {
        assert(left@ =~= right@);
    }
    true
}

// -------------------------------------------------------------------- bytes

/// The low byte of each character: the bytes of plain text.
pub open spec fn plain_bytes(text: Seq<char>) -> Seq<u8> {
    Seq::new(text.len(), |i: int| text[i] as u8)
}

/// The low byte of each character.
pub fn to_plain_bytes(text: &str) -> (r: Vec<u8>)
    ensures
        r@ == plain_bytes(text@),
{
    let mut r: Vec<u8> = Vec::new();
    for c in it: text.chars()
        invariant
            it.seq() == text@,
            r@ == plain_bytes(text@).take(it.index() as int),
    {
        proof {
            assert(plain_bytes(text@).take(it.index() + 1) =~= plain_bytes(text@).take(
                it.index() as int,
            ).push(c as u8));
        }
        r.push(c as u8);
    }
    proof {
        assert(plain_bytes(text@).take(text@.len() as int) =~= plain_bytes(text@));
    }
    r
}

/// Ten to a power.
pub open spec fn ten_to(k: nat) -> nat
    decreases k,
{
    if k == 0 {
        1
    } else {
        10 * ten_to((k - 1) as nat)
    }
}

/// A number below ten to a power has at most that many digits.
pub proof fn lemma_digits_of_a_small_number(n: nat, k: nat)
    requires
        n < ten_to(k),
        k >= 1,
    ensures
        1 <= decimal(n).len() <= k,
    decreases k,
{
    if n >= 10 {
        if k == 1 {
            reveal_with_fuel(ten_to, 2);
        } else {
            assert(n / 10 < ten_to((k - 1) as nat));
            lemma_digits_of_a_small_number(n / 10, (k - 1) as nat);
        }
    }
}

/// A 64-bit number has at most twenty digits.
pub proof fn lemma_digits_of_a_word(n: u64)
    ensures
        1 <= decimal(n as nat).len() <= 20,
{
    reveal_with_fuel(ten_to, 21);
    lemma_digits_of_a_small_number(n as nat, 20);
}

/// One digit more in a number is one character more in its text.
proof fn lemma_zero_padded_by_one(n: nat, width: nat)
    requires
        width >= 1,
    ensures
        zero_padded(n, width + 1) == zero_padded(n / 10, width).push(digit(n % 10)),
{
    assert(zero_padded(n, width + 1) =~= zero_padded(n / 10, width).push(digit(n % 10)));
}

/// Numbers of one width come in the order of their texts.
pub proof fn lemma_zero_padded_order(a: nat, b: nat, width: nat)
    requires
        a < b < ten_to(width),
        width >= 1,
    ensures
        zero_padded(a, width).len() == width,
        zero_padded(b, width).len() == width,
        bytes_below(plain_bytes(zero_padded(a, width)), plain_bytes(zero_padded(b, width))),
    decreases width,
{
    let (x, y) = (plain_bytes(zero_padded(a, width)), plain_bytes(zero_padded(b, width)));
    lemma_digits_of_a_small_number(a, width);
    lemma_digits_of_a_small_number(b, width);
    if width == 1 {
        reveal_with_fuel(ten_to, 2);
        assert(x[0] < y[0]);
        assert(x.take(0) =~= y.take(0));
    } else {
        let w = (width - 1) as nat;
        lemma_zero_padded_by_one(a, w);
        lemma_zero_padded_by_one(b, w);
        assert(b / 10 < ten_to(w));
        let (p, q) = (
            plain_bytes(zero_padded(a / 10, w)),
            plain_bytes(zero_padded(b / 10, w)),
        );
        lemma_digits_of_a_small_number(a / 10, w);
        lemma_digits_of_a_small_number(b / 10, w);
        assert(x.take(w as int) =~= p);
        assert(y.take(w as int) =~= q);
        if a / 10 < b / 10 {
            lemma_zero_padded_order(a / 10, b / 10, w);
            let k = choose|k: int|
                #![trigger p[k], q[k]]
                0 <= k < p.len() && k < q.len() && p[k] < q[k] && p.take(k) == q.take(k);
            assert(x[k] == p[k] && y[k] == q[k]);
            assert(x.take(k) =~= p.take(k));
            assert(y.take(k) =~= q.take(k));
        } else {
            assert(a / 10 == b / 10);
            assert(a % 10 < b % 10);
            assert(x[w as int] < y[w as int]);
        }
    }
}

// ----------------------------------------------------------------- fractions

/// A number of parts of a unit, with a point between the units and the rest.
pub open spec fn fixed(parts: nat, unit: nat, places: nat) -> Seq<char> {
    decimal(parts / unit) + "."@ + zero_padded(parts % unit, places)
}

/// Append a number of parts of a unit, with a point between the units and the
/// rest.
pub fn push_fixed(out: &mut String, parts: u64, unit: u64, places: usize)
    requires
        unit > 0,
    ensures
        final(out)@ == old(out)@ + fixed(parts as nat, unit as nat, places as nat),
{
    push_decimal(out, parts / unit);
    out.append(".");
    push_zero_padded(out, parts % unit, places);
    proof {
        assert(out@ =~= old(out)@ + fixed(parts as nat, unit as nat, places as nat));
    }
}

/// The whole number nearest to a fraction, and the larger one of two as near. What
/// is counted is parts of a unit, one in a power of ten, and `fives` is that power
/// of five: where the fraction lies halfway and is one of halves, quarters and so
/// on of the unit, which a binary number holds exactly, the even one is taken.
pub open spec fn rounded(num: nat, den: nat, fives: nat) -> nat {
    let below = num / den;
    if 2 * (num % den) == den && (2 * below + 1) % fives == 0 && below % 2 == 0 {
        below
    } else if 2 * (num % den) >= den {
        below + 1
    } else {
        below
    }
}

/// The whole number nearest to a fraction.
pub fn round_wide(num: u128, den: u128, fives: u64) -> (r: u128)
    requires
        den > 0,
        fives > 0,
        num <= 0x1_0000_0000_0000_0000_0000_0000,
        den <= 0x1_0000_0000_0000_0000_0000_0000,
    ensures
        r == rounded(num as nat, den as nat, fives as nat),
{
    let below: u128 = num / den;
    let rest: u128 = num % den;
    proof {
        assert(below <= num) by (nonlinear_arith)
            requires
                below == num / den,
                den > 0,
        ;
    }
    if 2 * rest == den && (2 * below + 1) % (fives as u128) == 0 && below % 2 == 0 {
        below
    } else if 2 * rest >= den {
        below + 1
    } else {
        below
    }
}

/// The whole number nearest to a fraction, or the largest there is.
pub fn round(num: u128, den: u64, fives: u64) -> (r: u64)
    requires
        den > 0,
        fives > 0,
        num <= 0x1_0000_0000_0000_0000_0000_0000,
    ensures
        r == (if rounded(num as nat, den as nat, fives as nat) > u64::MAX {
            u64::MAX as nat
        } else {
            rounded(num as nat, den as nat, fives as nat)
        }),
{
    let r: u128 = round_wide(num, den as u128, fives);
    if r > u64::MAX as u128 {
        u64::MAX
    } else {
        r as u64
    }
}

// ------------------------------------------------------------ signed numbers

/// A signed number in decimal, with its sign in any case.
pub open spec fn plus_decimal(n: int) -> Seq<char> {
    if n < 0 {
        signed_decimal(n)
    } else {
        seq!['+'] + decimal(n as nat)
    }
}

/// Append a signed number in decimal, with its sign in any case.
pub fn push_plus(out: &mut String, n: i64)
    ensures
        final(out)@ == old(out)@ + plus_decimal(n as int),
{
    if n >= 0 {
        out.push('+');
    }
    push_signed(out, n);
    proof {
        assert(out@ =~= old(out)@ + plus_decimal(n as int));
    }
}

/// The signed number that some text is in decimal, where it is one that fits.
pub open spec fn parsed_signed(s: Seq<char>) -> Option<i64> {
    if s.len() > 0 && s[0] == '-' {
        let digits = s.skip(1);
        match parsed_number(digits) {
            Some(n) => if digits[0] != '+' && n <= 0x8000_0000_0000_0000 {
                Some((-(n as int)) as i64)
            } else {
                None
            },
            None => None,
        }
    } else {
        match parsed_number(s) {
            Some(n) => if n <= i64::MAX {
                Some(n as i64)
            } else {
                None
            },
            None => None,
        }
    }
}

/// Read a signed number in decimal.
pub fn parse_signed(chars: &[char]) -> (r: Option<i64>)
    ensures
        r == parsed_signed(chars@),
{
    if chars.len() > 0 && chars[0] == '-' {
        let digits: &[char] = vstd::slice::slice_subrange(chars, 1, chars.len());
        proof {
            assert(digits@ =~= chars@.skip(1));
        }
        match parse_number(digits) {
            Some(n) => if digits[0] != '+' && n <= 0x8000_0000_0000_0000 {
                if n == 0x8000_0000_0000_0000 {
                    Some(i64::MIN)
                } else {
                    Some(-(n as i64))
                }
            } else {
                None
            },
            None => None,
        }
    } else {
        match parse_number(chars) {
            Some(n) => if n <= i64::MAX as u64 {
                Some(n as i64)
            } else {
                None
            },
            None => None,
        }
    }
}

// --------------------------------------------------------------------- laws

/// A number in decimal is worth that number, and has no zero in front that it could
/// do without.
pub proof fn law_a_number_is_read_back(n: nat)
    ensures
        digits_value(decimal(n)) == n,
        decimal(n).len() >= 1,
        n >= 10 ==> decimal(n).len() > 1,
        decimal(n).len() > 1 ==> decimal(n)[0] != '0',
        forall|i: int| 0 <= i < decimal(n).len() ==> is_digit(#[trigger] decimal(n)[i]),
    decreases n,
{
    if n < 10 {
        reveal_with_fuel(digits_value, 2);
        assert(decimal(n).drop_last() =~= Seq::empty());
    } else {
        law_a_number_is_read_back(n / 10);
        let head = decimal(n / 10);
        assert(decimal(n).drop_last() =~= head);
        assert(decimal(n)[0] == head[0]);
        if n < 100 {
            assert(decimal(n / 10) =~= seq![digit(n / 10)]);
            assert(head[0] == digit(n / 10));
        } else {
            assert(decimal(n / 10).len() > 1);
        }
    }
}

/// A fraction is rounded to a whole number that is as near to it as any.
pub proof fn law_rounding_is_to_the_nearest(num: nat, den: nat, fives: nat)
    requires
        den > 0,
        fives > 0,
    ensures
        2 * (rounded(num, den, fives) * den) <= 2 * num + den,
        2 * num <= 2 * (rounded(num, den, fives) * den) + den,
{
    let below = num / den;
    let rest = num % den;
    assert(num == below * den + rest && rest < den) by (nonlinear_arith)
        requires
            below == num / den,
            rest == num % den,
            den > 0,
    ;
    assert((below + 1) * den == below * den + den) by (nonlinear_arith);
}

} // verus!

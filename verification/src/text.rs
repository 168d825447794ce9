//! Text helpers: decimal rendering and parsing, and string comparison.

use vstd::prelude::*;
use vstd::arithmetic::power::pow;
use vstd::string::*;
use vstd::utf8::*;

verus! {

/// The character of the decimal digit `d`.
pub open spec fn digit_char(d: int) -> char {
    (48 + d) as char
}

/// The decimal rendering of `n`, without leading zeros.
pub open spec fn decimal(n: nat) -> Seq<char>
    decreases n,
{
    if n < 10 {
        seq![digit_char(n as int)]
    } else {
        decimal(n / 10).push(digit_char((n % 10) as int))
    }
}

/// `count` zeros.
pub open spec fn zeros(count: nat) -> Seq<char> {
    Seq::new(count, |i: int| '0')
}

/// The decimal rendering of `n`, filled with zeros on the left up to `width`
/// characters. A longer rendering is kept whole.
pub open spec fn padded(n: nat, width: nat) -> Seq<char> {
    let digits = decimal(n);
    if digits.len() < width {
        zeros((width - digits.len()) as nat) + digits
    } else {
        digits
    }
}

fn digit_text(d: u64) -> (s: &'static str)
    requires
        d < 10,
    ensures
        s@ == seq![digit_char(d as int)],
{
    proof {
        reveal_strlit("0");
        reveal_strlit("1");
        reveal_strlit("2");
        reveal_strlit("3");
        reveal_strlit("4");
        reveal_strlit("5");
        reveal_strlit("6");
        reveal_strlit("7");
        reveal_strlit("8");
        reveal_strlit("9");
    }
    let s = match d {
        0 => "0",
        1 => "1",
        2 => "2",
        3 => "3",
        4 => "4",
        5 => "5",
        6 => "6",
        7 => "7",
        8 => "8",
        _ => "9",
    };
    assert(s@ =~= seq![digit_char(d as int)]);
    s
}

/// Appends the decimal rendering of `n`.
pub fn push_decimal(out: &mut String, n: u64)
    ensures
        final(out)@ == old(out)@ + decimal(n as nat),
    decreases n,
{
    if n >= 10 {
        push_decimal(out, n / 10);
    }
    out.append(digit_text(n % 10));
    assert(out@ =~= old(out)@ + decimal(n as nat));
}

/// Appends the decimal rendering of a wide number.
pub fn push_decimal_wide(out: &mut String, n: u128)
    ensures
        final(out)@ == old(out)@ + decimal(n as nat),
    decreases n,
{
    if n >= 10 {
        push_decimal_wide(out, n / 10);
    }
    out.append(digit_text((n % 10) as u64));
    assert(out@ =~= old(out)@ + decimal(n as nat));
}

/// The number of characters of the decimal rendering of `n`.
fn decimal_width(n: u64) -> (w: usize)
    ensures
        w == decimal(n as nat).len(),
        1 <= w <= 20,
{
    let mut w: usize = 1;
    let mut rest: u64 = n;
    proof {
        reveal_with_fuel(decimal, 2);
    }
    while rest >= 10
        invariant
            w + decimal(rest as nat).len() == 1 + decimal(n as nat).len(),
            1 <= w,
            rest <= 0xffff_ffff_ffff_ffff,
            w == 1 || rest < 1_844_674_407_370_955_162,
            w <= 2 || rest < 184_467_440_737_095_517,
            w <= 3 || rest < 18_446_744_073_709_552,
            w <= 4 || rest < 1_844_674_407_370_956,
            w <= 5 || rest < 184_467_440_737_096,
            w <= 6 || rest < 18_446_744_073_710,
            w <= 7 || rest < 1_844_674_407_371,
            w <= 8 || rest < 184_467_440_738,
            w <= 9 || rest < 18_446_744_074,
            w <= 10 || rest < 1_844_674_408,
            w <= 11 || rest < 184_467_441,
            w <= 12 || rest < 18_446_745,
            w <= 13 || rest < 1_844_675,
            w <= 14 || rest < 184_468,
            w <= 15 || rest < 18_447,
            w <= 16 || rest < 1_845,
            w <= 17 || rest < 185,
            w <= 18 || rest < 19,
            w <= 19 || rest < 2,
            w <= 20,
        decreases rest,
    {
        rest = rest / 10;
        w = w + 1;
    }
    w
}

/// Appends `n` filled with zeros on the left up to `width` characters.
pub fn push_padded(out: &mut String, n: u64, width: usize)
    ensures
        final(out)@ == old(out)@ + padded(n as nat, width as nat),
{
    let w: usize = decimal_width(n);
    let mut filled: usize = w;
    while filled < width
        invariant
            w <= filled,
            filled <= width || filled == w,
            out@ == old(out)@ + zeros((filled - w) as nat),
        decreases width - filled,
    {
        proof {
            reveal_strlit("0");
        }
        out.append("0");
        filled = filled + 1;
        assert(out@ =~= old(out)@ + zeros((filled - w) as nat));
    }
    push_decimal(out, n);
    assert(out@ =~= old(out)@ + padded(n as nat, width as nat));
}

/// Whether `b` is an ASCII decimal digit.
pub open spec fn is_digit(b: u8) -> bool {
    48 <= b <= 57
}

/// The number that a sequence of ASCII digits writes.
pub open spec fn digits_value(digits: Seq<u8>) -> nat
    decreases digits.len(),
{
    if digits.len() == 0 {
        0
    } else {
        10 * digits_value(digits.drop_last()) + (digits.last() - 48) as nat
    }
}

/// The number not above `max` that `text` writes in one or more decimal digits.
pub open spec fn parse_unsigned_spec(text: Seq<u8>, max: nat) -> Option<nat> {
    if text.len() > 0 && (forall|i: int| 0 <= i < text.len() ==> is_digit(#[trigger] text[i]))
        && digits_value(text) <= max {
        Some(digits_value(text))
    } else {
        None
    }
}

proof fn lemma_digits_value_monotone(digits: Seq<u8>, n: int)
    requires
        0 <= n <= digits.len(),
        forall|i: int| 0 <= i < digits.len() ==> is_digit(#[trigger] digits[i]),
    ensures
        digits_value(digits.subrange(0, n)) <= digits_value(digits),
    decreases digits.len() - n,
{
    if n < digits.len() {
        lemma_digits_value_monotone(digits, n + 1);
        let longer = digits.subrange(0, n + 1);
        assert(longer.drop_last() =~= digits.subrange(0, n));
        assert(is_digit(digits[n]));
    } else {
        assert(digits.subrange(0, n) =~= digits);
    }
}

/// Reads a decimal number not above `max`.
pub fn parse_unsigned(text: &[u8], max: u64) -> (r: Option<u64>)
    ensures
        match r {
            Some(v) => parse_unsigned_spec(text@, max as nat) == Some(v as nat),
            None => parse_unsigned_spec(text@, max as nat) is None,
        },
{
    if text.len() == 0 {
        return None;
    }
    let mut value: u64 = 0;
    let mut i: usize = 0;
    while i < text.len()
        invariant
            0 < text.len(),
            i <= text.len(),
            forall|k: int| 0 <= k < i ==> is_digit(#[trigger] text@[k]),
            value == digits_value(text@.subrange(0, i as int)),
            value <= max,
        decreases text.len() - i,
    {
        let b: u8 = text[i];
        if b < 48 || b > 57 {
            assert(!is_digit(text@[i as int]));
            return None;
        }
        let d: u64 = (b - 48) as u64;
        let ghost prefix = text@.subrange(0, i + 1);
        proof {
            assert(prefix.drop_last() =~= text@.subrange(0, i as int));
            assert(digits_value(prefix) == 10 * value + d);
        }
        if d > max || value > (max - d) / 10 {
            proof {
                assert(10 * value + d > max);
                if forall|k: int| 0 <= k < text@.len() ==> is_digit(#[trigger] text@[k]) {
                    lemma_digits_value_monotone(text@, i + 1);
                }
            }
            return None;
        }
        value = 10 * value + d;
        i = i + 1;
    }
    assert(text@.subrange(0, i as int) =~= text@);
    Some(value)
}

/// The bytes of an ASCII text.
pub open spec fn ascii_bytes(text: Seq<char>) -> Seq<u8> {
    Seq::new(text.len(), |i: int| text[i] as u8)
}

/// Whether every character of `text` is a decimal digit.
pub open spec fn is_digits(text: Seq<char>) -> bool {
    forall|i: int| 0 <= i < text.len() ==> '0' <= #[trigger] text[i] <= '9'
}

/// The encoding of an ASCII text is its bytes.
pub proof fn lemma_ascii_encoding(text: Seq<char>)
    requires
        is_ascii_chars(text),
    ensures
        encode_utf8(text) == ascii_bytes(text),
{
    is_ascii_chars_encode_utf8(text);
    assert(encode_utf8(text) =~= ascii_bytes(text));
}

proof fn lemma_zeros_value(count: nat, digits: Seq<char>)
    requires
        is_digits(digits),
    ensures
        digits_value(ascii_bytes(zeros(count) + digits)) == digits_value(ascii_bytes(digits)),
    decreases count + digits.len(),
{
    let whole = zeros(count) + digits;
    let bytes = ascii_bytes(whole);
    if digits.len() > 0 {
        assert(bytes.drop_last() =~= ascii_bytes(zeros(count) + digits.drop_last()));
        assert(ascii_bytes(digits).drop_last() =~= ascii_bytes(digits.drop_last()));
        assert(is_digits(digits.drop_last()));
        assert(bytes.last() == ascii_bytes(digits).last());
        lemma_zeros_value(count, digits.drop_last());
    } else if count > 0 {
        assert(bytes.drop_last() =~= ascii_bytes(zeros((count - 1) as nat) + digits));
        lemma_zeros_value((count - 1) as nat, digits);
        assert(bytes.last() == 48);
    } else {
        assert(bytes =~= ascii_bytes(digits));
    }
}

/// Reading a decimal rendering gives the number back.
pub proof fn lemma_decimal_value(n: nat)
    ensures
        decimal(n).len() > 0,
        is_digits(decimal(n)),
        digits_value(ascii_bytes(decimal(n))) == n,
    decreases n,
{
    let text = decimal(n);
    if n < 10 {
        let bytes = ascii_bytes(text);
        assert(bytes.drop_last() =~= Seq::<u8>::empty());
        assert(bytes.last() == 48 + n);
        assert(digits_value(bytes.drop_last()) == 0);
    } else {
        lemma_decimal_value(n / 10);
        let bytes = ascii_bytes(text);
        assert(bytes.drop_last() =~= ascii_bytes(decimal(n / 10)));
        assert(bytes.last() == 48 + n % 10);
        assert forall|i: int| 0 <= i < text.len() implies '0' <= #[trigger] text[i] <= '9' by {
            if i < text.len() - 1 {
                assert(text[i] == decimal(n / 10)[i]);
            }
        }
    }
}

/// The length of short decimal renderings.
pub proof fn lemma_decimal_len(n: nat)
    ensures
        n < 10 ==> decimal(n).len() == 1,
        10 <= n < 100 ==> decimal(n).len() == 2,
        100 <= n < 1000 ==> decimal(n).len() == 3,
        1000 <= n < 10000 ==> decimal(n).len() == 4,
        10000 <= n < 100000 ==> decimal(n).len() == 5,
{
    reveal_with_fuel(decimal, 6);
}

/// A padded rendering is made of digits and reads back as the number.
pub proof fn lemma_padded_parses(n: nat, width: nat, max: nat)
    ensures
        is_digits(padded(n, width)),
        padded(n, width).len() >= width,
        padded(n, width).len() > 0,
        n <= max ==> parse_unsigned_spec(ascii_bytes(padded(n, width)), max) == Some(n),
{
    let text = padded(n, width);
    lemma_decimal_value(n);
    let digits = decimal(n);
    let fill = if digits.len() < width {
        (width - digits.len()) as nat
    } else {
        0
    };
    assert(text =~= zeros(fill) + digits);
    lemma_zeros_value(fill, digits);
    let bytes = ascii_bytes(text);
    assert forall|i: int| 0 <= i < text.len() implies '0' <= #[trigger] text[i] <= '9' by {
        if i >= fill {
            assert(text[i] == digits[i - fill]);
        }
    }
    assert forall|i: int| 0 <= i < bytes.len() implies is_digit(#[trigger] bytes[i]) by {
        assert('0' <= text[i] <= '9');
    }
}

/// Whether two byte strings are the same.
pub fn bytes_eq(a: &[u8], b: &[u8]) -> (r: bool)
    ensures
        r == (a@ == b@),
{
    if a.len() != b.len() {
        return false;
    }
    let mut i: usize = 0;
    while i < a.len()
        invariant
            a.len() == b.len(),
            i <= a.len(),
            forall|k: int| 0 <= k < i ==> a@[k] == b@[k],
        decreases a.len() - i,
    {
        if a[i] != b[i] {
            return false;
        }
        i = i + 1;
    }
    assert(a@ =~= b@);
    true
}

/// Equal encodings come from equal texts.
pub proof fn lemma_encode_injective(a: Seq<char>, b: Seq<char>)
    requires
        encode_utf8(a) == encode_utf8(b),
    ensures
        a == b,
{
    encode_utf8_decode_utf8(a);
    encode_utf8_decode_utf8(b);
}

/// Encoding goes piece by piece.
pub proof fn lemma_encode_concat(a: Seq<char>, b: Seq<char>)
    ensures
        encode_utf8(a + b) == encode_utf8(a) + encode_utf8(b),
    decreases a.len(),
{
    if a.len() == 0 {
        assert(a + b =~= b);
        assert(encode_utf8(a) + encode_utf8(b) =~= encode_utf8(b));
    } else {
        assert((a + b).drop_first() =~= a.drop_first() + b);
        assert((a + b)[0] == a[0]);
        lemma_encode_concat(a.drop_first(), b);
        assert(encode_utf8(a + b) =~= encode_utf8(a) + encode_utf8(b));
    }
}

/// Whether two strings are the same.
pub fn str_eq(a: &str, b: &str) -> (r: bool)
    ensures
        r == (a@ == b@),
{
    let r = bytes_eq(a.as_bytes(), b.as_bytes());
    proof {
        if r {
            lemma_encode_injective(a@, b@);
        }
    }
    r
}

// ---------------------------------------------------------------------------
// Laws
// ---------------------------------------------------------------------------

proof fn lemma_decimal_digits(n: nat, i: nat)
    ensures
        decimal(n).len() > 0,
        n < pow(10, decimal(n).len()),
        decimal(n).len() > 1 ==> pow(10, (decimal(n).len() - 1) as nat) <= n,
        i < decimal(n).len() ==> decimal(n)[decimal(n).len() - 1 - i] == (48 + (n / pow(10, i) as nat)
            % 10) as char,
    decreases n,
{
    reveal(pow);
    vstd::arithmetic::power::lemma_pow0(10);
    vstd::arithmetic::power::lemma_pow1(10);
    vstd::arithmetic::power::lemma_pow_positive(10, i);
    if n >= 10 {
        let rest = decimal(n / 10);
        let len = decimal(n).len();
        lemma_decimal_digits(n / 10, if i > 0 { (i - 1) as nat } else { 0 });
        assert(pow(10, len) == 10 * pow(10, rest.len()));
        if rest.len() > 1 {
            assert(pow(10, rest.len()) == 10 * pow(10, (rest.len() - 1) as nat));
        }
        if 0 < i < len {
            let below = pow(10, (i - 1) as nat);
            vstd::arithmetic::power::lemma_pow_positive(10, (i - 1) as nat);
            assert(pow(10, i) == 10 * below);
            vstd::arithmetic::div_mod::lemma_div_denominator(n as int, 10, below);
            assert(decimal(n)[len - 1 - i] == rest[rest.len() - 1 - (i - 1)]);
        }
    }
}

/// A rendering has the decimal digits of its number at their places, counted from
/// the right, with zeros before them up to the width and none beyond it.
pub proof fn law_padded_digits(n: nat, width: nat, i: nat)
    ensures
        padded(n, width).len() >= width,
        padded(n, width).len() > 0,
        padded(n, width).len() > width && padded(n, width).len() > 1 ==> pow(
            10,
            (padded(n, width).len() - 1) as nat,
        ) <= n,
        n < pow(10, padded(n, width).len()),
        i < padded(n, width).len() ==> padded(n, width)[padded(n, width).len() - 1 - i] == (48 + (n
            / pow(10, i) as nat) % 10) as char,
{
    let text = decimal(n);
    let whole = padded(n, width);
    lemma_decimal_digits(n, i);
    vstd::arithmetic::power::lemma_pow_positive(10, i);
    if text.len() < width {
        vstd::arithmetic::power::lemma_pow_increases(10, text.len(), whole.len());
    }
    if i < whole.len() {
        if i < text.len() {
            assert(whole[whole.len() - 1 - i] == text[text.len() - 1 - i]);
        } else {
            vstd::arithmetic::power::lemma_pow_increases(10, text.len(), i);
            vstd::arithmetic::div_mod::lemma_basic_div(n as int, pow(10, i));
        }
    }
}

/// The rendering of numbers of up to four digits at a width of four, and of up to
/// two digits at a width of two, digit by digit.
pub proof fn law_padded_short(n: nat)
    ensures
        n < 10000 ==> padded(n, 4) == seq![
            (48 + n / 1000) as char,
            (48 + n / 100 % 10) as char,
            (48 + n / 10 % 10) as char,
            (48 + n % 10) as char,
        ],
        n < 100 ==> padded(n, 2) == seq![(48 + n / 10) as char, (48 + n % 10) as char],
{
    reveal_with_fuel(decimal, 6);
    if n < 10000 {
        assert(padded(n, 4) =~= seq![
            (48 + n / 1000) as char,
            (48 + n / 100 % 10) as char,
            (48 + n / 10 % 10) as char,
            (48 + n % 10) as char,
        ]);
    }
    if n < 100 {
        assert(padded(n, 2) =~= seq![(48 + n / 10) as char, (48 + n % 10) as char]);
    }
}

/// A number is read only from digits, and only as what those digits render.
pub proof fn law_parsed_number(text: Seq<char>, max: nat, v: nat)
    requires
        parse_unsigned_spec(ascii_bytes(text), max) == Some(v),
        forall|i: int| 0 <= i < text.len() ==> '0' <= #[trigger] text[i] <= '9',
    ensures
        text.len() > 0,
        v <= max,
        padded(v, text.len()) == text,
{
    lemma_digits_render(text);
}

proof fn lemma_digits_render(text: Seq<char>)
    requires
        text.len() > 0,
        forall|i: int| 0 <= i < text.len() ==> '0' <= #[trigger] text[i] <= '9',
    ensures
        padded(digits_value(ascii_bytes(text)), text.len()) == text,
        decimal(digits_value(ascii_bytes(text))).len() <= text.len(),
    decreases text.len(),
{
    let bytes = ascii_bytes(text);
    let v = digits_value(bytes);
    let last = text.last();
    assert(bytes.last() == last as u8);
    assert(text[text.len() - 1] == last);
    assert(bytes.drop_last() =~= ascii_bytes(text.drop_last()));
    let d = (last as u8 - 48) as nat;
    assert(digit_char(d as int) == last);
    if text.len() == 1 {
        assert(bytes.drop_last() =~= Seq::<u8>::empty());
        assert(digits_value(bytes.drop_last()) == 0);
        assert(v == d);
        assert(padded(v, 1) =~= text);
    } else {
        let init = text.drop_last();
        assert forall|i: int| 0 <= i < init.len() implies '0' <= #[trigger] init[i] <= '9' by {
            assert(init[i] == text[i]);
        }
        lemma_digits_render(init);
        let u = digits_value(ascii_bytes(init));
        assert(v == 10 * u + d);
        assert(v / 10 == u && v % 10 == d);
        if v < 10 {
            assert(u == 0);
            assert(padded(0, init.len()) =~= zeros(init.len())) by {
                assert(decimal(0) =~= seq!['0']);
            }
            assert(padded(v, text.len()) =~= zeros(init.len()).push(last));
        } else {
            assert(decimal(v) =~= decimal(u).push(last));
            assert(padded(v, text.len()) =~= padded(u, init.len()).push(last));
        }
        assert(text =~= init.push(last));
    }
}

} // verus!

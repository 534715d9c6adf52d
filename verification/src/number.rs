//! Numbers as text: decimal, fixed-point, zero-padded and hexadecimal.
use crate::text::chars;
use vstd::arithmetic::div_mod::{lemma_div_denominator, lemma_fundamental_div_mod};
use vstd::arithmetic::power::{lemma_pow_positive, pow};
use vstd::prelude::*;
use vstd::string::*;

verus! {

// ── Decimal ──────────────────────────────────────────────────────────

/// The character of a digit.
pub open spec fn digit(d: nat) -> char {
    (48 + d) as char
}

/// A natural number in decimal, without leading zeros.
pub open spec fn decimal(n: nat) -> Seq<char>
    decreases n,
{
    if n < 10 {
        seq![digit(n)]
    } else {
        decimal(n / 10).push(digit(n % 10))
    }
}

/// The character of a digit, computed.
fn digit_char(d: u8) -> (c: char)
    requires
        d < 10,
    ensures
        c == digit(d as nat),
{
    (48 + d) as char
}

/// Appends a natural number in decimal.
pub fn push_decimal(out: &mut String, n: u128)
    ensures
        final(out)@ == old(out)@ + decimal(n as nat),
    decreases n,
{
    if n >= 10 {
        push_decimal(out, n / 10);
    }
    out.push(digit_char((n % 10) as u8));
    assert(out@ =~= old(out)@ + decimal(n as nat));
}

/// A natural number in decimal.
pub fn decimal_text(n: u64) -> (s: String)
    ensures
        s@ == decimal(n as nat),
{
    let mut s = String::new();
    push_decimal(&mut s, n as u128);
    assert(s@ =~= decimal(n as nat));
    s
}

/// Whether every character is a decimal digit.
pub open spec fn all_digits(s: Seq<char>) -> bool {
    forall|i: int| 0 <= i < s.len() ==> 48 <= (#[trigger] s[i]) as u32 <= 57
}

/// The number that a sequence of digits denotes.
pub open spec fn digits_value(s: Seq<char>) -> nat
    decreases s.len(),
{
    if s.len() == 0 {
        0
    } else {
        digits_value(s.drop_last()) * 10 + (s.last() as u32 - 48) as nat
    }
}

/// A text without one leading plus sign.
pub open spec fn without_plus(s: Seq<char>) -> Seq<char> {
    if s.len() > 0 && s[0] == '+' {
        s.skip(1)
    } else {
        s
    }
}

/// The number that a text denotes: an optional plus sign and at least one
/// digit, of a value that fits.
pub open spec fn parsed_u64(s: Seq<char>) -> Option<u64> {
    let d = without_plus(s);
    if d.len() > 0 && all_digits(d) && digits_value(d) <= u64::MAX {
        Some(digits_value(d) as u64)
    } else {
        None
    }
}

/// Digits that go on denote no smaller a number.
proof fn lemma_digits_grow(s: Seq<char>, i: int)
    requires
        all_digits(s),
        0 <= i <= s.len(),
    ensures
        digits_value(s.take(i)) <= digits_value(s),
    decreases s.len() - i,
{
    if i < s.len() {
        lemma_digits_grow(s, i + 1);
        assert(s.take(i + 1).drop_last() =~= s.take(i));
        assert(s.take(i + 1).last() == s[i]);
    } else {
        assert(s.take(i) =~= s);
    }
}

/// Reads a number from a range of characters.
pub fn parse_range(v: &Vec<char>, from: usize, to: usize) -> (r: Option<u64>)
    requires
        from <= to <= v.len(),
    ensures
        r == parsed_u64(v@.subrange(from as int, to as int)),
{
    let ghost s = v@.subrange(from as int, to as int);
    let mut start: usize = from;
    if from < to && v[from] == '+' {
        start = from + 1;
        assert(s[0] == '+');
        assert(s.skip(1) =~= v@.subrange(start as int, to as int));
    } else {
        assert(s.len() > 0 ==> s[0] == v@[from as int]);
    }
    let ghost d = v@.subrange(start as int, to as int);
    assert(d == without_plus(s));
    if start == to {
        return None;
    }
    let mut value: u64 = 0;
    let mut i: usize = start;
    while i < to
        invariant
            start <= i <= to <= v.len(),
            d == v@.subrange(start as int, to as int),
            all_digits(d.take(i - start)),
            value == digits_value(d.take(i - start)),
            d == without_plus(s),
            s == v@.subrange(from as int, to as int),
        decreases to - i,
    {
        let n: u32 = v[i] as u32;
        assert(d[i - start] == v@[i as int]);
        if n < 48 || n > 57 {
            return None;
        }
        let x: u64 = (n - 48) as u64;
        proof {
            let t = d.take(i - start + 1);
            assert(t.drop_last() =~= d.take(i - start));
            assert(t.last() == v@[i as int]);
            assert forall|j: int| 0 <= j < t.len() implies 48 <= (#[trigger] t[j]) as u32 <= 57 by {
                if j < i - start {
                    assert(t[j] == d.take(i - start)[j]);
                }
            }
            if all_digits(d) {
                lemma_digits_grow(d, i - start + 1);
            }
        }
        if value > (u64::MAX - x) / 10 {
            return None;
        }
        value = value * 10 + x;
        i = i + 1;
    }
    assert(d.take(to - start) =~= d);
    Some(value)
}

/// Reads a number from a text.
pub fn parse_u64(s: &str) -> (r: Option<u64>)
    ensures
        r == parsed_u64(s@),
{
    let v = chars(s);
    assert(v@.subrange(0, v.len() as int) =~= s@);
    parse_range(&v, 0, v.len())
}

/// A number in decimal is digits only, denotes that number, and has no zero in
/// front.
pub proof fn lemma_decimal(n: nat)
    ensures
        decimal(n).len() > 0,
        all_digits(decimal(n)),
        digits_value(decimal(n)) == n,
        n > 0 ==> decimal(n)[0] != '0',
    decreases n,
{
    if n < 10 {
        assert(decimal(n).drop_last() =~= Seq::<char>::empty());
        assert(digits_value(Seq::<char>::empty()) == 0);
    } else {
        lemma_decimal(n / 10);
        assert(decimal(n).drop_last() =~= decimal(n / 10));
        assert forall|i: int| 0 <= i < decimal(n).len() implies 48 <= (#[trigger] decimal(
            n,
        )[i]) as u32 <= 57 by {
            if i < decimal(n / 10).len() {
                assert(decimal(n)[i] == decimal(n / 10)[i]);
            }
        }
    }
}

/// Reading a number that was written in decimal gives it back.
pub proof fn lemma_parse_decimal(n: u64)
    ensures
        parsed_u64(decimal(n as nat)) == Some(n),
{
    lemma_decimal(n as nat);
    assert(48 <= decimal(n as nat)[0] as u32 <= 57);
}

// ── Fixed width ──────────────────────────────────────────────────────

/// A run of one character.
pub open spec fn run_of(c: char, n: nat) -> Seq<char> {
    Seq::new(n, |i: int| c)
}

/// A natural number in decimal, with zeros in front up to a width.
pub open spec fn zero_padded(n: nat, width: nat) -> Seq<char> {
    if decimal(n).len() < width {
        run_of('0', (width - decimal(n).len()) as nat) + decimal(n)
    } else {
        decimal(n)
    }
}

/// An integer with zeros in front up to a width; a sign stands before the zeros
/// and takes one place.
pub open spec fn zero_padded_int(n: int, width: nat) -> Seq<char> {
    if n >= 0 {
        zero_padded(n as nat, width)
    } else {
        seq!['-'] + zero_padded((-n) as nat, (width - 1) as nat)
    }
}

/// An integer in decimal, behind a sign where it is negative.
pub open spec fn integer(n: int) -> Seq<char> {
    if n >= 0 {
        decimal(n as nat)
    } else {
        seq!['-'] + decimal((-n) as nat)
    }
}

/// A text with spaces behind it up to a width.
pub open spec fn left_aligned(s: Seq<char>, width: nat) -> Seq<char> {
    if s.len() < width {
        s + run_of(' ', (width - s.len()) as nat)
    } else {
        s
    }
}

/// Appends a run of one character.
fn push_run(out: &mut String, c: char, n: usize)
    ensures
        final(out)@ == old(out)@ + run_of(c, n as nat),
{
    let mut i: usize = 0;
    assert(out@ =~= old(out)@ + run_of(c, 0));
    while i < n
        invariant
            i <= n,
            out@ == old(out)@ + run_of(c, i as nat),
        decreases n - i,
    {
        out.push(c);
        i = i + 1;
        assert(out@ =~= old(out)@ + run_of(c, i as nat));
    }
}

/// Appends a natural number in decimal, with zeros in front up to a width.
pub fn push_zero_padded(out: &mut String, n: u64, width: usize)
    ensures
        final(out)@ == old(out)@ + zero_padded(n as nat, width as nat),
{
    let digits = chars(decimal_text(n).as_str());
    if digits.len() < width {
        push_run(out, '0', width - digits.len());
    }
    push_decimal(out, n as u128);
    assert(out@ =~= old(out)@ + zero_padded(n as nat, width as nat));
}

/// Appends an integer, with zeros in front up to a width.
pub fn push_zero_padded_int(out: &mut String, n: i32, width: usize)
    requires
        width > 0,
    ensures
        final(out)@ == old(out)@ + zero_padded_int(n as int, width as nat),
{
    if n >= 0 {
        push_zero_padded(out, n as u64, width);
    } else {
        out.push('-');
        let m: u64 = (-(n as i64)) as u64;
        push_zero_padded(out, m, width - 1);
        assert(out@ =~= old(out)@ + zero_padded_int(n as int, width as nat));
    }
}

/// Appends an integer in decimal.
pub fn push_integer(out: &mut String, n: i32)
    ensures
        final(out)@ == old(out)@ + integer(n as int),
{
    if n >= 0 {
        push_decimal(out, n as u128);
    } else {
        out.push('-');
        push_decimal(out, (-(n as i64)) as u128);
        assert(out@ =~= old(out)@ + integer(n as int));
    }
}

/// Appends a text with spaces behind it up to a width.
pub fn left_align(s: &str, width: usize) -> (r: String)
    ensures
        r@ == left_aligned(s@, width as nat),
{
    let v = chars(s);
    let mut r = s.to_owned();
    if v.len() < width {
        push_run(&mut r, ' ', width - v.len());
    }
    r
}

/// A number counted in tenths, hundredths and so on: its whole part, a point,
/// and that many decimals; no point where there are no decimals.
pub open spec fn fixed_point(n: nat, scale: nat, decimals: nat) -> Seq<char> {
    if decimals == 0 {
        decimal(n)
    } else {
        decimal(n / scale) + seq!['.'] + zero_padded(n % scale, decimals)
    }
}

/// Appends a number counted in parts of `scale`.
pub fn push_fixed_point(out: &mut String, n: u128, scale: u64, decimals: usize)
    requires
        scale > 0,
    ensures
        final(out)@ == old(out)@ + fixed_point(n as nat, scale as nat, decimals as nat),
{
    if decimals == 0 {
        push_decimal(out, n);
    } else {
        push_decimal(out, n / scale as u128);
        out.push('.');
        push_zero_padded(out, (n % scale as u128) as u64, decimals);
    }
    assert(out@ =~= old(out)@ + fixed_point(n as nat, scale as nat, decimals as nat));
}

// ── Hexadecimal ──────────────────────────────────────────────────────

/// The character of a hexadecimal digit, in lower case.
pub open spec fn hex_digit(d: nat) -> char {
    if d < 10 {
        digit(d)
    } else {
        (87 + d) as char
    }
}

/// The last `width` hexadecimal digits of a number.
pub open spec fn hex(n: nat, width: nat) -> Seq<char>
    decreases width,
{
    if width == 0 {
        Seq::empty()
    } else {
        hex(n / 16, (width - 1) as nat).push(hex_digit(n % 16))
    }
}

/// Appends the last `width` hexadecimal digits of a number.
pub fn push_hex(out: &mut String, n: u128, width: usize)
    ensures
        final(out)@ == old(out)@ + hex(n as nat, width as nat),
    decreases width,
{
    if width > 0 {
        push_hex(out, n / 16, width - 1);
        let d: u8 = (n % 16) as u8;
        out.push(
            if d < 10 {
                digit_char(d)
            } else {
                (87 + d) as char
            },
        );
    }
    assert(out@ =~= old(out)@ + hex(n as nat, width as nat));
}

/// A number of a given width is told by its hexadecimal digits.
pub proof fn lemma_hex_injective(a: nat, b: nat, width: nat)
    requires
        a < vstd::arithmetic::power::pow(16, width),
        b < vstd::arithmetic::power::pow(16, width),
        hex(a, width) == hex(b, width),
    ensures
        a == b,
    decreases width,
{
    reveal(vstd::arithmetic::power::pow);
    if width > 0 {
        let x = hex(a, width);
        let y = hex(b, width);
        assert(x.drop_last() =~= hex(a / 16, (width - 1) as nat));
        assert(y.drop_last() =~= hex(b / 16, (width - 1) as nat));
        assert(x.last() == hex_digit(a % 16) && y.last() == hex_digit(b % 16));
        lemma_hex_injective(a / 16, b / 16, (width - 1) as nat);
    }
}

/// Hexadecimal text has its width, and only digits and the letters a to f.
pub proof fn lemma_hex_shape(n: nat, width: nat)
    ensures
        hex(n, width).len() == width,
        forall|i: int|
            0 <= i < width ==> {
                ||| 48 <= (#[trigger] hex(n, width)[i]) as u32 <= 57
                ||| 97 <= hex(n, width)[i] as u32 <= 102
            },
    decreases width,
{
    if width > 0 {
        lemma_hex_shape(n / 16, (width - 1) as nat);
        let s = hex(n, width);
        let t = hex(n / 16, (width - 1) as nat);
        assert forall|i: int| 0 <= i < width implies {
            ||| 48 <= (#[trigger] s[i]) as u32 <= 57
            ||| 97 <= s[i] as u32 <= 102
        } by {
            if i < width - 1 {
                assert(s[i] == t[i]);
            }
        }
    }
}

// ── Laws ─────────────────────────────────────────────────────────────

/// The hexadecimal digits of a number, from the most significant of so many on.
pub proof fn law_hex_digits(n: nat, width: nat, i: int)
    requires
        0 <= i < width,
    ensures
        hex(n, width).len() == width,
        ({
            let d = (n / pow(16, (width - 1 - i) as nat) as nat) % 16;
            hex(n, width)[i] as u32 == if d < 10 {
                48 + d
            } else {
                87 + d
            }
        }),
    decreases width,
{
    let rest = (width - 1) as nat;
    lemma_hex_shape(n, width);
    lemma_hex_shape(n / 16, rest);
    if i == rest {
        assert(pow(16, 0) == 1) by {
            reveal(pow);
        }
        assert(n / 1 == n);
    } else {
        law_hex_digits(n / 16, rest, i);
        let k = (width - 2 - i) as nat;
        assert(hex(n, width)[i] == hex(n / 16, rest)[i]);
        assert(pow(16, k + 1) == 16 * pow(16, k)) by {
            reveal(pow);
        }
        lemma_pow_positive(16, k);
        lemma_div_denominator(n as int, 16, pow(16, k));
    }
}

/// A number below ten is its digit, and any other is the number of its tens
/// followed by the digit of its ones.
pub proof fn law_decimal_digits(n: nat, d: nat)
    requires
        d < 10,
    ensures
        decimal(d) == seq![(48 + d) as char],
        n > 0 ==> decimal(10 * n + d) == decimal(n).push((48 + d) as char),
{
    if n > 0 {
        assert((10 * n + d) / 10 == n);
        assert((10 * n + d) % 10 == d);
    }
}

/// The value of digits is positional: those in front count for a power of ten,
/// and a digit alone for itself.
pub proof fn law_digits_are_positional(a: Seq<char>, b: Seq<char>, c: char)
    ensures
        digits_value(a + b) == digits_value(a) * pow(10, b.len()) + digits_value(b),
        48 <= c as u32 <= 57 ==> digits_value(seq![c]) == c as u32 - 48,
    decreases b.len(),
{
    reveal_with_fuel(digits_value, 2);
    assert(seq![c].drop_last() =~= Seq::<char>::empty());
    if b.len() == 0 {
        assert(a + b =~= a);
        assert(pow(10, 0) == 1) by {
            reveal(pow);
        }
        assert(digits_value(a) * 1 == digits_value(a)) by (nonlinear_arith);
    } else {
        let front = b.drop_last();
        assert((a + b).drop_last() =~= a + front);
        law_digits_are_positional(a, front, c);
        assert(pow(10, b.len()) == 10 * pow(10, front.len())) by {
            reveal(pow);
        }
        let x = digits_value(a) as int;
        let y = pow(10, front.len());
        assert((x * y) * 10 == x * (10 * y)) by (nonlinear_arith);
    }
}

/// A text denotes a number exactly where it is digits, at least one, that denote
/// one which fits; a plus sign in front changes nothing.
pub proof fn law_numbers_are_digits(s: Seq<char>)
    ensures
        s.len() == 0 ==> parsed_u64(s) is None,
        (exists|i: int|
            0 <= i < s.len() && !(48 <= #[trigger] (s[i] as u32) <= 57) && !(i == 0 && s[0]
                == '+')) ==> parsed_u64(s) is None,
        s.len() > 0 && all_digits(s) && digits_value(s) <= u64::MAX ==> parsed_u64(s) == Some(
            digits_value(s) as u64,
        ),
        all_digits(s) && digits_value(s) > u64::MAX ==> parsed_u64(s) is None,
        (s.len() == 0 || s[0] != '+') ==> parsed_u64(seq!['+'] + s) == parsed_u64(s),
        s.len() > 0 && s[0] == '+' ==> parsed_u64(seq!['+'] + s) is None,
{
    let plus = seq!['+'] + s;
    assert(plus.skip(1) =~= s);
    if s.len() > 0 && s[0] == '+' {
        assert(!(48 <= s[0] as u32 <= 57));
    }
    if exists|i: int|
        0 <= i < s.len() && !(48 <= #[trigger] (s[i] as u32) <= 57) && !(i == 0 && s[0] == '+') {
        let i = choose|i: int|
            0 <= i < s.len() && !(48 <= #[trigger] (s[i] as u32) <= 57) && !(i == 0 && s[0]
                == '+');
        let d = without_plus(s);
        if s[0] == '+' {
            assert(d[i - 1] == s[i]);
        } else {
            assert(d[i] == s[i]);
        }
    }
    if s.len() > 0 && all_digits(s) {
        assert(48 <= s[0] as u32 <= 57);
    }
}

/// A padded number is at least as wide as asked for, ends in the number's own
/// digits, and has only zeros in front of them.
pub proof fn law_padding_is_zeros(n: nat, width: nat)
    ensures
        ({
            let p = zero_padded(n, width);
            let d = decimal(n);
            &&& p.len() == if d.len() < width {
                width
            } else {
                d.len()
            }
            &&& d.is_suffix_of(p)
            &&& forall|i: int| 0 <= i < p.len() - d.len() ==> p[i] == '0'
        }),
{
    let p = zero_padded(n, width);
    let d = decimal(n);
    assert(p.subrange(p.len() - d.len(), p.len() as int) =~= d);
}

/// A padded number has the number's value.
pub proof fn law_padding_keeps_value(n: nat, width: nat)
    ensures
        all_digits(zero_padded(n, width)),
        digits_value(zero_padded(n, width)) == n,
{
    lemma_decimal(n);
    let d = decimal(n);
    if d.len() < width {
        let k = (width - d.len()) as nat;
        law_digits_are_positional(run_of('0', k), d, '0');
        lemma_zeros(k);
        assert(0 * pow(10, d.len()) == 0) by (nonlinear_arith);
        assert forall|i: int| 0 <= i < zero_padded(n, width).len() implies 48 <= (
        #[trigger] zero_padded(n, width)[i]) as u32 <= 57 by {
            if i >= k {
                assert(zero_padded(n, width)[i] == d[i - k]);
            }
        }
    }
}

/// Zeros have no value.
proof fn lemma_zeros(k: nat)
    ensures
        digits_value(run_of('0', k)) == 0,
    decreases k,
{
    if k > 0 {
        let r = run_of('0', k);
        assert(r.drop_last() =~= run_of('0', (k - 1) as nat));
        lemma_zeros((k - 1) as nat);
    }
}

/// A negative number is a sign and the digits of its amount, padded to one place
/// less; a number that is not negative has no sign.
pub proof fn law_sign_comes_first(n: nat, width: nat)
    ensures
        integer(n as int) == decimal(n),
        n > 0 ==> integer(-(n as int)) == seq!['-'] + decimal(n),
        zero_padded_int(n as int, width) == zero_padded(n, width),
        n > 0 && width > 0 ==> zero_padded_int(-(n as int), width) == seq!['-'] + zero_padded(
            n,
            (width - 1) as nat,
        ),
{
}

/// A text that is aligned keeps its characters, gets only spaces behind it, and
/// just as many as it lacks.
pub proof fn law_alignment_is_spaces(s: Seq<char>, width: nat)
    ensures
        ({
            let a = left_aligned(s, width);
            &&& s.is_prefix_of(a)
            &&& a.len() == if s.len() < width {
                width
            } else {
                s.len()
            }
            &&& forall|i: int| s.len() <= i < a.len() ==> a[i] == ' '
        }),
{
    let a = left_aligned(s, width);
    assert(a.subrange(0, s.len() as int) =~= s);
}

/// A number in tenths, hundredths and so on shows all its digits: those before
/// the point and those behind it, as many as there are decimals, denote it.
pub proof fn law_point_cuts_digits(n: nat, decimals: nat)
    ensures
        decimals == 0 ==> fixed_point(n, 1, 0) == decimal(n),
        decimals > 0 ==> ({
            let scale = pow(10, decimals) as nat;
            exists|whole: Seq<char>, part: Seq<char>|
                {
                    &&& fixed_point(n, scale, decimals) == #[trigger] (whole + seq!['.'] + part)
                    &&& whole == decimal(n / scale)
                    &&& part.len() == decimals
                    &&& all_digits(part)
                    &&& digits_value(whole) * scale + digits_value(part) == n
                }
        }),
{
    if decimals > 0 {
        let scale = pow(10, decimals) as nat;
        lemma_pow_positive(10, decimals);
        let whole = decimal(n / scale);
        let part = zero_padded(n % scale, decimals);
        lemma_decimal(n / scale);
        lemma_decimal_fits(n % scale, decimals);
        law_padding_is_zeros(n % scale, decimals);
        law_padding_keeps_value(n % scale, decimals);
        lemma_fundamental_div_mod(n as int, scale as int);
        assert((n / scale) * scale == scale * (n / scale)) by (nonlinear_arith);
        assert(fixed_point(n, scale, decimals) == whole + seq!['.'] + part);
    }
}

/// A number below a power of ten has no more digits than that.
proof fn lemma_decimal_fits(n: nat, width: nat)
    requires
        width > 0,
        n < pow(10, width),
    ensures
        decimal(n).len() <= width,
    decreases width,
{
    reveal(pow);
    if n >= 10 {
        if width == 1 {
            assert(pow(10, 0) == 1);
            assert(pow(10, 1) == 10 * pow(10, 0));
        }
        assert(pow(10, width) == 10 * pow(10, (width - 1) as nat));
        lemma_decimal_fits(n / 10, (width - 1) as nat);
    }
}

} // verus!

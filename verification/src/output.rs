//! What is shown on the terminal: counts, sizes, times, colors and lines.
use crate::binary64::{
    fixed, law_arithmetic_rounds_once, law_digits_are_nearest, law_result_is_nearest,
    law_spacing_keeps_53_bits, nearest, of_int, one, product, quotient, round_half_even, spacing,
    sum, truncated, Double,
};
use crate::number::{decimal, decimal_text, fixed_point, push_fixed_point};
use crossterm::style::{Color, Stylize};
use vstd::arithmetic::div_mod::{
    lemma_div_is_ordered, lemma_div_multiples_vanish, lemma_fundamental_div_mod,
};
use vstd::arithmetic::power2::{
    lemma2_to64, lemma2_to64_rest, lemma_pow2_adds, lemma_pow2_pos, pow2,
};
use vstd::prelude::*;
use vstd::string::*;

verus! {

// ── Numbers ──────────────────────────────────────────────────────────

/// A number divided by a unit in double precision, and written with some
/// decimals: `scale` is ten to their number.
pub open spec fn scaled(n: nat, unit: nat, scale: nat, decimals: nat) -> Seq<char> {
    fixed_point(fixed(quotient(of_int(n), of_int(unit)), scale), scale, decimals)
}

/// Writes a number divided by a unit.
fn scaled_text(n: u64, unit: u64, scale: u64, decimals: usize) -> (s: String)
    requires
        unit > 0,
        0 < scale <= 1000,
    ensures
        s@ == scaled(n as nat, unit as nat, scale as nat, decimals as nat),
{
    let q = Double::from_u64(n).over(Double::from_u64(unit));
    let mut s = String::new();
    push_fixed_point(&mut s, q.fixed_digits(scale), scale, decimals);
    assert(s@ =~= scaled(n as nat, unit as nat, scale as nat, decimals as nat));
    s
}

/// A count with K and M suffixes.
pub open spec fn count_text(n: nat) -> Seq<char> {
    if n >= 1_000_000 {
        scaled(n, 1_000_000, 100, 2) + "M"@
    } else if n >= 1_000 {
        scaled(n, 1_000, 10, 1) + "K"@
    } else {
        decimal(n)
    }
}

/// Formats a file count with K/M suffixes.
pub fn fmt_count(n: u64) -> (s: String)
    ensures
        s@ == count_text(n as nat),
{
    if n >= 1_000_000 {
        scaled_text(n, 1_000_000, 100, 2).concat("M")
    } else if n >= 1_000 {
        scaled_text(n, 1_000, 10, 1).concat("K")
    } else {
        decimal_text(n)
    }
}

/// A number of bytes with its unit.
pub open spec fn bytes_text(n: nat) -> Seq<char> {
    if n >= 1_000_000_000 {
        scaled(n, 1_000_000_000, 10, 1) + " GB"@
    } else if n >= 1_000_000 {
        scaled(n, 1_000_000, 10, 1) + " MB"@
    } else if n >= 1_000 {
        scaled(n, 1_000, 10, 1) + " KB"@
    } else {
        decimal(n) + " B"@
    }
}

/// Formats a byte count.
pub fn fmt_bytes(bytes: u64) -> (s: String)
    ensures
        s@ == bytes_text(bytes as nat),
{
    if bytes >= 1_000_000_000 {
        scaled_text(bytes, 1_000_000_000, 10, 1).concat(" GB")
    } else if bytes >= 1_000_000 {
        scaled_text(bytes, 1_000_000, 10, 1).concat(" MB")
    } else if bytes >= 1_000 {
        scaled_text(bytes, 1_000, 10, 1).concat(" KB")
    } else {
        decimal_text(bytes).concat(" B")
    }
}

/// A span of seconds and nanoseconds, as a double of seconds.
pub open spec fn seconds(secs: nat, nanos: nat) -> nat {
    sum(of_int(secs), quotient(of_int(nanos), of_int(1_000_000_000)))
}

/// A span of seconds and nanoseconds, as a double of seconds.
fn span(secs: u64, nanos: u32) -> (d: Double)
    ensures
        d.wf(),
        d.units() == seconds(secs as nat, nanos as nat),
        d.units() > 0 <==> secs > 0 || nanos > 0,
        900 <= d.scale() <= 1100,
{
    let fraction = Double::from_u64(nanos as u64).over(Double::from_u64(1_000_000_000));
    Double::from_u64(secs).plus(fraction)
}

/// A span of time: milliseconds below a tenth of a second, else seconds.
pub open spec fn elapsed_text(secs: nat, nanos: nat) -> Seq<char> {
    let s = seconds(secs, nanos);
    if s < quotient(of_int(1), of_int(10)) {
        decimal(fixed(product(s, of_int(1000)), 1)) + "ms"@
    } else {
        fixed_point(fixed(s, 10), 10, 1) + "s"@
    }
}

/// Formats a span of time.
pub fn fmt_elapsed(secs: u64, nanos: u32) -> (s: String)
    ensures
        s@ == elapsed_text(secs as nat, nanos as nat),
{
    let d = span(secs, nanos);
    let mut s = String::new();
    let tenth = Double::from_u64(1).over(Double::from_u64(10));
    if d.less_than(tenth) {
        let ms = d.times(Double::from_u64(1000));
        push_fixed_point(&mut s, ms.fixed_digits(1), 1, 0);
        s.append("ms");
    } else {
        push_fixed_point(&mut s, d.fixed_digits(10), 10, 1);
        s.append("s");
    }
    assert(s@ =~= elapsed_text(secs as nat, nanos as nat));
    s
}

/// Bytes per second: the quotient in double precision, cut down to an integer,
/// and nothing where no time has passed.
pub open spec fn rate(bytes: nat, secs: nat, nanos: nat) -> u64 {
    if seconds(secs, nanos) > 0 {
        truncated(quotient(of_int(bytes), seconds(secs, nanos)))
    } else {
        0
    }
}

/// The rate at which bytes were processed.
pub fn throughput(bytes: u64, secs: u64, nanos: u32) -> (r: u64)
    ensures
        r == rate(bytes as nat, secs as nat, nanos as nat),
{
    let d = span(secs, nanos);
    if secs > 0 || nanos > 0 {
        Double::from_u64(bytes).over(d).truncate()
    } else {
        0
    }
}

// ── Colors ───────────────────────────────────────────────────────────

/// The colors that text is shown in.
#[derive(Clone, Copy)]
pub enum Tint {
    Green,
    Yellow,
    Red,
    DarkGrey,
}

/// The parameters of the escape sequence that sets a color.
pub open spec fn tint_code(tint: Tint) -> Seq<char> {
    match tint {
        Tint::Green => "38;5;10"@,
        Tint::Yellow => "38;5;11"@,
        Tint::Red => "38;5;9"@,
        Tint::DarkGrey => "38;5;8"@,
    }
}

/// A text between two escape sequences with the given parameters.
pub open spec fn between(start: Seq<char>, s: Seq<char>, end: Seq<char>) -> Seq<char> {
    "\u{1b}["@ + start + "m"@ + s + "\u{1b}["@ + end + "m"@
}

/// Whether `shown` is a text in a color: between the sequences that set and
/// reset it, or, where colors are switched off, between two without parameters.
pub open spec fn painted(shown: Seq<char>, s: Seq<char>, tint: Tint) -> bool {
    ||| shown == between(tint_code(tint), s, "39"@)
    ||| shown == between(Seq::empty(), s, Seq::empty())
}

/// `Stylize::with` styles a text with a foreground color; shown, it stands
/// between the escape sequences that set the color and reset it. The crate
/// leaves the parameters of both out where colors are off, which the `NO_COLOR`
/// variable decides or a program's call: which of the two it is remains open.
#[verifier::external_body]
fn paint(s: &str, tint: Tint) -> (r: String)
    ensures
        painted(r@, s@, tint),
{
    let color = match tint {
        Tint::Green => Color::Green,
        Tint::Yellow => Color::Yellow,
        Tint::Red => Color::Red,
        Tint::DarkGrey => Color::DarkGrey,
    };
    s.with(color).to_string()
}

/// Whether `shown` is how a text is shown in a color: as it is, unless on a
/// terminal.
pub open spec fn shown_as(shown: Seq<char>, tty: bool, s: Seq<char>, tint: Tint) -> bool {
    if tty {
        painted(shown, s, tint)
    } else {
        shown == s
    }
}

/// A text in a color, on a terminal; else as it is.
fn tinted(tty: bool, s: &str, tint: Tint) -> (r: String)
    ensures
        shown_as(r@, tty, s@, tint),
{
    if tty {
        paint(s, tint)
    } else {
        s.to_owned()
    }
}

/// The color of what was created.
pub fn color_created(tty: bool, s: &str) -> (r: String)
    ensures
        shown_as(r@, tty, s@, Tint::Green),
{
    tinted(tty, s, Tint::Green)
}

/// The color of what was modified.
pub fn color_modified(tty: bool, s: &str) -> (r: String)
    ensures
        shown_as(r@, tty, s@, Tint::Yellow),
{
    tinted(tty, s, Tint::Yellow)
}

/// The color of what was deleted.
pub fn color_deleted(tty: bool, s: &str) -> (r: String)
    ensures
        shown_as(r@, tty, s@, Tint::Red),
{
    tinted(tty, s, Tint::Red)
}

/// A text shown dimly.
pub fn dim(tty: bool, s: &str) -> (r: String)
    ensures
        shown_as(r@, tty, s@, Tint::DarkGrey),
{
    tinted(tty, s, Tint::DarkGrey)
}

// ── Lines ────────────────────────────────────────────────────────────

/// What overwrites the status line with a message; nothing unless on a
/// terminal.
pub fn status_line(tty: bool, msg: &str) -> (r: Option<String>)
    ensures
        match r {
            Some(s) => tty && s@ == "\r\u{1b}[2K  "@ + msg@,
            None => !tty,
        },
{
    if !tty {
        return None;
    }
    Some("\r\u{1b}[2K  ".to_owned().concat(msg))
}

/// What clears the status line; nothing unless on a terminal.
pub fn clear_status(tty: bool) -> (r: Option<String>)
    ensures
        match r {
            Some(s) => tty && s@ == "\r\u{1b}[2K"@,
            None => !tty,
        },
{
    if !tty {
        return None;
    }
    Some("\r\u{1b}[2K".to_owned())
}

/// The line of a result: its path, indented.
pub fn print_result(path: &str) -> (r: String)
    ensures
        r@ == "  "@ + path@,
{
    "  ".to_owned().concat(path)
}

/// The lines of a summary: an empty one, and the message, indented.
pub fn print_summary(msg: &str) -> (r: String)
    ensures
        r@ == "\n  "@ + msg@,
{
    "\n  ".to_owned().concat(msg)
}

/// The line of a warning behind its mark.
pub fn warning_line(mark: &str, msg: &str) -> (r: String)
    ensures
        r@ == "  "@ + mark@ + " "@ + msg@,
{
    "  ".to_owned().concat(mark).concat(" ").concat(msg)
}

/// The line of a warning: an exclamation mark, in yellow on a terminal, and the
/// message.
pub fn print_warning(tty: bool, msg: &str) -> (r: String)
    ensures
        exists|mark: Seq<char>|
            #![trigger shown_as(mark, tty, "!"@, Tint::Yellow)]
            shown_as(mark, tty, "!"@, Tint::Yellow) && r@ == "  "@ + mark + " "@ + msg@,
{
    let mark = tinted(tty, "!", Tint::Yellow);
    warning_line(mark.as_str(), msg)
}

// ── Laws ─────────────────────────────────────────────────────────────

/// One, in the units that doubles are counted in, is a large number.
proof fn lemma_one_is_large()
    ensures
        one() > 0,
        one() >= 0x100_0000_0000_0000_0000_0000_0000_0000,
{
    lemma_pow2_pos(1074);
    lemma_pow2_adds(64, 56);
    lemma_pow2_adds(120, 954);
    lemma2_to64();
    lemma2_to64_rest();
    lemma_pow2_pos(954);
    assert(pow2(64) == 0x1_0000_0000_0000_0000);
    assert(pow2(56) == 0x100_0000_0000_0000);
    assert(pow2(120) == 0x100_0000_0000_0000_0000_0000_0000_0000);
    assert(pow2(120) * pow2(954) >= pow2(120)) by (nonlinear_arith)
        requires
            pow2(954) >= 1,
    ;
}

/// Rounding to the nearest double is off by no more than the 53rd bit.
proof fn lemma_nearest_close(num: nat, den: nat)
    requires
        den > 0,
        num / den >= 0x20_0000_0000_0000,
    ensures
        ({
            let off = nearest(num, den) * den - num;
            &&& 0x20_0000_0000_0000 * off <= num
            &&& -num <= 0x20_0000_0000_0000 * off
        }),
{
    law_result_is_nearest(num, den);
    law_spacing_keeps_53_bits(num / den);
    let g = spacing(num / den) as int;
    let u = (num / den) as int;
    let d = den as int;
    lemma_fundamental_div_mod(num as int, d);
    let r = (num % den) as int;
    let gd = g * d;
    assert(gd * 0x10_0000_0000_0000 <= num) by (nonlinear_arith)
        requires
            g * 0x10_0000_0000_0000 <= u,
            num == d * u + r,
            0 <= r,
            0 < d,
            gd == g * d,
    ;
}

/// A number divided by a unit shows as close to what it is as its decimals allow,
/// but for the last bits of a double.
#[verifier::rlimit(40)]
proof fn lemma_scaled_close(n: nat, unit: nat, scale: nat)
    requires
        0 < n < 0x1_0000_0000_0000_0000,
        0 < unit < 0x1_0000_0000,
        0 < scale,
    ensures
        ({
            let v = fixed(quotient(of_int(n), of_int(unit)), scale);
            let off = v * unit - n * scale;
            &&& 0x20_0000_0000_0000 * off <= 0x10_0000_0000_0000 * unit + 3 * (scale * n)
            &&& -(0x10_0000_0000_0000 * unit + 3 * (scale * n)) <= 0x20_0000_0000_0000 * off
        }),
{
    lemma_one_is_large();
    let o = one() as int;
    let no = n * o;
    assert(no >= o) by (nonlinear_arith)
        requires
            no == n * o,
            n >= 1,
            o > 0,
    ;
    let a = of_int(n) as int;
    assert(no as nat / 1 == no);
    lemma_nearest_close(no as nat, 1);
    assert(a * 1 == a);
    let z = a - no;
    law_arithmetic_rounds_once(0, 0, unit);
    let b = of_int(unit) as int;
    assert(b == unit * o);
    let ao = a * o;
    assert(b > 0) by (nonlinear_arith)
        requires
            b == unit * o,
            unit > 0,
            o > 0,
    ;
    let u = unit as int;
    assert(2 * a >= o);
    assert(ao >= 0x20_0000_0000_0000 * b) by (nonlinear_arith)
        requires
            ao == a * o,
            b == u * o,
            2 * a >= o,
            o >= 0x100_0000_0000_0000_0000_0000_0000_0000,
            0 < u < 0x1_0000_0000,
    ;
    assert(ao / b >= 0x20_0000_0000_0000) by {
        lemma_div_is_ordered(0x20_0000_0000_0000 * b, ao, b);
        lemma_div_multiples_vanish(0x20_0000_0000_0000, b);
        assert(b * 0x20_0000_0000_0000 == 0x20_0000_0000_0000 * b);
    }
    let q = quotient(a as nat, b as nat) as int;
    lemma_nearest_close(ao as nat, b as nat);
    let y = q * u - a;
    assert(q * b - ao == y * o) by (nonlinear_arith)
        requires
            b == u * o,
            ao == a * o,
            y == q * u - a,
    ;
    let m = 0x20_0000_0000_0000int;
    assert(m * y <= a && -a <= m * y) by (nonlinear_arith)
        requires
            m * (y * o) <= ao,
            -ao <= m * (y * o),
            ao == a * o,
            o > 0,
    ;
    let v = fixed(q as nat, scale) as int;
    let s = scale as int;
    law_digits_are_nearest(q as nat, scale);
    let x = v * o - q * s;
    let off = v * u - n * s;
    let ux = u * x;
    let sy = s * y;
    let sz = s * z;
    let sno = s * no;
    assert(off * o == ux + sy + sz) by (nonlinear_arith)
        requires
            off == v * u - n * s,
            x == v * o - q * s,
            y == q * u - a,
            z == a - no,
            no == n * o,
            ux == u * x,
            sy == s * y,
            sz == s * z,
    ;
    let uo = u * o;
    assert(2 * ux <= uo && -uo <= 2 * ux) by (nonlinear_arith)
        requires
            2 * x <= o,
            -o <= 2 * x,
            ux == u * x,
            uo == u * o,
            u > 0,
    ;
    let sa = s * a;
    assert(m * sy <= sa && -sa <= m * sy) by (nonlinear_arith)
        requires
            m * y <= a,
            -a <= m * y,
            sy == s * y,
            sa == s * a,
            s > 0,
    ;
    assert(m * sz <= sno && -sno <= m * sz) by (nonlinear_arith)
        requires
            m * z <= no,
            -no <= m * z,
            sz == s * z,
            sno == s * no,
            s > 0,
    ;
    assert(sa <= 2 * sno) by (nonlinear_arith)
        requires
            a <= 2 * no,
            sa == s * a,
            sno == s * no,
            s > 0,
    ;
    let k = 0x10_0000_0000_0000 * u + 3 * (s * n);
    assert(k * o == 0x10_0000_0000_0000 * uo + 3 * sno) by (nonlinear_arith)
        requires
            k == 0x10_0000_0000_0000 * u + 3 * (s * n),
            uo == u * o,
            sno == s * no,
            no == n * o,
    ;
    let t = off * o;
    assert(m * t <= k * o && -(k * o) <= m * t);
    assert(m * off <= k && -k <= m * off) by (nonlinear_arith)
        requires
            m * t <= k * o,
            -(k * o) <= m * t,
            t == off * o,
            o > 0,
    ;
}

/// A count below a thousand is itself. From there on it is shown in thousands with
/// one decimal, and from a million on in millions with two, rounded to what lies
/// nearest, but for the last bits of a double.
#[verifier::rlimit(40)]
pub proof fn law_counts_are_close(n: u64)
    ensures
        n < 1_000 ==> count_text(n as nat) == decimal(n as nat),
        1_000 <= n < 1_000_000 ==> exists|v: nat|
            {
                &&& count_text(n as nat) == #[trigger] fixed_point(v, 10, 1) + "K"@
                &&& -50 <= v * 100 - n <= 50
            },
        n >= 1_000_000 ==> exists|v: nat|
            {
                &&& count_text(n as nat) == #[trigger] fixed_point(v, 100, 2) + "M"@
                &&& 0x20_0000_0000_0000 * (v * 10_000 - n) <= 0x10_0000_0000_0000 * 10_000 + 3 * n
                &&& -(0x10_0000_0000_0000 * 10_000 + 3 * n) <= 0x20_0000_0000_0000 * (v * 10_000
                    - n)
            },
{
    if 1_000 <= n < 1_000_000 {
        lemma_scaled_close(n as nat, 1_000, 10);
        let v = fixed(quotient(of_int(n as nat), of_int(1_000)), 10);
        assert(count_text(n as nat) == fixed_point(v, 10, 1) + "K"@);
    }
    if n >= 1_000_000 {
        lemma_scaled_close(n as nat, 1_000_000, 100);
        let v = fixed(quotient(of_int(n as nat), of_int(1_000_000)), 100);
        assert(count_text(n as nat) == fixed_point(v, 100, 2) + "M"@);
    }
}

/// A number of bytes below a thousand is itself. From there on it is shown in
/// thousands, millions or billions of them, with one decimal, rounded to what lies
/// nearest, but for the last bits of a double.
#[verifier::rlimit(40)]
pub proof fn law_byte_counts_are_close(n: u64)
    ensures
        n < 1_000 ==> bytes_text(n as nat) == decimal(n as nat) + " B"@,
        1_000 <= n < 1_000_000 ==> exists|v: nat|
            {
                &&& bytes_text(n as nat) == #[trigger] fixed_point(v, 10, 1) + " KB"@
                &&& -50 <= v * 100 - n <= 50
            },
        1_000_000 <= n < 1_000_000_000 ==> exists|v: nat|
            {
                &&& bytes_text(n as nat) == #[trigger] fixed_point(v, 10, 1) + " MB"@
                &&& -50_000 <= v * 100_000 - n <= 50_000
            },
        n >= 1_000_000_000 ==> exists|v: nat|
            {
                &&& bytes_text(n as nat) == #[trigger] fixed_point(v, 10, 1) + " GB"@
                &&& 0x20_0000_0000_0000 * (v * 100_000_000 - n) <= 0x10_0000_0000_0000
                    * 100_000_000 + 3 * n
                &&& -(0x10_0000_0000_0000 * 100_000_000 + 3 * n) <= 0x20_0000_0000_0000 * (v
                    * 100_000_000 - n)
            },
{
    if 1_000 <= n < 1_000_000 {
        lemma_scaled_close(n as nat, 1_000, 10);
        let v = fixed(quotient(of_int(n as nat), of_int(1_000)), 10);
        assert(bytes_text(n as nat) == fixed_point(v, 10, 1) + " KB"@);
    }
    if 1_000_000 <= n < 1_000_000_000 {
        lemma_scaled_close(n as nat, 1_000_000, 10);
        let v = fixed(quotient(of_int(n as nat), of_int(1_000_000)), 10);
        assert(bytes_text(n as nat) == fixed_point(v, 10, 1) + " MB"@);
    }
    if n >= 1_000_000_000 {
        lemma_scaled_close(n as nat, 1_000_000_000, 10);
        let v = fixed(quotient(of_int(n as nat), of_int(1_000_000_000)), 10);
        assert(bytes_text(n as nat) == fixed_point(v, 10, 1) + " GB"@);
    }
}

/// A span is its seconds and its nanoseconds, as doubles. It is shown in whole
/// milliseconds where it is shorter than a tenth of a second, and else in seconds
/// with one decimal.
pub proof fn law_spans_are_shown_by_length(secs: nat, nanos: nat)
    ensures
        ({
            let s = nearest(of_int(secs) + quotient(of_int(nanos), of_int(1_000_000_000)), 1);
            let tenth = quotient(of_int(1), of_int(10));
            &&& seconds(secs, nanos) == s
            &&& s < tenth ==> elapsed_text(secs, nanos) == decimal(
                round_half_even(product(s, of_int(1_000)), one()),
            ) + "ms"@
            &&& s >= tenth ==> elapsed_text(secs, nanos) == fixed_point(
                round_half_even(s * 10, one()),
                10,
                1,
            ) + "s"@
        }),
{
    let s = seconds(secs, nanos);
    assert(product(s, of_int(1_000)) * 1 == product(s, of_int(1_000))) by (nonlinear_arith);
}

/// The rate is the bytes by the seconds, as doubles, cut down to an integer; it is
/// nothing where no time has passed, and at least as high for the bytes that
/// double arithmetic makes at least as many.
pub proof fn law_rate_is_bytes_by_time(bytes: nat, secs: nat, nanos: nat)
    ensures
        seconds(secs, nanos) == 0 ==> rate(bytes, secs, nanos) == 0,
        seconds(secs, nanos) > 0 ==> ({
            let q = nearest(of_int(bytes) * one(), seconds(secs, nanos));
            let r = rate(bytes, secs, nanos);
            &&& r < u64::MAX ==> r * one() <= q < (r + 1) * one()
            &&& r == u64::MAX ==> q >= u64::MAX * one()
        }),
{
    if seconds(secs, nanos) > 0 {
        law_digits_are_nearest(quotient(of_int(bytes), seconds(secs, nanos)), 1);
    }
}

/// Text is shown as it is off a terminal. On one it stands between the escape
/// sequences that set its color and reset it, or between two without parameters.
pub proof fn law_colored_text_stands_between_escapes(shown: Seq<char>, s: Seq<char>)
    ensures
        forall|tint: Tint| #[trigger] shown_as(shown, false, s, tint) <==> shown == s,
        forall|tint: Tint| #[trigger]
            shown_as(shown, true, s, tint) <==> {
                ||| shown == "\u{1b}["@ + (match tint {
                    Tint::Green => "38;5;10"@,
                    Tint::Yellow => "38;5;11"@,
                    Tint::Red => "38;5;9"@,
                    Tint::DarkGrey => "38;5;8"@,
                }) + "m"@ + s + "\u{1b}["@ + "39"@ + "m"@
                ||| shown == "\u{1b}["@ + "m"@ + s + "\u{1b}["@ + "m"@
            },
        forall|tint: Tint| #[trigger] painted(shown, s, tint) == shown_as(shown, true, s, tint),
{
    let none = Seq::<char>::empty();
    assert("\u{1b}["@ + none + "m"@ =~= "\u{1b}["@ + "m"@);
    assert("\u{1b}["@ + "m"@ + s + "\u{1b}["@ + none =~= "\u{1b}["@ + "m"@ + s + "\u{1b}["@);
}

} // verus!

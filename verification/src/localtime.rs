//! Local time broken down into its fields, and how it is written.
use crate::number::{
    all_digits, decimal, digit, digits_value, law_padding_keeps_value, push_zero_padded_int,
    zero_padded, zero_padded_int,
};
use crate::order::{
    lemma_text_antisymmetric, lemma_text_common, lemma_text_total, lemma_text_transitive,
    text_at_most, text_le,
};
use crate::text::chars;
use vstd::arithmetic::power::{lemma_pow_increases, pow};
use vstd::prelude::*;
use vstd::string::*;

verus! {

/// A broken-down time: the years since 1900, the months since January, and the
/// day, hour, minute and second.
#[derive(Clone, Copy)]
pub struct LocalTime {
    pub year: i32,
    pub month: i32,
    pub day: i32,
    pub hour: i32,
    pub minute: i32,
    pub second: i32,
}

impl LocalTime {
    /// Whether the calendar's year and month can be counted.
    pub open spec fn countable(self) -> bool {
        self.year + 1900 <= i32::MAX && self.month + 1 <= i32::MAX
    }

    /// Whether the year is not before the year zero, and every other field has at
    /// most two digits.
    pub open spec fn common(self) -> bool {
        &&& 0 <= self.year + 1900
        &&& 0 <= self.month + 1 <= 99
        &&& 0 <= self.day <= 99
        &&& 0 <= self.hour <= 99
        &&& 0 <= self.minute <= 99
        &&& 0 <= self.second <= 99
    }

    /// Whether this time is before another.
    pub open spec fn before(self, other: LocalTime) -> bool {
        ||| self.year < other.year
        ||| self.year == other.year && {
            ||| self.month < other.month
            ||| self.month == other.month && {
                ||| self.day < other.day
                ||| self.day == other.day && {
                    ||| self.hour < other.hour
                    ||| self.hour == other.hour && {
                        ||| self.minute < other.minute
                        ||| self.minute == other.minute && self.second < other.second
                    }
                }
            }
        }
    }
}

/// A time as `YYYYMMDD_HHMMSS`.
pub open spec fn timestamp(t: LocalTime) -> Seq<char> {
    zero_padded_int(t.year + 1900, 4) + zero_padded_int(t.month + 1, 2) + zero_padded_int(
        t.day as int,
        2,
    ) + seq!['_'] + zero_padded_int(t.hour as int, 2) + zero_padded_int(t.minute as int, 2)
        + zero_padded_int(t.second as int, 2)
}

/// The order of timestamps: one whose year has more digits is later, and of those
/// of one length the one that comes later as a text.
pub open spec fn stamp_le(a: Seq<char>, b: Seq<char>) -> bool {
    a.len() < b.len() || (a.len() == b.len() && text_le(a, b))
}

/// Whether a timestamp is not later than another.
pub fn stamp_at_most(a: &str, b: &str) -> (r: bool)
    ensures
        r == stamp_le(a@, b@),
{
    let m: usize = chars(a).len();
    let n: usize = chars(b).len();
    m < n || (m == n && text_at_most(a, b))
}

/// Of two timestamps, one is not later; and only equal ones are both.
pub proof fn lemma_stamp_total(a: Seq<char>, b: Seq<char>)
    ensures
        stamp_le(a, b) || stamp_le(b, a),
        stamp_le(a, b) && stamp_le(b, a) ==> a == b,
{
    lemma_text_total(a, b);
    if stamp_le(a, b) && stamp_le(b, a) {
        lemma_text_antisymmetric(a, b);
    }
}

/// The order of timestamps is transitive.
pub proof fn lemma_stamp_transitive(a: Seq<char>, b: Seq<char>, c: Seq<char>)
    requires
        stamp_le(a, b),
        stamp_le(b, c),
    ensures
        stamp_le(a, c),
{
    if a.len() == c.len() {
        lemma_text_transitive(a, b, c);
    }
}

/// Writes a time as `YYYYMMDD_HHMMSS`.
pub fn format_timestamp(t: &LocalTime) -> (s: String)
    requires
        t.countable(),
    ensures
        s@ == timestamp(*t),
{
    let mut s = String::new();
    push_zero_padded_int(&mut s, t.year + 1900, 4);
    push_zero_padded_int(&mut s, t.month + 1, 2);
    push_zero_padded_int(&mut s, t.day, 2);
    s.push('_');
    push_zero_padded_int(&mut s, t.hour, 2);
    push_zero_padded_int(&mut s, t.minute, 2);
    push_zero_padded_int(&mut s, t.second, 2);
    assert(s@ =~= timestamp(*t));
    s
}

/// A time of day as `HH:MM:SS`.
pub open spec fn clock(t: LocalTime) -> Seq<char> {
    zero_padded_int(t.hour as int, 2) + seq![':'] + zero_padded_int(t.minute as int, 2) + seq![
        ':',
    ] + zero_padded_int(t.second as int, 2)
}

/// Writes a time of day as `HH:MM:SS`.
pub fn format_time_hms(t: &LocalTime) -> (s: String)
    ensures
        s@ == clock(*t),
{
    let mut s = String::new();
    push_zero_padded_int(&mut s, t.hour, 2);
    s.push(':');
    push_zero_padded_int(&mut s, t.minute, 2);
    s.push(':');
    push_zero_padded_int(&mut s, t.second, 2);
    assert(s@ =~= clock(*t));
    s
}

/// A number that fits its width is its leading digits, padded, and its last one.
proof fn lemma_padded_split(n: nat, width: nat)
    requires
        width > 0,
        n < pow(10, width),
    ensures
        n / 10 < pow(10, (width - 1) as nat),
        width > 1 ==> zero_padded(n, width) == zero_padded(n / 10, (width - 1) as nat).push(
            digit(n % 10),
        ),
        width == 1 ==> zero_padded(n, width) == seq![digit(n)],
{
    reveal(pow);
    assert(n / 10 < pow(10, (width - 1) as nat)) by (nonlinear_arith)
        requires
            n < 10 * pow(10, (width - 1) as nat),
    ;
    if width == 1 {
        assert(pow(10, 0) == 1);
        assert(decimal(n) == seq![digit(n)]);
    } else if n < 10 {
        assert(decimal(n / 10) == seq![digit(0)]);
        assert(zero_padded(n, width) =~= zero_padded(n / 10, (width - 1) as nat).push(
            digit(n % 10),
        ));
    } else {
        assert(zero_padded(n, width) =~= zero_padded(n / 10, (width - 1) as nat).push(
            digit(n % 10),
        ));
    }
}

/// A padded number that fits its width has that width, and only digits.
pub proof fn lemma_padded_shape(n: nat, width: nat)
    requires
        width > 0,
        n < pow(10, width),
    ensures
        zero_padded(n, width).len() == width,
        crate::number::all_digits(zero_padded(n, width)),
    decreases width,
{
    lemma_padded_split(n, width);
    if width == 1 {
        reveal(pow);
        assert(pow(10, 0) == 1);
    } else {
        lemma_padded_shape(n / 10, (width - 1) as nat);
        let s = zero_padded(n, width);
        let t = zero_padded(n / 10, (width - 1) as nat);
        assert forall|i: int| 0 <= i < s.len() implies 48 <= (#[trigger] s[i]) as u32 <= 57 by {
            if i < width - 1 {
                assert(s[i] == t[i]);
            }
        }
    }
}

/// Of two texts that begin with numbers padded to one width, the one with the
/// smaller number comes first.
proof fn lemma_padded_order(x: nat, y: nat, width: nat, r: Seq<char>, s: Seq<char>)
    requires
        width > 0,
        x < y < pow(10, width),
    ensures
        text_le(zero_padded(x, width) + r, zero_padded(y, width) + s),
        !text_le(zero_padded(y, width) + s, zero_padded(x, width) + r),
    decreases width,
{
    lemma_padded_split(x, width);
    lemma_padded_split(y, width);
    let a = seq![digit(x % 10)] + r;
    let b = seq![digit(y % 10)] + s;
    if width == 1 {
        reveal(pow);
        assert(pow(10, 0) == 1);
        assert(zero_padded(x, width) + r =~= a);
        assert(zero_padded(y, width) + s =~= b);
        assert(digit(x) < digit(y));
    } else {
        let p = zero_padded(x / 10, (width - 1) as nat);
        let q = zero_padded(y / 10, (width - 1) as nat);
        assert(zero_padded(x, width) + r =~= p + a);
        assert(zero_padded(y, width) + s =~= q + b);
        if x / 10 < y / 10 {
            lemma_padded_order(x / 10, y / 10, (width - 1) as nat, a, b);
        } else {
            lemma_text_common(p, a, b);
            lemma_text_common(p, b, a);
            assert(digit(x % 10) < digit(y % 10));
        }
    }
}

/// What a timestamp is made of, from its fields to its end.
spec fn clock_digits(t: LocalTime) -> Seq<char> {
    zero_padded(t.hour as nat, 2) + (zero_padded(t.minute as nat, 2) + zero_padded(
        t.second as nat,
        2,
    ))
}

spec fn day_digits(t: LocalTime) -> Seq<char> {
    zero_padded(t.day as nat, 2) + (seq!['_'] + clock_digits(t))
}

/// A timestamp is its year, its month, and the rest.
proof fn lemma_timestamp_parts(t: LocalTime)
    requires
        t.common(),
    ensures
        timestamp(t) == zero_padded((t.year + 1900) as nat, 4) + (zero_padded(
            (t.month + 1) as nat,
            2,
        ) + day_digits(t)),
{
    let y = zero_padded((t.year + 1900) as nat, 4);
    let m = zero_padded((t.month + 1) as nat, 2);
    let d = zero_padded(t.day as nat, 2);
    let h = zero_padded(t.hour as nat, 2);
    let n = zero_padded(t.minute as nat, 2);
    let s = zero_padded(t.second as nat, 2);
    assert(y + m + d + seq!['_'] + h + n + s =~= y + (m + (d + (seq!['_'] + (h + (n + s))))));
}

/// A number has as many digits as its value asks for.
proof fn lemma_decimal_width(n: nat)
    ensures
        decimal(n).len() > 0,
        n < pow(10, decimal(n).len()),
        decimal(n).len() > 1 ==> n >= pow(10, (decimal(n).len() - 1) as nat),
    decreases n,
{
    reveal(pow);
    if n < 10 {
        assert(pow(10, 1) == 10) by {
            reveal_with_fuel(pow, 2);
        }
    } else {
        lemma_decimal_width(n / 10);
        let w = decimal(n / 10).len();
        assert(pow(10, w + 1) == 10 * pow(10, w));
        assert(n < 10 * pow(10, w));
        if w > 1 {
            assert(pow(10, w) == 10 * pow(10, (w - 1) as nat));
        } else {
            assert(pow(10, 1) == 10) by {
                reveal_with_fuel(pow, 2);
            }
        }
    }
}

/// The width of a year in a timestamp.
pub open spec fn year_width(t: LocalTime) -> nat {
    let w = decimal((t.year + 1900) as nat).len();
    if w < 4 {
        4
    } else {
        w
    }
}

/// A year fits its width, and is padded to it; only a year of more than four
/// digits is wider, and it fits no less.
pub proof fn lemma_year_width(t: LocalTime)
    requires
        t.common(),
    ensures
        year_width(t) >= 4,
        t.year + 1900 < pow(10, year_width(t)),
        zero_padded((t.year + 1900) as nat, 4) == zero_padded(
            (t.year + 1900) as nat,
            year_width(t),
        ),
        year_width(t) > 4 ==> t.year + 1900 >= pow(10, (year_width(t) - 1) as nat),
        t.year + 1900 <= 9999 ==> year_width(t) == 4,
{
    let y = (t.year + 1900) as nat;
    lemma_decimal_width(y);
    let w = decimal(y).len();
    if w < 4 {
        lemma_pow_increases(10, w, 4);
    }
    if w > 4 {
        lemma_pow_increases(10, 4, (w - 1) as nat);
        assert(pow(10, 4) == 10000) by {
            reveal_with_fuel(pow, 5);
        }
    }
}

/// A timestamp is as long as its year is wide, and eleven characters more.
pub proof fn lemma_timestamp_len(t: LocalTime)
    requires
        t.common(),
    ensures
        timestamp(t).len() == year_width(t) + 11,
{
    assert(pow(10, 2) == 100) by {
        reveal_with_fuel(pow, 3);
    }
    lemma_year_width(t);
    lemma_padded_shape((t.year + 1900) as nat, year_width(t));
    lemma_padded_shape((t.month + 1) as nat, 2);
    lemma_padded_shape(t.day as nat, 2);
    lemma_padded_shape(t.hour as nat, 2);
    lemma_padded_shape(t.minute as nat, 2);
    lemma_padded_shape(t.second as nat, 2);
}

/// The order of timestamps is the order of time. As long as years have four
/// digits it is the order of timestamps as texts.
pub proof fn law_timestamps_sort_by_time(a: LocalTime, b: LocalTime)
    requires
        a.common(),
        b.common(),
        a.before(b),
    ensures
        stamp_le(timestamp(a), timestamp(b)),
        !stamp_le(timestamp(b), timestamp(a)),
        b.year + 1900 <= 9999 ==> text_le(timestamp(a), timestamp(b)) && !text_le(
            timestamp(b),
            timestamp(a),
        ),
{
    lemma_timestamp_len(a);
    lemma_timestamp_len(b);
    lemma_year_width(a);
    lemma_year_width(b);
    let w = year_width(a);
    if w > year_width(b) {
        lemma_pow_increases(10, year_width(b), (w - 1) as nat);
        assert(false);
    }
    if w == year_width(b) {
        lemma_same_width_order(a, b);
    }
}

/// Timestamps of one length are in order as texts.
proof fn lemma_same_width_order(a: LocalTime, b: LocalTime)
    requires
        a.common(),
        b.common(),
        a.before(b),
        year_width(a) == year_width(b),
    ensures
        text_le(timestamp(a), timestamp(b)),
        !text_le(timestamp(b), timestamp(a)),
{
    assert(pow(10, 2) == 100) by {
        reveal_with_fuel(pow, 3);
    }
    lemma_year_width(a);
    lemma_year_width(b);
    let w = year_width(a);
    let ya = zero_padded((a.year + 1900) as nat, w);
    let ma = zero_padded((a.month + 1) as nat, 2);
    let mb = zero_padded((b.month + 1) as nat, 2);
    let da = day_digits(a);
    let db = day_digits(b);
    lemma_timestamp_parts(a);
    lemma_timestamp_parts(b);
    if a.year < b.year {
        lemma_padded_order(
            (a.year + 1900) as nat,
            (b.year + 1900) as nat,
            w,
            ma + da,
            mb + db,
        );
    } else {
        lemma_text_common(ya, ma + da, mb + db);
        lemma_text_common(ya, mb + db, ma + da);
        if a.month < b.month {
            lemma_padded_order((a.month + 1) as nat, (b.month + 1) as nat, 2, da, db);
        } else {
            lemma_text_common(ma, da, db);
            lemma_text_common(ma, db, da);
            lemma_days_order(a, b);
        }
    }
}

/// Within a month, days and the time of day decide.
proof fn lemma_days_order(a: LocalTime, b: LocalTime)
    requires
        a.common(),
        b.common(),
        a.before(b),
        a.year == b.year,
        a.month == b.month,
    ensures
        text_le(day_digits(a), day_digits(b)),
        !text_le(day_digits(b), day_digits(a)),
{
    assert(pow(10, 2) == 100) by {
        reveal_with_fuel(pow, 3);
    }
    let ta = clock_digits(a);
    let tb = clock_digits(b);
    if a.day < b.day {
        lemma_padded_order(a.day as nat, b.day as nat, 2, seq!['_'] + ta, seq!['_'] + tb);
    } else {
        let d = zero_padded(a.day as nat, 2);
        lemma_text_common(d, seq!['_'] + ta, seq!['_'] + tb);
        lemma_text_common(d, seq!['_'] + tb, seq!['_'] + ta);
        lemma_text_common(seq!['_'], ta, tb);
        lemma_text_common(seq!['_'], tb, ta);
        let h = zero_padded(a.hour as nat, 2);
        let m = zero_padded(a.minute as nat, 2);
        let ra = m + zero_padded(a.second as nat, 2);
        let rb = zero_padded(b.minute as nat, 2) + zero_padded(b.second as nat, 2);
        if a.hour < b.hour {
            lemma_padded_order(a.hour as nat, b.hour as nat, 2, ra, rb);
        } else {
            lemma_text_common(h, ra, rb);
            lemma_text_common(h, rb, ra);
            let sa = zero_padded(a.second as nat, 2);
            let sb = zero_padded(b.second as nat, 2);
            if a.minute < b.minute {
                lemma_padded_order(a.minute as nat, b.minute as nat, 2, sa, sb);
            } else {
                lemma_text_common(m, sa, sb);
                lemma_text_common(m, sb, sa);
                lemma_padded_order(
                    a.second as nat,
                    b.second as nat,
                    2,
                    Seq::empty(),
                    Seq::empty(),
                );
                assert(sa + Seq::<char>::empty() =~= sa);
                assert(sb + Seq::<char>::empty() =~= sb);
            }
        }
    }
}

// ── Laws on the digits ───────────────────────────────────────────────

/// A timestamp shows its fields, two digits each behind the year, with an
/// underscore between date and time.
#[verifier::rlimit(40)]
pub proof fn law_timestamp_shows_its_fields(t: LocalTime)
    requires
        t.common(),
    ensures
        ({
            let s = timestamp(t);
            let w = s.len() - 11;
            &&& w >= 4
            &&& digits_value(s.take(w)) == t.year + 1900
            &&& digits_value(s.subrange(w, w + 2)) == t.month + 1
            &&& digits_value(s.subrange(w + 2, w + 4)) == t.day
            &&& s[w + 4] == '_'
            &&& digits_value(s.subrange(w + 5, w + 7)) == t.hour
            &&& digits_value(s.subrange(w + 7, w + 9)) == t.minute
            &&& digits_value(s.subrange(w + 9, w + 11)) == t.second
            &&& all_digits(s.take(w)) && all_digits(s.subrange(w, w + 4)) && all_digits(
                s.subrange(w + 5, w + 11),
            )
        }),
{
    assert(pow(10, 2) == 100) by {
        reveal_with_fuel(pow, 3);
    }
    let y = zero_padded((t.year + 1900) as nat, 4);
    let m = zero_padded((t.month + 1) as nat, 2);
    let d = zero_padded(t.day as nat, 2);
    let h = zero_padded(t.hour as nat, 2);
    let n = zero_padded(t.minute as nat, 2);
    let c = zero_padded(t.second as nat, 2);
    lemma_year_width(t);
    lemma_timestamp_len(t);
    lemma_padded_shape((t.year + 1900) as nat, year_width(t));
    lemma_padded_shape((t.month + 1) as nat, 2);
    lemma_padded_shape(t.day as nat, 2);
    lemma_padded_shape(t.hour as nat, 2);
    lemma_padded_shape(t.minute as nat, 2);
    lemma_padded_shape(t.second as nat, 2);
    law_padding_keeps_value((t.year + 1900) as nat, 4);
    law_padding_keeps_value((t.month + 1) as nat, 2);
    law_padding_keeps_value(t.day as nat, 2);
    law_padding_keeps_value(t.hour as nat, 2);
    law_padding_keeps_value(t.minute as nat, 2);
    law_padding_keeps_value(t.second as nat, 2);
    let s = timestamp(t);
    let w = s.len() - 11;
    assert(s == y + m + d + seq!['_'] + h + n + c);
    assert(s.take(w) =~= y);
    assert(s.subrange(w, w + 2) =~= m);
    assert(s.subrange(w + 2, w + 4) =~= d);
    assert(s.subrange(w + 5, w + 7) =~= h);
    assert(s.subrange(w + 7, w + 9) =~= n);
    assert(s.subrange(w + 9, w + 11) =~= c);
    assert(s.subrange(w, w + 4) =~= m + d);
    assert(s.subrange(w + 5, w + 11) =~= h + n + c);
    assert(all_digits(m + d));
    assert(all_digits(h + n + c));
}

/// A time of day shows its hour, minute and second, two digits each, with colons
/// between them.
pub proof fn law_clock_shows_its_fields(t: LocalTime)
    requires
        t.common(),
    ensures
        ({
            let s = clock(t);
            &&& s.len() == 8
            &&& digits_value(s.subrange(0, 2)) == t.hour
            &&& s[2] == ':'
            &&& digits_value(s.subrange(3, 5)) == t.minute
            &&& s[5] == ':'
            &&& digits_value(s.subrange(6, 8)) == t.second
            &&& all_digits(s.subrange(0, 2)) && all_digits(s.subrange(3, 5)) && all_digits(
                s.subrange(6, 8),
            )
        }),
{
    assert(pow(10, 2) == 100) by {
        reveal_with_fuel(pow, 3);
    }
    let h = zero_padded(t.hour as nat, 2);
    let n = zero_padded(t.minute as nat, 2);
    let c = zero_padded(t.second as nat, 2);
    lemma_padded_shape(t.hour as nat, 2);
    lemma_padded_shape(t.minute as nat, 2);
    lemma_padded_shape(t.second as nat, 2);
    law_padding_keeps_value(t.hour as nat, 2);
    law_padding_keeps_value(t.minute as nat, 2);
    law_padding_keeps_value(t.second as nat, 2);
    let s = clock(t);
    assert(s.subrange(0, 2) =~= h);
    assert(s.subrange(3, 5) =~= n);
    assert(s.subrange(6, 8) =~= c);
}

} // verus!

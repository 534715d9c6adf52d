//! Durations as people write them: `30s`, `5m`, `2h`, `1d`, or plain seconds.
use crate::number::{parse_range, parsed_u64};
use crate::text::{
    chars, law_trimming_ignores_the_ends, lemma_trimmed_end, lemma_trimmed_start, text_of, trim,
    trimmed, white_space,
};
use vstd::prelude::*;
use vstd::string::*;

verus! {

/// How many seconds a unit has.
pub open spec fn unit_seconds(c: char) -> Option<u64> {
    if c == 'd' {
        Some(86400u64)
    } else if c == 'h' {
        Some(3600u64)
    } else if c == 'm' {
        Some(60u64)
    } else if c == 's' {
        Some(1u64)
    } else {
        None
    }
}

/// The number and the unit, in seconds, that a duration is written with; a
/// blank text is no time at all.
pub open spec fn duration_of(text: Seq<char>) -> Option<(u64, u64)> {
    let s = trimmed(text, |c: char| white_space(c));
    if s.len() == 0 {
        Some((0u64, 1u64))
    } else {
        let (digits, unit) = match unit_seconds(s.last()) {
            Some(unit) => (s.drop_last(), unit),
            None => (s, 1u64),
        };
        match parsed_u64(digits) {
            Some(n) => Some((n, unit)),
            None => None,
        }
    }
}

/// A text that is no duration, without the white space around it.
pub struct InvalidDuration {
    pub text: String,
}

/// Reads the number and the unit, in seconds, of a duration.
pub fn duration_parts(s: &str) -> (r: Result<(u64, u64), InvalidDuration>)
    ensures
        match r {
            Ok(parts) => duration_of(s@) == Some(parts),
            Err(e) => duration_of(s@) is None && e.text@ == trimmed(
                s@,
                |c: char| white_space(c),
            ),
        },
{
    let t = trim(s);
    let v = chars(t.as_str());
    if v.len() == 0 {
        return Ok((0, 1));
    }
    let last: char = v[v.len() - 1];
    let unit: Option<u64> = if last == 'd' {
        Some(86400)
    } else if last == 'h' {
        Some(3600)
    } else if last == 'm' {
        Some(60)
    } else if last == 's' {
        Some(1)
    } else {
        None
    };
    let (end, multiplier): (usize, u64) = match unit {
        Some(u) => (v.len() - 1, u),
        None => (v.len(), 1),
    };
    proof {
        assert(v@.subrange(0, v.len() as int) =~= v@);
        assert(v@.subrange(0, v.len() - 1) =~= v@.drop_last());
    }
    match parse_range(&v, 0, end) {
        Some(n) => Ok((n, multiplier)),
        None => Err(InvalidDuration { text: text_of(&v) }),
    }
}

/// Whether a duration, in seconds, is more than a `u64` can hold.
pub open spec fn too_long(text: Seq<char>) -> bool {
    duration_of(text) matches Some((n, unit)) && n * unit > u64::MAX
}

/// Reads a duration in seconds.
pub fn parse_duration(s: &str) -> (r: Result<u64, InvalidDuration>)
    requires
        !too_long(s@),
    ensures
        match r {
            Ok(seconds) => duration_of(s@) matches Some((n, unit)) && seconds == n * unit,
            Err(e) => duration_of(s@) is None && e.text@ == trimmed(
                s@,
                |c: char| white_space(c),
            ),
        },
{
    match duration_parts(s) {
        Ok((n, unit)) => Ok(n * unit),
        Err(e) => Err(e),
    }
}

/// A plain number followed by a unit is that many units.
pub proof fn law_units(n: u64, unit: char)
    requires
        unit_seconds(unit) is Some,
    ensures
        duration_of(crate::number::decimal(n as nat).push(unit)) == Some(
            (n, unit_seconds(unit)->0),
        ),
        duration_of(crate::number::decimal(n as nat)) == Some((n, 1u64)),
{
    let d = crate::number::decimal(n as nat);
    let p = |c: char| white_space(c);
    crate::number::lemma_decimal(n as nat);
    crate::number::lemma_parse_decimal(n);
    let s = d.push(unit);
    assert(s[0] == d[0] && 48 <= d[0] as u32 <= 57);
    crate::text::lemma_trimmed_start(s, p, 0);
    assert(s.skip(0) =~= s);
    crate::text::lemma_trimmed_end(s, p, s.len() as int);
    assert(s.take(s.len() as int) =~= s);
    assert(s.drop_last() =~= d);
    assert(48 <= d.last() as u32 <= 57);
    crate::text::lemma_trimmed_start(d, p, 0);
    assert(d.skip(0) =~= d);
    crate::text::lemma_trimmed_end(d, p, d.len() as int);
    assert(d.take(d.len() as int) =~= d);
}

/// A duration is a number and a unit: days, hours, minutes or seconds, and
/// seconds without one. It is none exactly where there is no such number.
pub proof fn law_duration_is_number_and_unit(digits: Seq<char>)
    requires
        digits.len() > 0,
        !white_space(digits[0]),
        !white_space(digits.last()),
    ensures
        ({
            let number = parsed_u64(digits);
            let with = |unit: u64|
                match number {
                    Some(n) => Some((n, unit)),
                    None => None,
                };
            &&& duration_of(digits.push('d')) == with(86_400)
            &&& duration_of(digits.push('h')) == with(3_600)
            &&& duration_of(digits.push('m')) == with(60)
            &&& duration_of(digits.push('s')) == with(1)
            &&& digits.last() != 'd' && digits.last() != 'h' && digits.last() != 'm'
                && digits.last() != 's' ==> duration_of(digits) == with(1)
        }),
{
    lemma_untrimmed(digits);
    lemma_untrimmed(digits.push('d'));
    lemma_untrimmed(digits.push('h'));
    lemma_untrimmed(digits.push('m'));
    lemma_untrimmed(digits.push('s'));
    assert(digits.push('d').drop_last() =~= digits);
    assert(digits.push('h').drop_last() =~= digits);
    assert(digits.push('m').drop_last() =~= digits);
    assert(digits.push('s').drop_last() =~= digits);
}

/// A text without white space at its ends stays as it is.
proof fn lemma_untrimmed(s: Seq<char>)
    requires
        s.len() > 0,
        !white_space(s[0]),
        !white_space(s.last()),
    ensures
        trimmed(s, |c: char| white_space(c)) == s,
{
    let p = |c: char| white_space(c);
    lemma_trimmed_start(s, p, 0);
    assert(s.skip(0) =~= s);
    lemma_trimmed_end(s, p, s.len() as int);
    assert(s.take(s.len() as int) =~= s);
}

/// White space around a duration changes nothing, and white space alone is no time
/// at all; a unit alone is no duration.
pub proof fn law_white_space_does_not_count(before: Seq<char>, s: Seq<char>, after: Seq<char>)
    requires
        forall|i: int| 0 <= i < before.len() ==> white_space(before[i]),
        forall|i: int| 0 <= i < after.len() ==> white_space(after[i]),
    ensures
        duration_of(before + s + after) == duration_of(s),
        duration_of(before) == Some((0u64, 1u64)),
        duration_of(seq!['h']) is None,
{
    let p = |c: char| white_space(c);
    law_trimming_ignores_the_ends(before, s, after, p);
    law_trimming_ignores_the_ends(before, Seq::empty(), Seq::empty(), p);
    assert(before + Seq::<char>::empty() + Seq::<char>::empty() =~= before);
    lemma_trimmed_start(Seq::empty(), p, 0);
    lemma_trimmed_end(Seq::<char>::empty().skip(0), p, 0);
    lemma_untrimmed(seq!['h']);
    assert(seq!['h'].drop_last() =~= Seq::<char>::empty());
}

/// A duration is too long exactly where its seconds do not fit.
pub proof fn law_too_long_is_overflow(s: Seq<char>, n: u64, unit: u64)
    requires
        duration_of(s) == Some((n, unit)),
    ensures
        too_long(s) <==> n * unit > u64::MAX,
{
}

} // verus!

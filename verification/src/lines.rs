//! Texts cut into lines and into fields.
use crate::bytes::copy_bytes;
use crate::text::{chars, decoded, from_utf8, substring, text_of};
use vstd::prelude::*;
use vstd::string::*;
use vstd::utf8::{
    decode_utf8, decode_utf8_split, is_char_boundary_iff_not_is_continuation_byte,
    is_char_boundary_start_end_of_seq, is_continuation_byte, pop_first_scalar, valid_utf8,
    valid_utf8_concat, valid_utf8_split,
};

verus! {

/// The contents of a list of texts.
pub open spec fn texts(v: Seq<String>) -> Seq<Seq<char>> {
    v.map_values(|s: String| s@)
}

/// Appending a text to a list appends its content.
pub proof fn lemma_texts_push(v: Seq<String>, s: String)
    ensures
        texts(v.push(s)) == texts(v).push(s@),
{
    assert(texts(v.push(s)) =~= texts(v).push(s@));
}

// ── Lines ────────────────────────────────────────────────────────────

/// A line without one carriage return at its end.
pub open spec fn without_cr(line: Seq<char>) -> Seq<char> {
    if line.len() > 0 && line.last() == '\r' {
        line.drop_last()
    } else {
        line
    }
}

/// The lines of a text that a newline ends, and what follows the last newline.
/// A carriage return just before a newline belongs to the line's end.
pub open spec fn cut_lines(s: Seq<char>) -> (Seq<Seq<char>>, Seq<char>)
    decreases s.len(),
{
    if s.len() == 0 {
        (Seq::empty(), Seq::empty())
    } else {
        let (done, open) = cut_lines(s.drop_last());
        if s.last() == '\n' {
            (done.push(without_cr(open)), Seq::empty())
        } else {
            (done, open.push(s.last()))
        }
    }
}

/// The lines of a text; the newline after the last one is optional.
pub open spec fn lines(s: Seq<char>) -> Seq<Seq<char>> {
    let (done, open) = cut_lines(s);
    if open.len() == 0 {
        done
    } else {
        done.push(open)
    }
}

/// Cuts a text into its lines.
pub fn split_lines(s: &str) -> (r: Vec<String>)
    ensures
        texts(r@) == lines(s@),
{
    let mut r: Vec<String> = Vec::new();
    let mut open: Vec<char> = Vec::new();
    assert(texts(r@) =~= Seq::<Seq<char>>::empty());
    for c in it: s.chars()
        invariant
            it.seq() == s@,
            texts(r@) == cut_lines(s@.take(it.index() as int)).0,
            open@ == cut_lines(s@.take(it.index() as int)).1,
    {
        let ghost i = it.index() as int;
        assert(s@.take(i + 1).drop_last() =~= s@.take(i));
        assert(s@.take(i + 1).last() == c);
        if c == '\n' {
            let ghost before = r@;
            if open.len() > 0 && open[open.len() - 1] == '\r' {
                assert(open@.drop_last() =~= open@.subrange(0, open.len() - 1));
                r.push(substring(&open, 0, open.len() - 1));
            } else {
                r.push(text_of(&open));
            }
            proof {
                lemma_texts_push(before, r@.last());
                assert(r@ =~= before.push(r@.last()));
            }
            open = Vec::new();
        } else {
            open.push(c);
        }
    }
    assert(s@.take(s@.len() as int) =~= s@);
    if open.len() > 0 {
        let last = text_of(&open);
        proof {
            lemma_texts_push(r@, last);
        }
        r.push(last);
    }
    r
}

/// Whether a text can stand as one line: without a newline, and not ended by a
/// carriage return.
pub open spec fn one_line(s: Seq<char>) -> bool {
    &&& forall|i: int| 0 <= i < s.len() ==> s[i] != '\n'
    &&& s.len() > 0 ==> s.last() != '\r'
}

/// Characters other than a newline extend the open line.
proof fn lemma_cut_more(before: Seq<char>, more: Seq<char>)
    requires
        forall|i: int| 0 <= i < more.len() ==> more[i] != '\n',
    ensures
        cut_lines(before + more) == (cut_lines(before).0, cut_lines(before).1 + more),
    decreases more.len(),
{
    if more.len() == 0 {
        assert(before + more =~= before);
        assert(cut_lines(before).1 + more =~= cut_lines(before).1);
    } else {
        lemma_cut_more(before, more.drop_last());
        let whole = before + more;
        assert(whole.drop_last() =~= before + more.drop_last());
        assert(whole.last() == more.last());
        assert((cut_lines(before).1 + more.drop_last()).push(more.last()) =~= cut_lines(before).1
            + more);
    }
}

/// A text that ends its last line, followed by one more line, has the lines of
/// the text and that line.
pub proof fn lemma_one_more_line(before: Seq<char>, line: Seq<char>)
    requires
        one_line(line),
        cut_lines(before).1.len() == 0,
    ensures
        cut_lines((before + line).push('\n')) == (cut_lines(before).0.push(line), Seq::<
            char,
        >::empty()),
{
    lemma_cut_more(before, line);
    let whole = (before + line).push('\n');
    assert(whole.drop_last() =~= before + line);
    assert(cut_lines(before).1 + line =~= line);
}

// ── Fields ───────────────────────────────────────────────────────────

/// Where a character first stands in a text, or the text's length.
pub open spec fn position(s: Seq<char>, c: char) -> int
    decreases s.len(),
{
    if s.len() == 0 || s[0] == c {
        0
    } else {
        1 + position(s.skip(1), c)
    }
}

/// The first place of a character is the one before which it does not stand.
pub proof fn lemma_position(s: Seq<char>, c: char, i: int)
    requires
        0 <= i <= s.len(),
        forall|j: int| 0 <= j < i ==> s[j] != c,
        i < s.len() ==> s[i] == c,
    ensures
        position(s, c) == i,
    decreases s.len(),
{
    if i > 0 {
        assert(s[0] != c);
        let t = s.skip(1);
        assert forall|j: int| 0 <= j < i - 1 implies t[j] != c by {
            assert(t[j] == s[j + 1]);
        }
        lemma_position(t, c, i - 1);
    }
}

/// Where a character last stands in a text, or -1.
pub open spec fn last_position(s: Seq<char>, c: char) -> int
    decreases s.len(),
{
    if s.len() == 0 {
        -1
    } else if s.last() == c {
        s.len() - 1
    } else {
        last_position(s.drop_last(), c)
    }
}

/// The last place of a character is the one behind which it does not stand.
pub proof fn lemma_last_position(s: Seq<char>, c: char, i: int)
    requires
        -1 <= i < s.len(),
        i >= 0 ==> s[i] == c,
        forall|j: int| i < j < s.len() ==> s[j] != c,
    ensures
        last_position(s, c) == i,
    decreases s.len(),
{
    if s.len() > 0 && s.last() != c {
        lemma_last_position(s.drop_last(), c, i);
    }
}

/// The fields of a text between separators, at most `n` of them: the last one
/// holds the rest.
pub open spec fn splitn(s: Seq<char>, sep: char, n: nat) -> Seq<Seq<char>>
    decreases n,
{
    let p = position(s, sep);
    if n == 0 {
        Seq::empty()
    } else if n == 1 || p >= s.len() {
        seq![s]
    } else {
        seq![s.take(p)] + splitn(s.skip(p + 1), sep, (n - 1) as nat)
    }
}

/// A text that starts with a field and a separator has that field first.
pub proof fn lemma_splitn_field(field: Seq<char>, sep: char, rest: Seq<char>, n: nat)
    requires
        n > 1,
        forall|i: int| 0 <= i < field.len() ==> field[i] != sep,
    ensures
        splitn(field + seq![sep] + rest, sep, n) == seq![field] + splitn(
            rest,
            sep,
            (n - 1) as nat,
        ),
{
    let s = field + seq![sep] + rest;
    lemma_position(s, sep, field.len() as int);
    assert(s.take(field.len() as int) =~= field);
    assert(s.skip(field.len() as int + 1) =~= rest);
}

/// Cuts a text into at most `n` fields.
pub fn split_fields(s: &str, sep: char, n: usize) -> (r: Vec<String>)
    requires
        n > 0,
    ensures
        texts(r@) == splitn(s@, sep, n as nat),
{
    let v = chars(s);
    let mut r: Vec<String> = Vec::new();
    let mut start: usize = 0;
    let mut left: usize = n;
    let mut i: usize = 0;
    proof {
        assert(s@.skip(0) =~= s@);
        assert(texts(r@) + splitn(s@, sep, n as nat) =~= splitn(s@, sep, n as nat));
    }
    while i < v.len() && left > 1
        invariant
            v@ == s@,
            n > 0,
            start <= i <= v.len(),
            1 <= left <= n,
            texts(r@) + splitn(s@.skip(start as int), sep, left as nat) == splitn(
                s@,
                sep,
                n as nat,
            ),
            forall|j: int| start <= j < i ==> s@[j] != sep,
        decreases v.len() - i,
    {
        if v[i] == sep {
            let field = substring(&v, start, i);
            proof {
                let t = s@.skip(start as int);
                assert forall|j: int| 0 <= j < i - start implies t[j] != sep by {
                    assert(t[j] == s@[start + j]);
                }
                assert(t[i - start] == sep);
                lemma_position(t, sep, i - start);
                assert(t.take(i - start) =~= field@);
                assert(t.skip(i - start + 1) =~= s@.skip(i + 1));
                lemma_texts_push(r@, field);
                let rest = splitn(s@.skip(i + 1), sep, (left - 1) as nat);
                assert(texts(r@) + (seq![field@] + rest) =~= texts(r@).push(field@) + rest);
            }
            r.push(field);
            start = i + 1;
            left = left - 1;
        }
        i = i + 1;
    }
    let last = substring(&v, start, v.len());
    proof {
        let t = s@.skip(start as int);
        assert(t =~= last@);
        if left > 1 {
            assert forall|j: int| 0 <= j < t.len() implies t[j] != sep by {
                assert(t[j] == s@[start + j]);
            }
            lemma_position(t, sep, t.len() as int);
        }
        assert(splitn(t, sep, left as nat) == seq![t]);
        lemma_texts_push(r@, last);
        assert(texts(r@) + seq![t] =~= texts(r@).push(last@));
    }
    r.push(last);
    r
}

// ── Lines of bytes ───────────────────────────────────────────────────

/// How many bytes the first line has, with the line feed that ends it.
pub open spec fn first_line_len(bytes: Seq<u8>) -> nat
    decreases bytes.len(),
{
    if bytes.len() == 0 {
        0
    } else if bytes[0] == 10 {
        1
    } else {
        1 + first_line_len(bytes.skip(1))
    }
}

/// The first line has no more bytes than there are, and one where there is any.
pub proof fn lemma_first_line(bytes: Seq<u8>)
    ensures
        first_line_len(bytes) <= bytes.len(),
        bytes.len() > 0 ==> first_line_len(bytes) > 0,
    decreases bytes.len(),
{
    if bytes.len() > 0 && bytes[0] != 10 {
        lemma_first_line(bytes.skip(1));
    }
}

/// A line that ends at the first line feed has that length.
proof fn lemma_first_line_len(bytes: Seq<u8>, n: int)
    requires
        0 < n <= bytes.len(),
        forall|i: int| 0 <= i < n - 1 ==> bytes[i] != 10,
        bytes[n - 1] == 10 || n == bytes.len(),
    ensures
        first_line_len(bytes) == n,
    decreases n,
{
    if n > 1 {
        let rest = bytes.skip(1);
        assert(forall|i: int| 0 <= i < rest.len() ==> rest[i] == bytes[i + 1]);
        lemma_first_line_len(rest, n - 1);
    } else if bytes[0] != 10 {
        assert(bytes.skip(1) =~= Seq::<u8>::empty());
        assert(first_line_len(bytes.skip(1)) == 0);
    }
}

/// The text that can be read line by line, up to the first line that is not
/// UTF-8, and whether that is all of it.
pub open spec fn readable(bytes: Seq<u8>) -> (Seq<char>, bool)
    decreases bytes.len(),
{
    if bytes.len() == 0 {
        (Seq::empty(), true)
    } else {
        let n = first_line_len(bytes) as int;
        match decoded(bytes.take(n)) {
            Some(line) => {
                proof {
                    lemma_first_line(bytes);
                }
                let (rest, whole) = readable(bytes.skip(n));
                (line + rest, whole)
            },
            None => (Seq::empty(), false),
        }
    }
}

/// A first line that is not all there is ends in a line feed.
proof fn lemma_first_line_ends(bytes: Seq<u8>)
    requires
        first_line_len(bytes) < bytes.len(),
    ensures
        first_line_len(bytes) > 0,
        bytes[first_line_len(bytes) - 1] == 10,
    decreases bytes.len(),
{
    if bytes[0] != 10 {
        lemma_first_line_ends(bytes.skip(1));
    }
}

/// Where UTF-8 goes on behind a line feed, it is UTF-8 before and after.
proof fn lemma_cut_at_line_feed(bytes: Seq<u8>, n: int)
    requires
        valid_utf8(bytes),
        0 < n <= bytes.len(),
        n < bytes.len() ==> bytes[n - 1] == 10,
    ensures
        valid_utf8(bytes.take(n)),
        valid_utf8(bytes.skip(n)),
{
    if n == bytes.len() {
        assert(bytes.take(n) =~= bytes);
        assert(bytes.skip(n) =~= Seq::<u8>::empty());
    } else {
        assert(!is_continuation_byte(10));
        is_char_boundary_iff_not_is_continuation_byte(bytes, n - 1);
        valid_utf8_split(bytes, n - 1);
        let tail = bytes.subrange(n - 1, bytes.len() as int);
        assert(tail[0] == 10);
        assert(pop_first_scalar(tail) =~= bytes.skip(n));
        is_char_boundary_iff_not_is_continuation_byte(bytes.skip(n), 0);
        assert(bytes.skip(n)[0] == bytes[n]);
        is_char_boundary_iff_not_is_continuation_byte(bytes, n);
        valid_utf8_split(bytes, n);
        assert(bytes.take(n) =~= bytes.subrange(0, n));
    }
}

/// A text can be read line by line to its end exactly where it is UTF-8 as a
/// whole, and is then the same text.
pub proof fn law_lines_are_the_text(bytes: Seq<u8>)
    ensures
        readable(bytes).1 <==> valid_utf8(bytes),
        readable(bytes).1 ==> readable(bytes).0 == decode_utf8(bytes),
    decreases bytes.len(),
{
    if bytes.len() > 0 {
        let n = first_line_len(bytes) as int;
        let line = bytes.take(n);
        let rest = bytes.skip(n);
        lemma_first_line(bytes);
        law_lines_are_the_text(rest);
        assert(line + rest =~= bytes);
        if n < bytes.len() {
            lemma_first_line_ends(bytes);
        }
        if valid_utf8(bytes) {
            lemma_cut_at_line_feed(bytes, n);
        }
        if valid_utf8(line) && valid_utf8(rest) {
            valid_utf8_concat(line, rest);
            if n < bytes.len() {
                is_char_boundary_iff_not_is_continuation_byte(rest, 0);
                assert(rest[0] == bytes[n]);
                is_char_boundary_iff_not_is_continuation_byte(bytes, n);
            } else {
                is_char_boundary_start_end_of_seq(bytes);
            }
            decode_utf8_split(bytes, n);
            assert(bytes.subrange(0, n) =~= line);
            assert(bytes.subrange(n, bytes.len() as int) =~= rest);
        }
    }
}

/// Reads a text line by line, up to the first line that is not UTF-8, and says
/// whether that is all of it.
pub fn read_text(bytes: &[u8]) -> (r: (String, bool))
    ensures
        (r.0@, r.1) == readable(bytes@),
{
    let total: usize = bytes.len();
    let mut text = String::new();
    let mut at: usize = 0;
    proof {
        assert(bytes@.skip(0) =~= bytes@);
        assert(text@ + readable(bytes@).0 =~= readable(bytes@).0);
    }
    while at < total
        invariant
            at <= total == bytes@.len(),
            text@ + readable(bytes@.skip(at as int)).0 == readable(bytes@).0,
            readable(bytes@.skip(at as int)).1 == readable(bytes@).1,
        decreases total - at,
    {
        let ghost rest = bytes@.skip(at as int);
        let mut end: usize = at;
        while end < total && bytes[end] != 10
            invariant
                at <= end <= total == bytes@.len(),
                rest == bytes@.skip(at as int),
                forall|i: int| 0 <= i < end - at ==> rest[i] != 10,
            decreases total - end,
        {
            assert(rest[end - at] == bytes@[end as int]);
            end = end + 1;
        }
        if end < total {
            assert(rest[end - at] == 10);
            end = end + 1;
        }
        proof {
            lemma_first_line_len(rest, end - at);
            assert(rest.take(end - at) =~= bytes@.subrange(at as int, end as int));
            assert(rest.skip(end - at) =~= bytes@.skip(end as int));
        }
        match from_utf8(copy_bytes(bytes, at, end)) {
            Some(line) => {
                let ghost before = text@;
                text.append(line.as_str());
                proof {
                    let after = readable(bytes@.skip(end as int)).0;
                    assert((before + line@) + after =~= before + (line@ + after));
                }
                at = end;
            },
            None => {
                assert(text@ + Seq::<char>::empty() =~= text@);
                return (text, false);
            },
        }
    }
    proof {
        assert(bytes@.skip(at as int) =~= Seq::<u8>::empty());
        assert(text@ + Seq::<char>::empty() =~= text@);
    }
    (text, true)
}

// ── Laws ─────────────────────────────────────────────────────────────

/// What follows lines that have all ended is cut by itself.
proof fn lemma_cut_apart(a: Seq<char>, b: Seq<char>)
    requires
        cut_lines(a).1.len() == 0,
    ensures
        cut_lines(a + b) == (cut_lines(a).0 + cut_lines(b).0, cut_lines(b).1),
    decreases b.len(),
{
    if b.len() == 0 {
        assert(a + b =~= a);
        assert(cut_lines(a).0 + Seq::<Seq<char>>::empty() =~= cut_lines(a).0);
        assert(cut_lines(a).1 =~= Seq::<char>::empty());
    } else {
        let front = b.drop_last();
        lemma_cut_apart(a, front);
        assert((a + b).drop_last() =~= a + front);
        assert((a + b).last() == b.last());
        let (done, open) = cut_lines(front);
        if b.last() == '\n' {
            let line = without_cr(open);
            assert((cut_lines(a).0 + done).push(line) =~= cut_lines(a).0 + done.push(line));
        }
    }
}

/// A line goes up to its newline, which does not belong to it, nor does one
/// carriage return before that; what follows is cut by itself. Without a newline
/// all of a text is one line, and an empty text has none.
pub proof fn law_lines_end_at_newlines(line: Seq<char>, rest: Seq<char>)
    requires
        forall|i: int| 0 <= i < line.len() ==> line[i] != '\n',
    ensures
        (line.len() == 0 || line.last() != '\r') ==> lines(line + seq!['\n'] + rest) == seq![line]
            + lines(rest),
        lines(line + seq!['\r', '\n'] + rest) == seq![line] + lines(rest),
        line.len() > 0 ==> lines(line) == seq![line],
        lines(Seq::empty()) == Seq::<Seq<char>>::empty(),
{
    let none = Seq::<char>::empty();
    let more = line.push('\r');
    lemma_cut_more(none, line);
    lemma_cut_more(none, more);
    assert(none + line =~= line);
    assert(none + more =~= more);
    assert(cut_lines(none) == (Seq::<Seq<char>>::empty(), none));
    let a = line + seq!['\n'];
    let b = line + seq!['\r', '\n'];
    assert(a.drop_last() =~= line);
    assert(b.drop_last() =~= more);
    assert(more.drop_last() =~= line);
    lemma_cut_apart(a, rest);
    lemma_cut_apart(b, rest);
    let first = seq![line];
    assert(Seq::<Seq<char>>::empty().push(line) =~= first);
    let (done, open) = cut_lines(rest);
    if open.len() > 0 {
        assert((first + done).push(open) =~= first + done.push(open));
    }
}

/// A field goes up to its separator, as long as more than one field is left to
/// cut; the last field holds the rest, and a text without separators is one.
pub proof fn law_fields_end_at_separators(field: Seq<char>, sep: char, rest: Seq<char>, n: nat)
    requires
        forall|i: int| 0 <= i < field.len() ==> field[i] != sep,
    ensures
        n > 1 ==> splitn(field + seq![sep] + rest, sep, n) == seq![field] + splitn(
            rest,
            sep,
            (n - 1) as nat,
        ),
        n > 0 ==> splitn(field, sep, n) == seq![field],
        splitn(rest, sep, 1) == seq![rest],
{
    if n > 1 {
        lemma_splitn_field(field, sep, rest, n);
    }
    lemma_position(field, sep, field.len() as int);
}

/// Reading line by line gives the lines before the first that is not UTF-8, and
/// says that there is more.
pub proof fn law_reading_stops_at_a_bad_line(before: Seq<u8>, line: Seq<u8>, after: Seq<u8>)
    requires
        valid_utf8(before),
        before.len() > 0 ==> before.last() == 10,
        line.len() > 0,
        !valid_utf8(line),
        forall|i: int| 0 <= i < line.len() - 1 ==> line[i] != 10,
        after.len() > 0 ==> line.last() == 10,
    ensures
        readable(before + line + after) == (decode_utf8(before), false),
    decreases before.len(),
{
    let bytes = before + line + after;
    if before.len() == 0 {
        assert(bytes =~= line + after);
        assert forall|i: int| 0 <= i < line.len() - 1 implies bytes[i] != 10 by {
            assert(bytes[i] == line[i]);
        }
        assert(bytes[line.len() - 1] == line.last());
        lemma_first_line_len(bytes, line.len() as int);
        assert(bytes.take(line.len() as int) =~= line);
        assert(decode_utf8(before) =~= Seq::<char>::empty());
    } else {
        let n = first_line_len(before) as int;
        lemma_first_line(before);
        lemma_first_line_stays(before, line + after);
        assert(bytes =~= before + (line + after));
        let rest = before.skip(n);
        if n < before.len() {
            lemma_first_line_ends(before);
            assert(rest.last() == before.last());
        }
        lemma_cut_at_line_feed(before, n);
        assert(bytes.take(n) =~= before.take(n));
        assert(bytes.skip(n) =~= rest + line + after);
        law_reading_stops_at_a_bad_line(rest, line, after);
        law_lines_are_the_text(before);
        law_lines_are_the_text(rest);
    }
}

/// The first line stays where more follows lines that have all ended.
proof fn lemma_first_line_stays(a: Seq<u8>, b: Seq<u8>)
    requires
        a.len() > 0,
        a.last() == 10,
    ensures
        first_line_len(a + b) == first_line_len(a),
    decreases a.len(),
{
    assert((a + b)[0] == a[0]);
    if a[0] != 10 {
        assert(a.len() > 1);
        assert((a + b).skip(1) =~= a.skip(1) + b);
        assert(a.skip(1).last() == a.last());
        lemma_first_line_stays(a.skip(1), b);
    }
}

} // verus!

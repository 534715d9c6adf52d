//! Texts as sequences of characters.
use vstd::prelude::*;
use vstd::string::*;
use vstd::utf8::{decode_utf8, valid_utf8};

verus! {

/// `String::push` appends one character.
pub assume_specification[ String::push ](s: &mut String, c: char)
    ensures
        final(s)@ == old(s)@.push(c),
;

/// An optional text, as its model.
pub open spec fn text_view(s: Option<String>) -> Option<Seq<char>> {
    match s {
        Some(t) => Some(t@),
        None => None,
    }
}

/// The text that bytes hold, where they are UTF-8.
pub open spec fn decoded(bytes: Seq<u8>) -> Option<Seq<char>> {
    if valid_utf8(bytes) {
        Some(decode_utf8(bytes))
    } else {
        None
    }
}

/// `String::from_utf8` gives the text that bytes hold where they are UTF-8, and
/// an error where they are not.
#[verifier::external_body]
pub(crate) fn from_utf8(bytes: Vec<u8>) -> (r: Option<String>)
    ensures
        match r {
            Some(s) => decoded(bytes@) == Some(s@),
            None => decoded(bytes@) is None,
        },
{
    String::from_utf8(bytes).ok()
}

// ── Characters and pieces ────────────────────────────────────────────

/// The characters of a text.
pub fn chars(s: &str) -> (v: Vec<char>)
    ensures
        v@ == s@,
{
    let mut v: Vec<char> = Vec::new();
    for c in it: s.chars()
        invariant
            v@ == it.seq().take(it.index() as int),
            it.seq() == s@,
    {
        v.push(c);
    }
    v
}

/// The text of a range of characters.
pub fn substring(v: &Vec<char>, from: usize, to: usize) -> (s: String)
    requires
        from <= to <= v.len(),
    ensures
        s@ == v@.subrange(from as int, to as int),
{
    let mut s = String::new();
    let mut i: usize = from;
    while i < to
        invariant
            from <= i <= to <= v.len(),
            s@ == v@.subrange(from as int, i as int),
        decreases to - i,
    {
        s.push(v[i]);
        i = i + 1;
    }
    s
}

/// The text of a list of characters.
pub fn text_of(v: &Vec<char>) -> (s: String)
    ensures
        s@ == v@,
{
    let s = substring(v, 0, v.len());
    assert(v@.subrange(0, v.len() as int) == v@);
    s
}

/// Whether two texts are the same.
pub fn same_text(a: &str, b: &str) -> (r: bool)
    ensures
        r == (a@ == b@),
{
    a.to_owned() == b.to_owned()
}

/// Whether a text begins with another.
pub fn starts_with(s: &str, prefix: &str) -> (r: bool)
    ensures
        r == prefix@.is_prefix_of(s@),
{
    let v = chars(s);
    let p = chars(prefix);
    if p.len() > v.len() {
        return false;
    }
    let mut i: usize = 0;
    while i < p.len()
        invariant
            p@ == prefix@,
            v@ == s@,
            i <= p.len() <= v.len(),
            forall|j: int| 0 <= j < i ==> p@[j] == v@[j],
        decreases p.len() - i,
    {
        if p[i] != v[i] {
            assert(v@.take(p.len() as int)[i as int] == v@[i as int]);
            return false;
        }
        i = i + 1;
    }
    assert(p@ =~= v@.take(p.len() as int));
    true
}

/// Whether a text ends with another.
pub fn ends_with(s: &str, suffix: &str) -> (r: bool)
    ensures
        r == suffix@.is_suffix_of(s@),
{
    let v = chars(s);
    let p = chars(suffix);
    if p.len() > v.len() {
        return false;
    }
    let base: usize = v.len() - p.len();
    let mut i: usize = 0;
    while i < p.len()
        invariant
            p@ == suffix@,
            v@ == s@,
            i <= p.len(),
            base + p.len() == v.len(),
            forall|j: int| 0 <= j < i ==> p@[j] == v@[base + j],
        decreases p.len() - i,
    {
        if p[i] != v[base + i] {
            assert(v@.skip(base as int)[i as int] == v@[base + i]);
            return false;
        }
        i = i + 1;
    }
    assert(p@ =~= v@.skip(base as int));
    true
}

/// A text with one character put in place of another throughout.
pub open spec fn replaced(s: Seq<char>, from: char, to: char) -> Seq<char> {
    s.map_values(
        |c: char|
            if c == from {
                to
            } else {
                c
            },
    )
}

/// Puts one character in place of another throughout a text.
pub fn replace(s: &str, from: char, to: char) -> (r: String)
    ensures
        r@ == replaced(s@, from, to),
{
    let v = chars(s);
    let mut r = String::new();
    let mut i: usize = 0;
    while i < v.len()
        invariant
            v@ == s@,
            i <= v.len(),
            r@ == replaced(s@, from, to).take(i as int),
        decreases v.len() - i,
    {
        let c = v[i];
        r.push(
            if c == from {
                to
            } else {
                c
            },
        );
        i = i + 1;
        assert(replaced(s@, from, to).take(i as int) =~= replaced(s@, from, to).take(
            i - 1,
        ).push(replaced(s@, from, to)[i - 1]));
    }
    assert(replaced(s@, from, to).take(i as int) =~= replaced(s@, from, to));
    r
}

/// A text without its leading characters that satisfy `p`.
pub open spec fn trimmed_start(s: Seq<char>, p: spec_fn(char) -> bool) -> Seq<char>
    decreases s.len(),
{
    if s.len() > 0 && p(s[0]) {
        trimmed_start(s.skip(1), p)
    } else {
        s
    }
}

/// A text without its trailing characters that satisfy `p`.
pub open spec fn trimmed_end(s: Seq<char>, p: spec_fn(char) -> bool) -> Seq<char>
    decreases s.len(),
{
    if s.len() > 0 && p(s.last()) {
        trimmed_end(s.drop_last(), p)
    } else {
        s
    }
}

/// A text without the characters at either end that satisfy `p`.
pub open spec fn trimmed(s: Seq<char>, p: spec_fn(char) -> bool) -> Seq<char> {
    trimmed_end(trimmed_start(s, p), p)
}

/// A range of a text, trimmed at the front, starts at the first character that
/// does not satisfy `p`.
pub proof fn lemma_trimmed_start(s: Seq<char>, p: spec_fn(char) -> bool, i: int)
    requires
        0 <= i <= s.len(),
        forall|j: int| 0 <= j < i ==> p(s[j]),
        i < s.len() ==> !p(s[i]),
    ensures
        trimmed_start(s, p) == s.skip(i),
    decreases i,
{
    if i == 0 {
        assert(s.skip(0) =~= s);
    } else {
        assert(p(s[0]));
        let t = s.skip(1);
        assert forall|j: int| 0 <= j < i - 1 implies p(t[j]) by {
            assert(t[j] == s[j + 1]);
        }
        lemma_trimmed_start(t, p, i - 1);
        assert(t.skip(i - 1) =~= s.skip(i));
    }
}

/// A range of a text, trimmed at the back, ends after the last character that
/// does not satisfy `p`.
pub proof fn lemma_trimmed_end(s: Seq<char>, p: spec_fn(char) -> bool, i: int)
    requires
        0 <= i <= s.len(),
        forall|j: int| i <= j < s.len() ==> p(s[j]),
        i > 0 ==> !p(s[i - 1]),
    ensures
        trimmed_end(s, p) == s.take(i),
    decreases s.len(),
{
    if i == s.len() {
        assert(s.take(i) =~= s);
    } else {
        assert(p(s.last()));
        lemma_trimmed_end(s.drop_last(), p, i);
        assert(s.drop_last().take(i) =~= s.take(i));
    }
}

/// The characters with Unicode's White_Space property.
pub open spec fn white_space(c: char) -> bool {
    let n = c as u32;
    ||| 0x9 <= n <= 0xd
    ||| n == 0x20
    ||| n == 0x85
    ||| n == 0xa0
    ||| n == 0x1680
    ||| 0x2000 <= n <= 0x200a
    ||| n == 0x2028
    ||| n == 0x2029
    ||| n == 0x202f
    ||| n == 0x205f
    ||| n == 0x3000
}

/// Whether a character has Unicode's White_Space property.
pub fn is_white_space(c: char) -> (r: bool)
    ensures
        r == white_space(c),
{
    let n: u32 = c as u32;
    (0x9 <= n && n <= 0xd) || n == 0x20 || n == 0x85 || n == 0xa0 || n == 0x1680 || (0x2000 <= n
        && n <= 0x200a) || n == 0x2028 || n == 0x2029 || n == 0x202f || n == 0x205f || n == 0x3000
}

/// A text without the white space at its ends.
pub fn trim(s: &str) -> (r: String)
    ensures
        r@ == trimmed(s@, |c: char| white_space(c)),
{
    let v = chars(s);
    let ghost p = |c: char| white_space(c);
    let mut from: usize = 0;
    while from < v.len() && is_white_space(v[from])
        invariant
            p == (|c: char| white_space(c)),
            from <= v.len(),
            forall|j: int| 0 <= j < from ==> p(v@[j]),
        decreases v.len() - from,
    {
        from = from + 1;
    }
    proof {
        lemma_trimmed_start(v@, p, from as int);
    }
    let ghost t = v@.skip(from as int);
    let mut to: usize = v.len();
    while to > from && is_white_space(v[to - 1])
        invariant
            p == (|c: char| white_space(c)),
            from <= to <= v.len(),
            t == v@.skip(from as int),
            forall|j: int| to - from <= j < t.len() ==> p(t[j]),
        decreases to,
    {
        to = to - 1;
    }
    proof {
        if to > from {
            assert(t[to - from - 1] == v@[to - 1]);
        }
        lemma_trimmed_end(t, p, to - from);
        assert(t.take(to - from) =~= v@.subrange(from as int, to as int));
    }
    substring(&v, from, to)
}

/// A text without a given character at its ends.
pub fn trim_char(s: &str, c: char) -> (r: String)
    ensures
        r@ == trimmed(s@, |x: char| x == c),
{
    let v = chars(s);
    let ghost p = |x: char| x == c;
    let mut from: usize = 0;
    while from < v.len() && v[from] == c
        invariant
            p == (|x: char| x == c),
            from <= v.len(),
            forall|j: int| 0 <= j < from ==> p(v@[j]),
        decreases v.len() - from,
    {
        from = from + 1;
    }
    proof {
        lemma_trimmed_start(v@, p, from as int);
    }
    let ghost t = v@.skip(from as int);
    let mut to: usize = v.len();
    while to > from && v[to - 1] == c
        invariant
            p == (|x: char| x == c),
            from <= to <= v.len(),
            t == v@.skip(from as int),
            forall|j: int| to - from <= j < t.len() ==> p(t[j]),
        decreases to,
    {
        to = to - 1;
    }
    proof {
        if to > from {
            assert(t[to - from - 1] == v@[to - 1]);
        }
        lemma_trimmed_end(t, p, to - from);
        assert(t.take(to - from) =~= v@.subrange(from as int, to as int));
    }
    substring(&v, from, to)
}

// ── Laws ─────────────────────────────────────────────────────────────

/// Replacing a character keeps the length of a text and every other character,
/// and puts the new one in each place of the old one.
pub proof fn law_replacing_keeps_places(s: Seq<char>, from: char, to: char)
    ensures
        replaced(s, from, to).len() == s.len(),
        forall|i: int|
            0 <= i < s.len() ==> (#[trigger] replaced(s, from, to)[i]) == if s[i] == from {
                to
            } else {
                s[i]
            },
{
}

/// What is left of a text once both its ends are trimmed stands in the text as it
/// is, between characters that all satisfy `p`, and neither begins nor ends with
/// such a character.
pub proof fn law_trimming_cuts_the_ends(s: Seq<char>, p: spec_fn(char) -> bool)
    ensures
        exists|i: int, j: int|
            {
                &&& 0 <= i <= j <= s.len()
                &&& trimmed(s, p) == #[trigger] s.subrange(i, j)
                &&& forall|k: int| 0 <= k < i || j <= k < s.len() ==> p(s[k])
            },
        trimmed(s, p).len() > 0 ==> !p(trimmed(s, p)[0]) && !p(trimmed(s, p).last()),
{
    let i = lemma_first_kept(s, p);
    let t = s.skip(i);
    lemma_trimmed_start(s, p, i);
    let k = lemma_last_kept(t, p);
    lemma_trimmed_end(t, p, k);
    assert(trimmed(s, p) =~= s.subrange(i, i + k));
    assert forall|m: int| 0 <= m < i || i + k <= m < s.len() implies p(s[m]) by {
        if m >= i {
            assert(s[m] == t[m - i]);
        }
    }
    if k > 0 {
        assert(trimmed(s, p)[0] == t[0]);
        assert(i < s.len());
    }
}

/// Where the first character stands that is not trimmed.
proof fn lemma_first_kept(s: Seq<char>, p: spec_fn(char) -> bool) -> (i: int)
    ensures
        0 <= i <= s.len(),
        forall|j: int| 0 <= j < i ==> p(s[j]),
        i < s.len() ==> !p(s[i]),
    decreases s.len(),
{
    if s.len() > 0 && p(s[0]) {
        let t = s.skip(1);
        let i = lemma_first_kept(t, p);
        assert forall|j: int| 0 <= j < i + 1 implies p(s[j]) by {
            if j > 0 {
                assert(s[j] == t[j - 1]);
            }
        }
        i + 1
    } else {
        0
    }
}

/// Behind which place only characters stand that are trimmed.
proof fn lemma_last_kept(s: Seq<char>, p: spec_fn(char) -> bool) -> (i: int)
    ensures
        0 <= i <= s.len(),
        forall|j: int| i <= j < s.len() ==> p(s[j]),
        i > 0 ==> !p(s[i - 1]),
    decreases s.len(),
{
    if s.len() > 0 && p(s.last()) {
        let t = s.drop_last();
        let i = lemma_last_kept(t, p);
        assert forall|j: int| i <= j < s.len() implies p(s[j]) by {
            if j < t.len() {
                assert(s[j] == t[j]);
            }
        }
        i
    } else {
        s.len() as int
    }
}

/// Trimmed characters put at the ends of a text change nothing of what is left
/// of it.
pub proof fn law_trimming_ignores_the_ends(
    before: Seq<char>,
    s: Seq<char>,
    after: Seq<char>,
    p: spec_fn(char) -> bool,
)
    requires
        forall|i: int| 0 <= i < before.len() ==> p(before[i]),
        forall|i: int| 0 <= i < after.len() ==> p(after[i]),
    ensures
        trimmed(before + s + after, p) == trimmed(s, p),
{
    let w = before + s + after;
    let n = before.len() as int;
    let i = lemma_first_kept(s, p);
    lemma_trimmed_start(s, p, i);
    if i == s.len() {
        let t = s.skip(i);
        lemma_trimmed_end(t, p, 0);
        assert forall|j: int| 0 <= j < w.len() implies p(w[j]) by {
            if j >= n && j < n + s.len() {
                assert(w[j] == s[j - n]);
            } else if j >= n {
                assert(w[j] == after[j - n - s.len()]);
            }
        }
        lemma_trimmed_start(w, p, w.len() as int);
        lemma_trimmed_end(w.skip(w.len() as int), p, 0);
        assert(w.skip(w.len() as int).take(0) =~= t.take(0));
    } else {
        assert forall|j: int| 0 <= j < n + i implies p(w[j]) by {
            if j >= n {
                assert(w[j] == s[j - n]);
            }
        }
        assert(w[n + i] == s[i]);
        lemma_trimmed_start(w, p, n + i);
        let t = s.skip(i);
        let u = w.skip(n + i);
        let k = lemma_last_kept(t, p);
        lemma_trimmed_end(t, p, k);
        if k == 0 {
            assert(t[0] == s[i]);
        }
        assert forall|j: int| k <= j < u.len() implies p(u[j]) by {
            if j < t.len() {
                assert(u[j] == t[j]);
            } else {
                assert(u[j] == after[j - t.len()]);
            }
        }
        assert(u[k - 1] == t[k - 1]);
        lemma_trimmed_end(u, p, k);
        assert(u.take(k) =~= t.take(k));
    }
}

} // verus!

//! Filters on paths: an exact file name, or a regular expression.
use crate::path::{file_name, file_name_of, law_file_name_is_last};
use regex::Regex;
use vstd::prelude::*;
use vstd::string::*;

verus! {

// ── Regular expressions ──────────────────────────────────────────────

/// The compiled expressions of the `regex` crate.
#[verifier::external_type_specification]
#[verifier::external_body]
pub struct ExRegex(regex::Regex);

/// What `Regex::is_match` answers of a compiled expression and a text.
pub uninterp spec fn regex_finds(re: regex::Regex, text: Seq<char>) -> bool;

/// The message of the error with which `Regex::new` refuses a pattern; nothing
/// where it compiles.
pub uninterp spec fn regex_refusal(pattern: Seq<char>) -> Option<Seq<char>>;

/// Whether the expression that `Regex::new` makes of a pattern finds a match in
/// a text.
pub uninterp spec fn pattern_finds(pattern: Seq<char>, text: Seq<char>) -> bool;

/// `Regex::new` compiles a pattern, with the crate's default settings, or
/// refuses it with an error, here its message. Whether it does and what the
/// expression then finds in a text are told by the pattern alone.
#[verifier::external_body]
fn compile(pattern: &str) -> (r: Result<Regex, String>)
    ensures
        match r {
            Ok(re) => regex_refusal(pattern@) is None && (forall|text: Seq<char>| #[trigger]
                regex_finds(re, text) == pattern_finds(pattern@, text)),
            Err(message) => regex_refusal(pattern@) == Some(message@),
        },
{
    match Regex::new(pattern) {
        Ok(re) => Ok(re),
        Err(e) => Err(e.to_string()),
    }
}

/// `Regex::is_match` says whether an expression finds a match anywhere in a
/// text, which the two of them decide.
#[verifier::external_body]
fn finds(re: &Regex, text: &str) -> (r: bool)
    ensures
        r == regex_finds(*re, text@),
{
    re.is_match(text)
}

// ── Lower case ───────────────────────────────────────────────────────

/// Whether all characters of a text are ASCII.
pub open spec fn all_ascii(s: Seq<char>) -> bool {
    forall|i: int| 0 <= i < s.len() ==> 128 > (#[trigger] s[i]) as u32
}

/// The lower case of an ASCII letter; any other character as it is.
pub open spec fn lower_char(c: char) -> char {
    if 65 <= c as u32 <= 90 {
        (c as u32 + 32) as char
    } else {
        c
    }
}

/// The upper case of an ASCII letter; any other character as it is.
pub open spec fn upper_char(c: char) -> char {
    if 97 <= c as u32 <= 122 {
        (c as u32 - 32) as char
    } else {
        c
    }
}

/// A text with each ASCII letter in lower case.
pub open spec fn ascii_lower(s: Seq<char>) -> Seq<char> {
    s.map_values(|c: char| lower_char(c))
}

/// A text with each ASCII letter in upper case.
pub open spec fn ascii_upper(s: Seq<char>) -> Seq<char> {
    s.map_values(|c: char| upper_char(c))
}

/// What `str::to_lowercase` gives of a text.
pub uninterp spec fn unicode_lowercase(s: Seq<char>) -> Seq<char>;

/// A text in lower case: letter by letter where it is ASCII, and else by the
/// rules of Unicode.
pub open spec fn lowercase(s: Seq<char>) -> Seq<char> {
    if all_ascii(s) {
        ascii_lower(s)
    } else {
        unicode_lowercase(s)
    }
}

/// `str::to_lowercase` gives the lower case of a text by Unicode's rules, which
/// the text alone decides. They lower each letter of an ASCII text by itself
/// and leave its other characters as they are.
#[verifier::external_body]
fn lower(s: &str) -> (r: String)
    ensures
        r@ == if all_ascii(s@) {
            ascii_lower(s@)
        } else {
            unicode_lowercase(s@)
        },
{
    s.to_lowercase()
}

// ── Matcher ──────────────────────────────────────────────────────────

/// A filter: its pattern, whether that is a regular expression, and whether
/// case is ignored.
pub struct Filter {
    pub pattern: Seq<char>,
    pub is_regex: bool,
    pub ignore_case: bool,
}

/// The regular expression of a filter: its pattern, with a flag in front where
/// case is ignored.
pub open spec fn expression(f: Filter) -> Seq<char> {
    if f.ignore_case {
        "(?i)"@ + f.pattern
    } else {
        f.pattern
    }
}

/// Whether a path passes a filter. A path without a file name passes none. A
/// regular expression is searched for in the file name and in the whole path;
/// any other pattern is the whole file name.
pub open spec fn accepts(f: Filter, path: Seq<char>) -> bool {
    match file_name_of(path) {
        None => false,
        Some(name) => if f.is_regex {
            pattern_finds(expression(f), name) || pattern_finds(expression(f), path)
        } else if f.ignore_case {
            lowercase(name) == lowercase(f.pattern)
        } else {
            name == f.pattern
        },
    }
}

/// Whether a path passes an optional filter: all paths do where there is none.
pub open spec fn wanted(f: Option<Filter>, path: Seq<char>) -> bool {
    match f {
        Some(f) => accepts(f, path),
        None => true,
    }
}

/// A regular expression that does not compile, and why.
pub struct InvalidRegex {
    pub message: String,
}

/// Shared file-matching logic used by find, hash, diff, and watch.
pub struct Matcher {
    pattern: String,
    pattern_lower: String,
    regex: Option<Regex>,
    ignore_case: bool,
    is_regex: bool,
}

impl View for Matcher {
    type V = Filter;

    closed spec fn view(&self) -> Filter {
        Filter {
            pattern: self.pattern@,
            is_regex: self.is_regex,
            ignore_case: self.ignore_case,
        }
    }
}

impl Matcher {
    /// The expression is compiled from the pattern, and the pattern's lower case
    /// is at hand where it is needed.
    pub closed spec fn wf(&self) -> bool {
        &&& self.is_regex == self.regex is Some
        &&& self.regex matches Some(re) ==> forall|text: Seq<char>| #[trigger]
            regex_finds(re, text) == pattern_finds(expression(self@), text)
        &&& !self.is_regex && self.ignore_case ==> self.pattern_lower@ == lowercase(self.pattern@)
    }

    /// Makes a filter of a pattern; an empty one filters nothing.
    pub fn new(pattern: &str, is_regex: bool, ignore_case: bool) -> (r: Result<
        Option<Self>,
        InvalidRegex,
    >)
        ensures
            ({
                let f = Filter { pattern: pattern@, is_regex, ignore_case };
                match r {
                    Ok(None) => pattern@.len() == 0,
                    Ok(Some(m)) => {
                        &&& pattern@.len() > 0
                        &&& is_regex ==> regex_refusal(expression(f)) is None
                        &&& m.wf()
                        &&& m@ == f
                    },
                    Err(e) => {
                        &&& pattern@.len() > 0
                        &&& is_regex
                        &&& regex_refusal(expression(f)) == Some(e.message@)
                    },
                }
            }),
    {
        if pattern.is_empty() {
            return Ok(None);
        }
        let regex = if is_regex {
            let pat = if ignore_case {
                "(?i)".to_owned().concat(pattern)
            } else {
                pattern.to_owned()
            };
            match compile(pat.as_str()) {
                Ok(re) => Some(re),
                Err(message) => {
                    return Err(InvalidRegex { message });
                },
            }
        } else {
            None
        };
        let pattern_lower = if ignore_case && !is_regex {
            lower(pattern)
        } else {
            String::new()
        };
        Ok(
            Some(
                Matcher { pattern: pattern.to_owned(), pattern_lower, regex, ignore_case, is_regex },
            ),
        )
    }

    /// Makes the filter of an optional pattern.
    pub fn optional(pattern: &Option<String>, is_regex: bool, ignore_case: bool) -> (r: Result<
        Option<Self>,
        InvalidRegex,
    >)
        ensures
            ({
                let text = match *pattern {
                    Some(p) => p@,
                    None => Seq::empty(),
                };
                let f = Filter { pattern: text, is_regex, ignore_case };
                match r {
                    Ok(None) => text.len() == 0,
                    Ok(Some(m)) => {
                        &&& text.len() > 0
                        &&& is_regex ==> regex_refusal(expression(f)) is None
                        &&& m.wf()
                        &&& m@ == f
                    },
                    Err(e) => {
                        &&& text.len() > 0
                        &&& is_regex
                        &&& regex_refusal(expression(f)) == Some(e.message@)
                    },
                }
            }),
    {
        match pattern {
            Some(p) => Matcher::new(p.as_str(), is_regex, ignore_case),
            None => Ok(None),
        }
    }

    /// Whether a path passes the filter.
    pub fn matches(&self, path: &str) -> (r: bool)
        requires
            self.wf(),
        ensures
            r == accepts(self@, path@),
    {
        let name = match file_name(path) {
            Some(n) => n,
            None => {
                return false;
            },
        };
        match &self.regex {
            Some(re) => {
                let in_name = finds(re, name.as_str());
                let in_path = in_name || finds(re, path);
                found(in_name, in_path)
            },
            None => if self.ignore_case {
                same_lower(&lower(name.as_str()), &self.pattern_lower)
            } else {
                name == self.pattern
            },
        }
    }

    /// Whether a path that is at hand as text passes the filter.
    pub fn matches_str(&self, path_str: &str) -> (r: bool)
        requires
            self.wf(),
        ensures
            r == accepts(self@, path_str@),
    {
        self.matches(path_str)
    }

    /// The filter in words, for messages.
    pub fn describe(&self) -> (r: String)
        ensures
            r@ == description(self@),
    {
        if self.is_regex {
            "regex:".to_owned().concat(self.pattern.as_str())
        } else if self.ignore_case {
            self.pattern.clone().concat("  (case-insensitive)")
        } else {
            self.pattern.clone()
        }
    }
}

/// A filter in words.
pub open spec fn description(f: Filter) -> Seq<char> {
    if f.is_regex {
        "regex:"@ + f.pattern
    } else if f.ignore_case {
        f.pattern + "  (case-insensitive)"@
    } else {
        f.pattern
    }
}

/// Whether a regular expression passes a path, by what it found in the file
/// name and in the path.
pub fn found(in_name: bool, in_path: bool) -> (r: bool)
    ensures
        r == (in_name || in_path),
{
    in_name || in_path
}

/// Whether a file name and a pattern are the same, both in lower case.
pub fn same_lower(name_lower: &String, pattern_lower: &String) -> (r: bool)
    ensures
        r == (name_lower@ == pattern_lower@),
{
    *name_lower == *pattern_lower
}

/// Whether a path passes an optional filter.
pub fn wants(filter: &Option<Matcher>, path: &str) -> (r: bool)
    requires
        filter matches Some(m) ==> m.wf(),
    ensures
        r == wanted(filter_view(*filter), path@),
{
    match filter {
        Some(m) => m.matches(path),
        None => true,
    }
}

/// An optional filter, as its model.
pub open spec fn filter_view(filter: Option<Matcher>) -> Option<Filter> {
    match filter {
        Some(m) => Some(m@),
        None => None,
    }
}

/// Without a regular expression, a path passes by its file name alone.
pub proof fn law_exact_filter_reads_name(f: Filter, a: Seq<char>, b: Seq<char>)
    requires
        !f.is_regex,
        file_name_of(a) == file_name_of(b),
    ensures
        accepts(f, a) == accepts(f, b),
{
}

/// Where case is ignored, an ASCII pattern and its upper case are the same
/// filter, and whatever passes with case counted passes without.
pub proof fn law_case_is_ignored(pattern: Seq<char>, path: Seq<char>)
    requires
        all_ascii(pattern),
    ensures
        accepts(Filter { pattern, is_regex: false, ignore_case: true }, path) == accepts(
            Filter { pattern: ascii_upper(pattern), is_regex: false, ignore_case: true },
            path,
        ),
        accepts(Filter { pattern, is_regex: false, ignore_case: false }, path) ==> accepts(
            Filter { pattern, is_regex: false, ignore_case: true },
            path,
        ),
{
    let upper = ascii_upper(pattern);
    assert(all_ascii(upper));
    assert(ascii_lower(upper) =~= ascii_lower(pattern));
}

/// A regular expression, whether case is ignored or not, passes a path with a file
/// name exactly where it finds a match in the file name or in the whole path.
pub proof fn law_expression_reads_name_and_path(
    pattern: Seq<char>,
    ignore_case: bool,
    path: Seq<char>,
)
    ensures
        ({
            let f = Filter { pattern, is_regex: true, ignore_case };
            let re = if ignore_case {
                "(?i)"@ + pattern
            } else {
                pattern
            };
            match file_name_of(path) {
                Some(name) => {
                    &&& pattern_finds(re, path) ==> accepts(f, path)
                    &&& pattern_finds(re, name) ==> accepts(f, path)
                    &&& !pattern_finds(re, path) && !pattern_finds(re, name) ==> !accepts(f, path)
                },
                None => !accepts(f, path),
            }
        }),
{
}

/// A pattern that is no regular expression passes the paths whose file name it
/// is, wherever they lie, and no other; where case is ignored, those whose file
/// name has the same lower case.
pub proof fn law_exact_pattern_is_the_name(pattern: Seq<char>, dir: Seq<char>, name: Seq<char>)
    requires
        forall|i: int| 0 <= i < name.len() ==> name[i] != '/',
        name.len() > 0,
        name != seq!['.'],
        name != seq!['.', '.'],
    ensures
        ({
            let f = Filter { pattern, is_regex: false, ignore_case: false };
            let g = Filter { pattern, is_regex: false, ignore_case: true };
            let path = dir + seq!['/'] + name;
            let same_case_aside = (if all_ascii(name) {
                ascii_lower(name)
            } else {
                unicode_lowercase(name)
            }) == (if all_ascii(pattern) {
                ascii_lower(pattern)
            } else {
                unicode_lowercase(pattern)
            });
            &&& accepts(f, path) <==> name == pattern
            &&& accepts(f, name) <==> name == pattern
            &&& accepts(g, path) <==> same_case_aside
            &&& accepts(g, name) <==> same_case_aside
        }),
{
    law_file_name_is_last(dir, name);
}

/// A path without a file name passes no filter, and every path passes where there
/// is none.
pub proof fn law_no_filter_passes_all(f: Filter, path: Seq<char>)
    ensures
        wanted(None, path),
        wanted(Some(f), path) == accepts(f, path),
        file_name_of(path) is None ==> !accepts(f, path),
{
}

/// In words, a regular expression stands behind a label, and any other pattern
/// for itself, with a note where case is ignored.
pub proof fn law_filters_in_words(pattern: Seq<char>, ignore_case: bool)
    ensures
        description(Filter { pattern, is_regex: true, ignore_case }) == "regex:"@ + pattern,
        description(Filter { pattern, is_regex: false, ignore_case: false }) == pattern,
        description(Filter { pattern, is_regex: false, ignore_case: true }) == pattern
            + "  (case-insensitive)"@,
{
}

} // verus!

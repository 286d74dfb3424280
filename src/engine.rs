//! The regular-expression engine behind the matching passes.
use vstd::prelude::*;

verus! {

#[verifier::external_type_specification]
#[verifier::external_body]
pub struct ExRegex(regex::Regex);

/// Whether `pattern` is a grammar that the engine accepts.
pub uninterp spec fn compiles(pattern: Seq<char>) -> bool;

/// How the engine cuts `text` at the leftmost-first, non-overlapping matches of
/// `pattern`: the stretches between matches, and for each match its capture groups
/// (group 0 is the whole match; a group that took no part is empty).
pub uninterp spec fn scan_of(pattern: Seq<char>, text: Seq<char>) -> (
    Seq<Seq<char>>,
    Seq<Seq<Seq<char>>>,
);

/// A character that has a meaning in a regular expression.
pub open spec fn is_meta(c: char) -> bool {
    c == '\\' || c == '.' || c == '+' || c == '*' || c == '?' || c == '(' || c == ')' || c == '|'
        || c == '[' || c == ']' || c == '{' || c == '}' || c == '^' || c == '$' || c == '#'
        || c == '&' || c == '-' || c == '~'
}

/// A literal with a backslash before each meta character.
pub open spec fn escape_spec(s: Seq<char>) -> Seq<char>
    decreases s.len(),
{
    if s.len() == 0 {
        s
    } else {
        let c = s.last();
        escape_spec(s.drop_last()) + if is_meta(c) { seq!['\\', c] } else { seq![c] }
    }
}

/// What `str::to_lowercase` makes of a string.
pub uninterp spec fn lower_of(s: Seq<char>) -> Seq<char>;

/// A character with the Unicode White_Space property.
pub open spec fn is_white_space(c: char) -> bool {
    let v = c as u32;
    (9 <= v && v <= 13) || v == 32 || v == 0x85 || v == 0xA0 || v == 0x1680 || (0x2000 <= v && v
        <= 0x200A) || v == 0x2028 || v == 0x2029 || v == 0x202F || v == 0x205F || v == 0x3000
}

/// A string without its leading white space.
pub open spec fn trim_start_spec(s: Seq<char>) -> Seq<char>
    decreases s.len(),
{
    if s.len() > 0 && is_white_space(s[0]) { trim_start_spec(s.skip(1)) } else { s }
}

/// A string without its trailing white space.
pub open spec fn trim_end_spec(s: Seq<char>) -> Seq<char>
    decreases s.len(),
{
    if s.len() > 0 && is_white_space(s.last()) { trim_end_spec(s.drop_last()) } else { s }
}

/// A string without its leading and trailing white space.
pub open spec fn trim_spec(s: Seq<char>) -> Seq<char> {
    trim_end_spec(trim_start_spec(s))
}

/// `gaps[0] + mids[0] + gaps[1] + ... + mids[n-1] + gaps[n]`.
pub open spec fn interleave(gaps: Seq<Seq<char>>, mids: Seq<Seq<char>>) -> Seq<char>
    decreases mids.len(),
{
    if mids.len() == 0 || gaps.len() == 0 {
        if gaps.len() == 0 { Seq::empty() } else { gaps[0] }
    } else {
        interleave(gaps.drop_last(), mids.drop_last()) + mids.last() + gaps.last()
    }
}

pub open spec fn strs_view(v: Seq<String>) -> Seq<Seq<char>> {
    v.map_values(|s: String| s@)
}

/// The pieces of a text cut at the matches of a grammar.
pub struct Scan {
    /// The stretches of text between matches; one more than there are matches.
    pub gaps: Vec<String>,
    /// The capture groups of each match, group 0 first.
    pub groups: Vec<Vec<String>>,
}

impl View for Scan {
    type V = (Seq<Seq<char>>, Seq<Seq<Seq<char>>>);

    open spec fn view(&self) -> (Seq<Seq<char>>, Seq<Seq<Seq<char>>>) {
        (strs_view(self.gaps@), self.groups@.map_values(|g: Vec<String>| strs_view(g@)))
    }
}

/// The cuts that a scan must have: one gap more than matches, every match with
/// its whole text as group 0, and the pieces putting the text back together.
pub open spec fn scan_fits(s: (Seq<Seq<char>>, Seq<Seq<Seq<char>>>), text: Seq<char>) -> bool {
    &&& s.0.len() == s.1.len() + 1
    &&& forall|i: int| 0 <= i < s.1.len() ==> #[trigger] s.1[i].len() >= 1
    &&& interleave(s.0, s.1.map_values(|g: Seq<Seq<char>>| g[0])) == text
}

/// A compiled grammar together with the pattern it was compiled from.
pub struct Grammar {
    regex: regex::Regex,
    source: String,
}

impl Grammar {
    pub closed spec fn source(&self) -> Seq<char> {
        self.source@
    }

    /// Compiles `pattern`; the error carries the engine's message.
    pub fn new(pattern: &str) -> (r: Result<Grammar, String>)
        ensures
            r is Ok <==> compiles(pattern@),
            r matches Ok(g) ==> g.source() == pattern@,
    {
        match compile(pattern) {
            Ok(regex) => Ok(Grammar { regex, source: String::from_str(pattern) }),
            Err(e) => Err(e),
        }
    }

    /// Cuts `text` at the matches of this grammar.
    ///
    /// Relies on `regex::Regex::split` and `regex::Regex::captures_iter`: both walk
    /// the same leftmost-first matches; `split` yields the text between them (one
    /// piece more than matches), `captures_iter` the groups of each. The regex was
    /// compiled from `source` by `new`.
    #[verifier::external_body]
    pub(crate) fn scan(&self, text: &str) -> (r: Scan)
        ensures
            r@ == scan_of(self.source(), text@),
            scan_fits(r@, text@),
    {
        let gaps = self.regex.split(text).map(|s| s.to_string()).collect();
        let groups = self.regex.captures_iter(text).map(|c| {
            c.iter().map(|m| m.map_or(String::new(), |m| m.as_str().to_string())).collect()
        }).collect();
        Scan { gaps, groups }
    }
}

/// Relies on `regex::Regex::new`: it compiles the pattern or reports why not, by
/// the pattern alone.
#[verifier::external_body]
fn compile(pattern: &str) -> (r: Result<regex::Regex, String>)
    ensures
        r is Ok <==> compiles(pattern@),
{
    regex::Regex::new(pattern).map_err(|e| e.to_string())
}

/// Relies on `regex::escape` (`regex_syntax::escape_into`): each character of the
/// literal in order, with a backslash before each one that `is_meta_character` names.
#[verifier::external_body]
pub(crate) fn escape_literal(s: &str) -> (r: String)
    ensures
        r@ == escape_spec(s@),
{
    regex::escape(s)
}

/// Relies on `str::to_lowercase`: the result depends on the characters alone.
#[verifier::external_body]
pub(crate) fn lowercase(s: &str) -> (r: String)
    ensures
        r@ == lower_of(s@),
{
    s.to_lowercase()
}

/// Relies on `str::trim`: the string without leading and trailing characters of
/// the Unicode White_Space property.
#[verifier::external_body]
pub(crate) fn trim(s: &str) -> (r: &str)
    ensures
        r@ == trim_spec(s@),
{
    s.trim()
}

} // verus!

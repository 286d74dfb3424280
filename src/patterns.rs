//! The matching passes: each cuts the text at the matches of its grammar and
//! replaces every match by the placeholder that its category's table holds for it.
//! Text is carried as pieces marked original or placeholder; a pass only reads
//! original pieces, so no grammar ever matches inside a placeholder.
use vstd::prelude::*;
use crate::engine::{Grammar, Scan, scan_of, strs_view, compiles, lower_of, lowercase, escape_spec,
    escape_literal, trim_spec, trim};
use crate::error::PatternError;
use crate::mapping::{Entry, Mapping, lookup, keys_unique, lemma_lookup_push, lemma_lookup_some};
use crate::text::{dec, decimal};

verus! {

/// `@` mention: a lowercase handle of up to 21 characters, or two capitalised
/// words, with the character before it captured too. What follows the mention is
/// not consumed (so that a mention right after it can use it as its own
/// preceding character); the pass checks it instead.
pub const USER_PATTERN: &'static str =
    "(^|[^a-zA-Z0-9._%+-])@([a-z0-9._-]{1,21}|[A-Z][a-zA-Z]+\\s+[A-Z][a-zA-Z]+)";

/// `#` followed by a channel name.
pub const CHANNEL_PATTERN: &'static str = "#[a-zA-Z0-9._-]+";

/// An e-mail address with a dotted domain.
pub const EMAIL_PATTERN: &'static str = "[a-zA-Z0-9._%+-]+@[a-zA-Z0-9.-]+\\.[a-zA-Z]{2,}";

/// An http or https address up to the next whitespace.
pub const URL_PATTERN: &'static str = "https?://[^\\s]+";

/// Exactly two capitalised words.
pub const DISPLAY_NAME_PATTERN: &'static str = "\\b[A-Z][a-zA-Z]+\\s+[A-Z][a-zA-Z]+\\b";

/// The kinds of sensitive token, one table each.
#[derive(Clone, Copy, PartialEq, Eq, Structural)]
pub enum Category {
    User,
    DisplayName,
    Channel,
    Email,
    Url,
    Keyword,
}

/// Capture group `k` of a match, empty where there is none.
pub open spec fn group(gs: Seq<Seq<char>>, k: int) -> Seq<char> {
    if 0 <= k < gs.len() { gs[k] } else { Seq::empty() }
}

pub open spec fn ends_with_period(s: Seq<char>) -> bool {
    s.len() > 0 && s.last() == '.'
}

/// A handle without one trailing period.
pub open spec fn strip_period(s: Seq<char>) -> Seq<char> {
    if ends_with_period(s) { s.drop_last() } else { s }
}

/// A mention whose handle ended a sentence: the period goes back after the
/// placeholder unless the key keeps one of its own.
pub open spec fn keeps_period(gs: Seq<Seq<char>>) -> bool {
    ends_with_period(group(gs, 2)) && !ends_with_period(strip_period(group(gs, 2)))
}

/// The table key of a match.
pub open spec fn key_of(c: Category, gs: Seq<Seq<char>>) -> Seq<char> {
    match c {
        Category::User => seq!['@'] + strip_period(group(gs, 2)),
        Category::Keyword => lower_of(group(gs, 0)),
        _ => group(gs, 0),
    }
}

/// The text after the first `://`, if there is one.
pub open spec fn after_scheme(u: Seq<char>) -> Option<Seq<char>>
    decreases u.len(),
{
    if u.len() < 3 {
        None
    } else if u[0] == ':' && u[1] == '/' && u[2] == '/' {
        Some(u.skip(3))
    } else {
        after_scheme(u.skip(1))
    }
}

/// The text from the first `/` on, or nothing.
pub open spec fn from_slash(s: Seq<char>) -> Seq<char>
    decreases s.len(),
{
    if s.len() == 0 {
        s
    } else if s[0] == '/' {
        s
    } else {
        from_slash(s.skip(1))
    }
}

/// The path of an address: from the first `/` after the scheme separator on.
pub open spec fn url_path(u: Seq<char>) -> Seq<char> {
    match after_scheme(u) {
        Some(rest) => from_slash(rest),
        None => Seq::empty(),
    }
}

/// The placeholder numbered `n` for a match of category `c`.
pub open spec fn fresh(c: Category, n: nat, gs: Seq<Seq<char>>) -> Seq<char> {
    match c {
        Category::User => "@user"@ + dec(n),
        Category::DisplayName => "name"@ + dec(n),
        Category::Channel => "#ch"@ + dec(n),
        Category::Email => "user"@ + dec(n) + "@domain"@ + dec(n) + ".com"@,
        Category::Url => "https://example"@ + dec(n) + ".com"@ + url_path(group(gs, 0)),
        Category::Keyword => "keyword"@ + dec(n),
    }
}

/// A piece of rewritten text: its characters, and whether it is a placeholder,
/// which later passes leave alone.
pub type Piece = (Seq<char>, bool);

/// The characters of all pieces, in order.
pub open spec fn flat(ps: Seq<Piece>) -> Seq<char>
    decreases ps.len(),
{
    if ps.len() == 0 {
        Seq::empty()
    } else {
        flat(ps.drop_last()) + ps.last().0
    }
}

pub open spec fn pieces_view(v: Seq<(String, bool)>) -> Seq<Piece> {
    v.map_values(|p: (String, bool)| (p.0@, p.1))
}

/// A character that may continue a handle: an ASCII letter or digit, `.`, `_` or `-`.
pub open spec fn ident_char(ch: char) -> bool {
    let v = ch as u32;
    (97 <= v && v <= 122) || (65 <= v && v <= 90) || (48 <= v && v <= 57) || v == 46 || v == 95
        || v == 45
}

/// The first character of the text from gap `j` on, if any.
pub open spec fn next_char(gaps: Seq<Seq<char>>, ms: Seq<Seq<Seq<char>>>, j: int) -> Option<char>
    decreases gaps.len() - j,
{
    if j < 0 || j >= gaps.len() {
        None
    } else if gaps[j].len() > 0 {
        Some(gaps[j][0])
    } else if j < ms.len() && group(ms[j], 0).len() > 0 {
        Some(group(ms[j], 0)[0])
    } else {
        next_char(gaps, ms, j + 1)
    }
}

/// Whether a match followed by `nxt` is replaced: a mention must be followed by a
/// character that cannot continue a handle, or by the end of the text.
pub open spec fn replaced(c: Category, nxt: Option<char>) -> bool {
    match c {
        Category::User => match nxt {
            None => true,
            Some(ch) => !ident_char(ch),
        },
        _ => true,
    }
}

/// What replaces a match whose placeholder is `ph`.
pub open spec fn render(c: Category, gs: Seq<Seq<char>>, ph: Seq<char>) -> Seq<Piece> {
    match c {
        Category::User => seq![(group(gs, 1), false), (ph, true)] + (if keeps_period(gs) {
            seq![("."@, false)]
        } else {
            Seq::empty()
        }),
        _ => seq![(ph, true)],
    }
}

/// One match followed by `nxt`: left as it is if it is not replaced; else the
/// stored placeholder, or a new one numbered after the table's size.
pub open spec fn step(c: Category, es: Seq<Entry>, gs: Seq<Seq<char>>, nxt: Option<char>) -> (
    Seq<Entry>,
    Seq<Piece>,
) {
    if !replaced(c, nxt) {
        (es, seq![(group(gs, 0), false)])
    } else {
        let k = key_of(c, gs);
        match lookup(es, k) {
            Some(v) => (es, render(c, gs, v)),
            None => {
                let v = fresh(c, (es.len() + 1) as nat, gs);
                (es.push((k, v)), render(c, gs, v))
            },
        }
    }
}

/// The table and the pieces written after the first `i` matches.
pub open spec fn fold(
    c: Category,
    es: Seq<Entry>,
    gaps: Seq<Seq<char>>,
    ms: Seq<Seq<Seq<char>>>,
    i: nat,
) -> (Seq<Entry>, Seq<Piece>)
    decreases i,
{
    if i == 0 {
        (es, Seq::empty())
    } else {
        let prev = fold(c, es, gaps, ms, (i - 1) as nat);
        let s = step(c, prev.0, ms[i - 1], next_char(gaps, ms, i as int));
        (s.0, prev.1.push((gaps[i - 1], false)) + s.1)
    }
}

/// The table and the pieces after one pass over a cut text.
pub open spec fn pass(c: Category, es: Seq<Entry>, s: (Seq<Seq<char>>, Seq<Seq<Seq<char>>>)) -> (
    Seq<Entry>,
    Seq<Piece>,
) {
    let f = fold(c, es, s.0, s.1, s.1.len());
    (f.0, f.1.push((s.0[s.1.len() as int], false)))
}

/// The table and the text after one pass over a whole text.
pub open spec fn pass_text(c: Category, es: Seq<Entry>, pattern: Seq<char>, text: Seq<char>) -> (
    Seq<Entry>,
    Seq<char>,
) {
    let p = pass(c, es, scan_of(pattern, text));
    (p.0, flat(p.1))
}

/// One pass over the first `i` pieces: each original piece is cut and rewritten
/// on its own, placeholders pass through unchanged.
pub open spec fn pass_pieces(c: Category, pattern: Seq<char>, es: Seq<Entry>, segs: Seq<Piece>, i: nat) -> (
    Seq<Entry>,
    Seq<Piece>,
)
    decreases i,
{
    if i == 0 {
        (es, Seq::empty())
    } else {
        let prev = pass_pieces(c, pattern, es, segs, (i - 1) as nat);
        let seg = segs[i - 1];
        if seg.1 {
            (prev.0, prev.1.push(seg))
        } else {
            let r = pass(c, prev.0, scan_of(pattern, seg.0));
            (r.0, prev.1 + r.1)
        }
    }
}

/// One pass over a text in pieces.
pub open spec fn pass_over(c: Category, pattern: Seq<char>, es: Seq<Entry>, segs: Seq<Piece>) -> (
    Seq<Entry>,
    Seq<Piece>,
) {
    pass_pieces(c, pattern, es, segs, segs.len() as nat)
}

fn group_at(gs: &Vec<String>, k: usize) -> (r: String)
    ensures
        r@ == group(strs_view(gs@), k as int),
{
    if k < gs.len() {
        gs[k].clone()
    } else {
        String::new()
    }
}

fn ends_with_period_exec(s: &str) -> (r: bool)
    ensures
        r == ends_with_period(s@),
{
    let n = s.unicode_len();
    n > 0 && s.get_char(n - 1) == '.'
}

fn strip_period_exec(s: &str) -> (r: &str)
    ensures
        r@ == strip_period(s@),
{
    let n = s.unicode_len();
    if n > 0 && s.get_char(n - 1) == '.' {
        let r = s.substring_char(0, n - 1);
        proof {
            assert(r@ =~= s@.drop_last());
        }
        r
    } else {
        s
    }
}

/// The path of an address: from the first `/` after `://` on, or nothing.
pub fn url_path_of(u: &str) -> (r: &str)
    ensures
        r@ == url_path(u@),
{
    let n = u.unicode_len();
    let mut i: usize = 0;
    proof {
        assert(u@.skip(0) =~= u@);
    }
    while n >= 3 && i <= n - 3
        invariant
            n == u@.len(),
            i <= n,
            after_scheme(u@) == after_scheme(u@.skip(i as int)),
        decreases n - i,
    {
        if u.get_char(i) == ':' && u.get_char(i + 1) == '/' && u.get_char(i + 2) == '/' {
            let mut j: usize = i + 3;
            proof {
                assert(u@.skip(i as int).skip(3) =~= u@.skip(j as int));
            }
            while j < n
                invariant
                    n == u@.len(),
                    i + 3 <= j <= n,
                    url_path(u@) == from_slash(u@.skip(j as int)),
                decreases n - j,
            {
                if u.get_char(j) == '/' {
                    return u.substring_char(j, n);
                }
                proof {
                    assert(u@.skip(j as int).skip(1) =~= u@.skip(j + 1));
                }
                j = j + 1;
            }
            return u.substring_char(n, n);
        }
        proof {
            assert(u@.skip(i as int).skip(1) =~= u@.skip(i + 1));
        }
        i = i + 1;
    }
    u.substring_char(n, n)
}

fn keeps_period_exec(gs: &Vec<String>) -> (r: bool)
    ensures
        r == keeps_period(strs_view(gs@)),
{
    let g2 = group_at(gs, 2);
    ends_with_period_exec(g2.as_str()) && !ends_with_period_exec(strip_period_exec(g2.as_str()))
}

fn key_for(c: Category, gs: &Vec<String>) -> (r: String)
    ensures
        r@ == key_of(c, strs_view(gs@)),
{
    match c {
        Category::User => {
            proof {
                reveal_strlit("@");
            }
            let g2 = group_at(gs, 2);
            let mut s = String::from_str("@");
            s.append(strip_period_exec(g2.as_str()));
            s
        },
        Category::Keyword => {
            let g0 = group_at(gs, 0);
            lowercase(g0.as_str())
        },
        _ => group_at(gs, 0),
    }
}

fn numbered(prefix: &str, d: &String) -> (r: String)
    ensures
        r@ == prefix@ + d@,
{
    let mut s = String::from_str(prefix);
    s.append(d.as_str());
    s
}

fn fresh_placeholder(c: Category, n: u128, gs: &Vec<String>) -> (r: String)
    ensures
        r@ == fresh(c, n as nat, strs_view(gs@)),
{
    let d = decimal(n);
    match c {
        Category::User => numbered("@user", &d),
        Category::DisplayName => numbered("name", &d),
        Category::Channel => numbered("#ch", &d),
        Category::Email => {
            let mut s = numbered("user", &d);
            s.append("@domain");
            s.append(d.as_str());
            s.append(".com");
            s
        },
        Category::Url => {
            let g0 = group_at(gs, 0);
            let mut s = numbered("https://example", &d);
            s.append(".com");
            s.append(url_path_of(g0.as_str()));
            s
        },
        Category::Keyword => numbered("keyword", &d),
    }
}

fn ident_char_exec(ch: char) -> (r: bool)
    ensures
        r == ident_char(ch),
{
    let v = ch as u32;
    (97 <= v && v <= 122) || (65 <= v && v <= 90) || (48 <= v && v <= 57) || v == 46 || v == 95
        || v == 45
}

fn next_char_exec(scan: &Scan, j: usize) -> (r: Option<char>)
    requires
        scan@.0.len() == scan@.1.len() + 1,
    ensures
        r == next_char(scan@.0, scan@.1, j as int),
{
    let mut k: usize = j;
    while k < scan.gaps.len()
        invariant
            scan@.0.len() == scan@.1.len() + 1,
            j <= k,
            next_char(scan@.0, scan@.1, j as int) == next_char(scan@.0, scan@.1, k as int),
        decreases scan@.0.len() - k,
    {
        let gap = scan.gaps[k].as_str();
        if gap.unicode_len() > 0 {
            return Some(gap.get_char(0));
        }
        if k < scan.groups.len() {
            assert(strs_view(scan.groups@[k as int]@) == scan@.1[k as int]);
            let g0 = group_at(&scan.groups[k], 0);
            if g0.as_str().unicode_len() > 0 {
                return Some(g0.as_str().get_char(0));
            }
        }
        k = k + 1;
    }
    None
}

fn replaced_exec(c: Category, nxt: Option<char>) -> (r: bool)
    ensures
        r == replaced(c, nxt),
{
    match c {
        Category::User => match nxt {
            None => true,
            Some(ch) => !ident_char_exec(ch),
        },
        _ => true,
    }
}

fn render_exec(c: Category, gs: &Vec<String>, ph: &String) -> (r: Vec<(String, bool)>)
    ensures
        pieces_view(r@) == render(c, strs_view(gs@), ph@),
{
    match c {
        Category::User => {
            let mut v: Vec<(String, bool)> = Vec::new();
            v.push((group_at(gs, 1), false));
            v.push((ph.clone(), true));
            if keeps_period_exec(gs) {
                proof {
                    reveal_strlit(".");
                }
                v.push((String::from_str("."), false));
            }
            proof {
                assert(pieces_view(v@) =~= render(c, strs_view(gs@), ph@));
            }
            v
        },
        _ => {
            let v = vec![(ph.clone(), true)];
            proof {
                assert(pieces_view(v@) =~= render(c, strs_view(gs@), ph@));
            }
            v
        },
    }
}

proof fn lemma_pieces_view_concat(a: Seq<(String, bool)>, b: Seq<(String, bool)>)
    ensures
        pieces_view(a + b) == pieces_view(a) + pieces_view(b),
{
    assert(pieces_view(a + b) =~= pieces_view(a) + pieces_view(b));
}

/// Rewrites a cut text: each match that is replaced becomes its placeholder in
/// `map` (a numbered new one for a key that `map` lacks); the rest stays original.
pub fn substitute(c: Category, scan: &Scan, map: &mut Mapping) -> (r: Vec<(String, bool)>)
    requires
        old(map).wf(),
        scan@.0.len() == scan@.1.len() + 1,
    ensures
        final(map).wf(),
        (final(map)@, pieces_view(r@)) == pass(c, old(map)@, scan@),
{
    let mut out: Vec<(String, bool)> = Vec::new();
    let mut i: usize = 0;
    proof {
        assert(pieces_view(out@) =~= Seq::<Piece>::empty());
    }
    while i < scan.groups.len()
        invariant
            map.wf(),
            scan@.0.len() == scan@.1.len() + 1,
            i <= scan@.1.len(),
            (map@, pieces_view(out@)) == fold(c, old(map)@, scan@.0, scan@.1, i as nat),
        decreases scan@.1.len() - i,
    {
        let gs = &scan.groups[i];
        assert(strs_view(gs@) == scan@.1[i as int]);
        let nxt = next_char_exec(scan, i + 1);
        let ghost before = out@;
        out.push((scan.gaps[i].clone(), false));
        proof {
            assert(pieces_view(out@) =~= pieces_view(before).push((scan@.0[i as int], false)));
        }
        let ghost mid = out@;
        let mut piece: Vec<(String, bool)>;
        if !replaced_exec(c, nxt) {
            piece = vec![(group_at(gs, 0), false)];
            proof {
                assert(pieces_view(piece@) =~= seq![(group(scan@.1[i as int], 0), false)]);
            }
        } else {
            let key = key_for(c, gs);
            let ph: String = match map.get(key.as_str()) {
                Some(v) => v.clone(),
                None => {
                    let v = fresh_placeholder(c, map.len() as u128 + 1, gs);
                    map.push_new(key, v.clone());
                    v
                },
            };
            piece = render_exec(c, gs, &ph);
        }
        let ghost pv = piece@;
        out.append(&mut piece);
        proof {
            lemma_pieces_view_concat(mid, pv);
        }
        i = i + 1;
    }
    let ghost before = out@;
    out.push((scan.gaps[i].clone(), false));
    proof {
        assert(pieces_view(out@) =~= pieces_view(before).push((scan@.0[i as int], false)));
    }
    out
}

/// The characters of all pieces, in order.
pub fn flatten(ps: &Vec<(String, bool)>) -> (r: String)
    ensures
        r@ == flat(pieces_view(ps@)),
{
    let mut s = String::new();
    let mut i: usize = 0;
    proof {
        assert(pieces_view(ps@).subrange(0, 0) =~= Seq::<Piece>::empty());
    }
    while i < ps.len()
        invariant
            i <= ps@.len(),
            s@ == flat(pieces_view(ps@).subrange(0, i as int)),
        decreases ps@.len() - i,
    {
        s.append(ps[i].0.as_str());
        proof {
            let pre = pieces_view(ps@).subrange(0, i + 1);
            assert(pre.drop_last() =~= pieces_view(ps@).subrange(0, i as int));
        }
        i = i + 1;
    }
    proof {
        assert(pieces_view(ps@).subrange(0, ps@.len() as int) =~= pieces_view(ps@));
    }
    s
}

/// Runs a compiled grammar's pass over a text in pieces.
fn pass_segments(c: Category, g: &Grammar, segs: &Vec<(String, bool)>, map: &mut Mapping) -> (r: Vec<
    (String, bool),
>)
    requires
        old(map).wf(),
    ensures
        final(map).wf(),
        (final(map)@, pieces_view(r@)) == pass_over(c, g.source(), old(map)@, pieces_view(segs@)),
{
    let ghost sv = pieces_view(segs@);
    let mut out: Vec<(String, bool)> = Vec::new();
    let mut i: usize = 0;
    proof {
        assert(pieces_view(out@) =~= Seq::<Piece>::empty());
    }
    while i < segs.len()
        invariant
            map.wf(),
            sv == pieces_view(segs@),
            i <= segs@.len(),
            (map@, pieces_view(out@)) == pass_pieces(c, g.source(), old(map)@, sv, i as nat),
        decreases segs@.len() - i,
    {
        let ghost before = out@;
        if segs[i].1 {
            out.push((segs[i].0.clone(), true));
            proof {
                assert(pieces_view(out@) =~= pieces_view(before).push(sv[i as int]));
            }
        } else {
            let scan = g.scan(segs[i].0.as_str());
            let mut rs = substitute(c, &scan, map);
            let ghost rv = rs@;
            out.append(&mut rs);
            proof {
                lemma_pieces_view_concat(before, rv);
            }
        }
        i = i + 1;
    }
    out
}

/// The table keeps every entry it had, in place; new ones come after.
pub open spec fn extends(old_es: Seq<Entry>, new_es: Seq<Entry>) -> bool {
    old_es.len() <= new_es.len() && new_es.subrange(0, old_es.len() as int) == old_es
}

fn run_pass(c: Category, pattern: &str, text: &str, map: &mut Mapping) -> (r: Result<String, PatternError>)
    requires
        old(map).wf(),
    ensures
        final(map).wf(),
        r is Ok <==> compiles(pattern@),
        match r {
            Ok(out) => (final(map)@, out@) == pass_text(c, old(map)@, pattern@, text@),
            Err(_) => final(map)@ == old(map)@,
        },
{
    match Grammar::new(pattern) {
        Ok(g) => {
            let scan = g.scan(text);
            let ps = substitute(c, &scan, map);
            Ok(flatten(&ps))
        },
        Err(msg) => Err(PatternError::InvalidRegex(msg)),
    }
}

/// Runs the pass of `pattern` over a text in pieces.
pub fn run_pieces(c: Category, pattern: &str, segs: &Vec<(String, bool)>, map: &mut Mapping) -> (r:
    Result<Vec<(String, bool)>, PatternError>)
    requires
        old(map).wf(),
    ensures
        final(map).wf(),
        r is Ok <==> compiles(pattern@),
        match r {
            Ok(ps) => (final(map)@, pieces_view(ps@)) == pass_over(c, pattern@, old(map)@, pieces_view(segs@)),
            Err(_) => final(map)@ == old(map)@,
        },
{
    match Grammar::new(pattern) {
        Ok(g) => Ok(pass_segments(c, &g, segs, map)),
        Err(msg) => Err(PatternError::InvalidRegex(msg)),
    }
}

/// Replaces `@` mentions by `@user<N>`; a handle's trailing period stays in the text, not in the key.
pub fn anonymize_users(text: &str, map: &mut Mapping) -> (r: Result<String, PatternError>)
    requires
        old(map).wf(),
    ensures
        final(map).wf(),
        r is Ok <==> compiles(USER_PATTERN@),
        match r {
            Ok(out) => (final(map)@, out@) == pass_text(Category::User, old(map)@, USER_PATTERN@, text@),
            Err(_) => final(map)@ == old(map)@,
        },
{
    run_pass(Category::User, USER_PATTERN, text, map)
}

/// Replaces two-word capitalised names by `name<N>`.
pub fn anonymize_display_names(text: &str, map: &mut Mapping) -> (r: Result<String, PatternError>)
    requires
        old(map).wf(),
    ensures
        final(map).wf(),
        r is Ok <==> compiles(DISPLAY_NAME_PATTERN@),
        match r {
            Ok(out) => (final(map)@, out@) == pass_text(Category::DisplayName, old(map)@, DISPLAY_NAME_PATTERN@, text@),
            Err(_) => final(map)@ == old(map)@,
        },
{
    run_pass(Category::DisplayName, DISPLAY_NAME_PATTERN, text, map)
}

/// Replaces `#channel` references by `#ch<N>`.
pub fn anonymize_channels(text: &str, map: &mut Mapping) -> (r: Result<String, PatternError>)
    requires
        old(map).wf(),
    ensures
        final(map).wf(),
        r is Ok <==> compiles(CHANNEL_PATTERN@),
        match r {
            Ok(out) => (final(map)@, out@) == pass_text(Category::Channel, old(map)@, CHANNEL_PATTERN@, text@),
            Err(_) => final(map)@ == old(map)@,
        },
{
    run_pass(Category::Channel, CHANNEL_PATTERN, text, map)
}

/// Replaces e-mail addresses by `user<N>@domain<N>.com`.
pub fn anonymize_emails(text: &str, map: &mut Mapping) -> (r: Result<String, PatternError>)
    requires
        old(map).wf(),
    ensures
        final(map).wf(),
        r is Ok <==> compiles(EMAIL_PATTERN@),
        match r {
            Ok(out) => (final(map)@, out@) == pass_text(Category::Email, old(map)@, EMAIL_PATTERN@, text@),
            Err(_) => final(map)@ == old(map)@,
        },
{
    run_pass(Category::Email, EMAIL_PATTERN, text, map)
}

/// Replaces http(s) addresses by `https://example<N>.com`, keeping the path.
pub fn anonymize_urls(text: &str, map: &mut Mapping) -> (r: Result<String, PatternError>)
    requires
        old(map).wf(),
    ensures
        final(map).wf(),
        r is Ok <==> compiles(URL_PATTERN@),
        match r {
            Ok(out) => (final(map)@, out@) == pass_text(Category::Url, old(map)@, URL_PATTERN@, text@),
            Err(_) => final(map)@ == old(map)@,
        },
{
    run_pass(Category::Url, URL_PATTERN, text, map)
}

/// The grammar for a keyword: the literal as a whole word, in any case.
pub open spec fn keyword_pattern(k: Seq<char>) -> Seq<char> {
    "(?i)\\b"@ + escape_spec(k) + "\\b"@
}

/// A keyword that is empty or all whitespace, which is skipped.
pub open spec fn blank(k: Seq<char>) -> bool {
    trim_spec(k).len() == 0
}

/// Every keyword that is not skipped gives a grammar that compiles.
pub open spec fn keywords_compile(kws: Seq<Seq<char>>) -> bool {
    forall|j: int| 0 <= j < kws.len() ==> blank(#[trigger] kws[j]) || compiles(keyword_pattern(kws[j]))
}

/// The table and the pieces after the keyword passes for the first `j` keywords,
/// each over all the pieces that the ones before it left.
pub open spec fn keyword_passes(es: Seq<Entry>, segs: Seq<Piece>, kws: Seq<Seq<char>>, j: nat) -> (
    Seq<Entry>,
    Seq<Piece>,
)
    decreases j,
{
    if j == 0 {
        (es, segs)
    } else {
        let prev = keyword_passes(es, segs, kws, (j - 1) as nat);
        let k = kws[j - 1];
        if blank(k) {
            prev
        } else {
            pass_over(Category::Keyword, keyword_pattern(k), prev.0, prev.1)
        }
    }
}

fn keyword_grammar(k: &str) -> (r: String)
    ensures
        r@ == keyword_pattern(k@),
{
    let mut p = String::from_str("(?i)\\b");
    let e = escape_literal(k);
    p.append(e.as_str());
    p.append("\\b");
    p
}

/// The keyword passes over a text in pieces. Every keyword's grammar is compiled
/// before any replacement, so on failure the table is left as it was.
pub fn anonymize_keyword_pieces(segs: Vec<(String, bool)>, keywords: &Vec<String>, map: &mut Mapping) -> (r:
    Result<Vec<(String, bool)>, PatternError>)
    requires
        old(map).wf(),
    ensures
        final(map).wf(),
        r is Ok <==> keywords_compile(strs_view(keywords@)),
        match r {
            Ok(ps) => (final(map)@, pieces_view(ps@)) == keyword_passes(
                old(map)@,
                pieces_view(segs@),
                strs_view(keywords@),
                keywords@.len() as nat,
            ),
            Err(_) => final(map)@ == old(map)@,
        },
{
    let ghost kws = strs_view(keywords@);
    let mut grammars: Vec<Option<Grammar>> = Vec::new();
    let mut j: usize = 0;
    while j < keywords.len()
        invariant
            kws == strs_view(keywords@),
            map.wf(),
            map@ == old(map)@,
            j <= keywords@.len(),
            grammars@.len() == j,
            forall|i: int| 0 <= i < j ==> blank(#[trigger] kws[i]) || compiles(keyword_pattern(kws[i])),
            forall|i: int| 0 <= i < j ==> match #[trigger] grammars@[i] {
                None => blank(kws[i]),
                Some(g) => !blank(kws[i]) && g.source() == keyword_pattern(kws[i]),
            },
        decreases keywords@.len() - j,
    {
        let k = keywords[j].as_str();
        assert(k@ == kws[j as int]);
        let t = trim(k);
        if t.unicode_len() != 0 {
            let pattern = keyword_grammar(k);
            match Grammar::new(pattern.as_str()) {
                Ok(g) => {
                    grammars.push(Some(g));
                },
                Err(msg) => {
                    return Err(PatternError::InvalidRegex(msg));
                },
            }
        } else {
            grammars.push(None);
        }
        j = j + 1;
    }
    let mut cur = segs;
    let mut j: usize = 0;
    while j < grammars.len()
        invariant
            map.wf(),
            kws == strs_view(keywords@),
            grammars@.len() == keywords@.len(),
            j <= grammars@.len(),
            forall|i: int| 0 <= i < grammars@.len() ==> match #[trigger] grammars@[i] {
                None => blank(kws[i]),
                Some(g) => !blank(kws[i]) && g.source() == keyword_pattern(kws[i]),
            },
            (map@, pieces_view(cur@)) == keyword_passes(old(map)@, pieces_view(segs@), kws, j as nat),
        decreases grammars@.len() - j,
    {
        assert(match grammars@[j as int] {
            None => blank(kws[j as int]),
            Some(g) => !blank(kws[j as int]) && g.source() == keyword_pattern(kws[j as int]),
        });
        match &grammars[j] {
            Some(g) => {
                cur = pass_segments(Category::Keyword, g, &cur, map);
            },
            None => {},
        }
        j = j + 1;
    }
    Ok(cur)
}

/// Replaces each keyword, in list order and as a whole word in any case, by
/// `keyword<N>`; casings of one keyword share one entry. Blank keywords are
/// skipped. A later keyword never matches inside a placeholder that an earlier
/// one wrote.
pub fn anonymize_keywords(text: &str, keywords: &Vec<String>, map: &mut Mapping) -> (r: Result<
    String,
    PatternError,
>)
    requires
        old(map).wf(),
    ensures
        final(map).wf(),
        r is Ok <==> keywords_compile(strs_view(keywords@)),
        match r {
            Ok(out) => {
                let kp = keyword_passes(
                    old(map)@,
                    seq![(text@, false)],
                    strs_view(keywords@),
                    keywords@.len() as nat,
                );
                final(map)@ == kp.0 && out@ == flat(kp.1)
            },
            Err(_) => final(map)@ == old(map)@,
        },
{
    let segs = vec![(String::from_str(text), false)];
    proof {
        assert(pieces_view(segs@) =~= seq![(text@, false)]);
    }
    match anonymize_keyword_pieces(segs, keywords, map) {
        Ok(ps) => Ok(flatten(&ps)),
        Err(e) => Err(e),
    }
}

/// What match `gs`, followed by `nxt`, is written as when replaced matches take
/// the placeholder that `tbl` holds for their key.
pub open spec fn written_match(c: Category, gs: Seq<Seq<char>>, nxt: Option<char>, tbl: Seq<Entry>) -> Seq<
    Piece,
> {
    if !replaced(c, nxt) {
        seq![(group(gs, 0), false)]
    } else {
        render(c, gs, lookup(tbl, key_of(c, gs))->0)
    }
}

/// The pieces written for the first `i` matches with the placeholders of `tbl`.
pub open spec fn written(
    c: Category,
    gaps: Seq<Seq<char>>,
    ms: Seq<Seq<Seq<char>>>,
    tbl: Seq<Entry>,
    i: nat,
) -> Seq<Piece>
    decreases i,
{
    if i == 0 {
        Seq::empty()
    } else {
        written(c, gaps, ms, tbl, (i - 1) as nat).push((gaps[i - 1], false)) + written_match(
            c,
            ms[i - 1],
            next_char(gaps, ms, i as int),
            tbl,
        )
    }
}

/// Whether `e` is the entry that match `gs` numbered `n`.
pub open spec fn numbered_entry(c: Category, e: Entry, n: nat, gs: Seq<Seq<char>>) -> bool {
    e == (key_of(c, gs), fresh(c, n, gs))
}

/// Whether `e` is the entry numbered `n` for one of the first `i` matches.
pub open spec fn numbered_by_match(c: Category, e: Entry, n: nat, ms: Seq<Seq<Seq<char>>>, i: int) -> bool {
    exists|m: int| 0 <= m < i && #[trigger] numbered_entry(c, e, n, ms[m])
}

proof fn lemma_written_frame(
    c: Category,
    gaps: Seq<Seq<char>>,
    ms: Seq<Seq<Seq<char>>>,
    t1: Seq<Entry>,
    t2: Seq<Entry>,
    i: nat,
)
    requires
        i <= ms.len(),
        forall|j: int| 0 <= j < i && replaced(c, next_char(gaps, ms, j + 1)) ==> lookup(t1, key_of(c, #[trigger] ms[j])) == lookup(t2, key_of(c, ms[j])),
    ensures
        written(c, gaps, ms, t1, i) == written(c, gaps, ms, t2, i),
    decreases i,
{
    if i > 0 {
        lemma_written_frame(c, gaps, ms, t1, t2, (i - 1) as nat);
        assert(replaced(c, next_char(gaps, ms, i as int)) ==> lookup(t1, key_of(c, ms[i - 1])) == lookup(t2, key_of(c, ms[i - 1])));
    }
}

proof fn lemma_fold(c: Category, es: Seq<Entry>, gaps: Seq<Seq<char>>, ms: Seq<Seq<Seq<char>>>, i: nat)
    requires
        keys_unique(es),
        i <= ms.len(),
    ensures
        ({
            let t = fold(c, es, gaps, ms, i).0;
            &&& keys_unique(t)
            &&& es.len() <= t.len()
            &&& t.subrange(0, es.len() as int) == es
            &&& forall|k: Seq<char>| lookup(es, k) is Some ==> #[trigger] lookup(t, k) == lookup(es, k)
            &&& forall|j: int| 0 <= j < i && replaced(c, next_char(gaps, ms, j + 1)) ==> lookup(t, key_of(c, #[trigger] ms[j])) is Some
            &&& fold(c, es, gaps, ms, i).1 == written(c, gaps, ms, t, i)
            &&& forall|j: int| es.len() <= j < t.len() ==> numbered_by_match(c, #[trigger] t[j], (j + 1) as nat, ms, i as int)
        }),
    decreases i,
{
    if i > 0 {
        let i1 = (i - 1) as nat;
        lemma_fold(c, es, gaps, ms, i1);
        let prev = fold(c, es, gaps, ms, i1);
        let t0 = prev.0;
        let gs = ms[i - 1];
        let nxt = next_char(gaps, ms, i as int);
        let k = key_of(c, gs);
        let t = fold(c, es, gaps, ms, i).0;
        if !replaced(c, nxt) {
            assert(t == t0);
        } else {
            match lookup(t0, k) {
                Some(v) => {
                    assert(t == t0);
                },
                None => {
                    let e = (k, fresh(c, (t0.len() + 1) as nat, gs));
                    assert(t == t0.push(e));
                    lemma_lookup_some(t0, k);
                    assert forall|a: int, b: int| 0 <= a < b < t.len() implies t[a].0 != t[b].0 by {
                        if b == t.len() - 1 {
                            assert(t[a] == t0[a]);
                        } else {
                            assert(t[a] == t0[a] && t[b] == t0[b]);
                        }
                    }
                    assert forall|kk: Seq<char>| lookup(t0, kk) is Some implies #[trigger] lookup(t, kk) == lookup(t0, kk) by {
                        lemma_lookup_push(t0, e, kk);
                    }
                    assert forall|kk: Seq<char>| lookup(es, kk) is Some implies #[trigger] lookup(t, kk) == lookup(es, kk) by {
                        lemma_lookup_push(t0, e, kk);
                    }
                    lemma_lookup_push(t0, e, k);
                    assert(t.subrange(0, es.len() as int) =~= t0.subrange(0, es.len() as int));
                    assert forall|j: int| es.len() <= j < t.len() implies numbered_by_match(c, #[trigger] t[j], (j + 1) as nat, ms, i as int) by {
                        if j == t.len() - 1 {
                            assert(numbered_entry(c, t[j], (j + 1) as nat, ms[i - 1]));
                        } else {
                            assert(t[j] == t0[j]);
                            let m = choose|m: int| 0 <= m < i1 && #[trigger] numbered_entry(c, t0[j], (j + 1) as nat, ms[m]);
                            assert(numbered_entry(c, t[j], (j + 1) as nat, ms[m]));
                        }
                    }
                },
            }
        }
        assert forall|j: int| 0 <= j < i1 && replaced(c, next_char(gaps, ms, j + 1)) implies lookup(t0, key_of(c, #[trigger] ms[j])) == lookup(t, key_of(c, ms[j])) by {
            assert(lookup(t0, key_of(c, ms[j])) is Some);
        }
        lemma_written_frame(c, gaps, ms, t0, t, i1);
    }
}

/// Placeholders are never renumbered. A pass over any text with a table whose
/// keys are unique keeps every entry the table had, in place, with its placeholder;
/// it adds only new keys after them; and it writes each replaced match with the
/// placeholder that the resulting table holds for the match's key, so a token that
/// the table already knew is written with the placeholder stored before the pass.
pub proof fn lemma_placeholders_stable(c: Category, es: Seq<Entry>, s: (Seq<Seq<char>>, Seq<Seq<Seq<char>>>))
    requires
        keys_unique(es),
    ensures
        ({
            let (t, out) = pass(c, es, s);
            &&& keys_unique(t)
            &&& extends(es, t)
            &&& forall|k: Seq<char>| lookup(es, k) is Some ==> #[trigger] lookup(t, k) == lookup(es, k)
            &&& forall|j: int| 0 <= j < s.1.len() && replaced(c, next_char(s.0, s.1, j + 1)) ==> lookup(t, key_of(c, #[trigger] s.1[j])) is Some
            &&& out == written(c, s.0, s.1, t, s.1.len()).push((s.0[s.1.len() as int], false))
        }),
{
    lemma_fold(c, es, s.0, s.1, s.1.len());
}

/// Counters resume from the table's size: after a pass, the entry at position `j`
/// that the pass added holds the key of some match and the placeholder numbered
/// `j + 1`. From an empty table, the N-th key added gets number N.
pub proof fn lemma_numbering(c: Category, es: Seq<Entry>, s: (Seq<Seq<char>>, Seq<Seq<Seq<char>>>))
    requires
        keys_unique(es),
    ensures
        ({
            let t = pass(c, es, s).0;
            forall|j: int| es.len() <= j < t.len() ==> numbered_by_match(c, #[trigger] t[j], (j + 1) as nat, s.1, s.1.len() as int)
        }),
{
    lemma_fold(c, es, s.0, s.1, s.1.len());
}

/// Keywords are resolved in list order: with two keywords that are not blank,
/// the first is replaced across the whole text, and the second is matched only in
/// the original pieces that left, against the table that the first filled.
pub proof fn lemma_keyword_order(es: Seq<Entry>, segs: Seq<Piece>, first: Seq<char>, second: Seq<char>)
    requires
        !blank(first),
        !blank(second),
    ensures
        ({
            let a = pass_over(Category::Keyword, keyword_pattern(first), es, segs);
            keyword_passes(es, segs, seq![first, second], 2)
                == pass_over(Category::Keyword, keyword_pattern(second), a.0, a.1)
        }),
{
    let kws = seq![first, second];
    assert(kws[0] == first);
    assert(kws[1] == second);
    assert(keyword_passes(es, segs, kws, 0) == (es, segs));
    assert(keyword_passes(es, segs, kws, 1) == pass_over(Category::Keyword, keyword_pattern(first), es, segs));
}

/// Match `m` is the first replaced match whose key is `k`.
pub open spec fn first_occurrence(
    c: Category,
    gaps: Seq<Seq<char>>,
    ms: Seq<Seq<Seq<char>>>,
    k: Seq<char>,
    m: int,
) -> bool {
    &&& 0 <= m < ms.len()
    &&& replaced(c, next_char(gaps, ms, m + 1))
    &&& key_of(c, ms[m]) == k
    &&& forall|m2: int| 0 <= m2 < m && replaced(c, next_char(gaps, ms, m2 + 1))
        ==> key_of(c, #[trigger] ms[m2]) != k
}

/// Whether `e` is numbered `n` from the first replaced match of its key, one of the
/// first `i` matches.
pub open spec fn numbered_at_first(
    c: Category,
    gaps: Seq<Seq<char>>,
    ms: Seq<Seq<Seq<char>>>,
    e: Entry,
    n: nat,
    i: int,
) -> bool {
    exists|m: int| 0 <= m < i && #[trigger] first_occurrence(c, gaps, ms, e.0, m)
        && e == (key_of(c, ms[m]), fresh(c, n, ms[m]))
}

proof fn lemma_first_occurrence_unique(
    c: Category,
    gaps: Seq<Seq<char>>,
    ms: Seq<Seq<Seq<char>>>,
    k: Seq<char>,
    m1: int,
    m2: int,
)
    requires
        first_occurrence(c, gaps, ms, k, m1),
        first_occurrence(c, gaps, ms, k, m2),
    ensures
        m1 == m2,
{
    if m1 < m2 {
        assert(key_of(c, ms[m1]) == k);
    } else if m2 < m1 {
        assert(key_of(c, ms[m2]) == k);
    }
}

proof fn lemma_fold_order(c: Category, es: Seq<Entry>, gaps: Seq<Seq<char>>, ms: Seq<Seq<Seq<char>>>, i: nat)
    requires
        keys_unique(es),
        i <= ms.len(),
    ensures
        ({
            let t = fold(c, es, gaps, ms, i).0;
            &&& forall|j: int| es.len() <= j < t.len() ==> numbered_at_first(c, gaps, ms, #[trigger] t[j], (j + 1) as nat, i as int)
            &&& forall|j1: int, j2: int, m1: int, m2: int|
                es.len() <= j1 < j2 < t.len() && #[trigger] first_occurrence(c, gaps, ms, t[j1].0, m1)
                && #[trigger] first_occurrence(c, gaps, ms, t[j2].0, m2) ==> m1 < m2
        }),
    decreases i,
{
    if i > 0 {
        let i1 = (i - 1) as nat;
        lemma_fold(c, es, gaps, ms, i1);
        lemma_fold_order(c, es, gaps, ms, i1);
        lemma_fold(c, es, gaps, ms, i);
        let t0 = fold(c, es, gaps, ms, i1).0;
        let t = fold(c, es, gaps, ms, i).0;
        let gs = ms[i - 1];
        let k = key_of(c, gs);
        let nxt = next_char(gaps, ms, i as int);
        if replaced(c, nxt) && lookup(t0, k) is None {
            let e = (k, fresh(c, (t0.len() + 1) as nat, gs));
            assert(t == t0.push(e));
            let n = t.len() - 1;
            assert forall|m2: int| 0 <= m2 < i - 1 && replaced(c, next_char(gaps, ms, m2 + 1))
                implies key_of(c, #[trigger] ms[m2]) != k by {
                assert(lookup(t0, key_of(c, ms[m2])) is Some);
            }
            assert(first_occurrence(c, gaps, ms, k, i - 1));
            assert forall|j: int| es.len() <= j < t.len() implies numbered_at_first(c, gaps, ms, #[trigger] t[j], (j + 1) as nat, i as int) by {
                if j == n {
                    assert(first_occurrence(c, gaps, ms, t[j].0, i - 1));
                } else {
                    assert(t[j] == t0[j]);
                }
            }
            assert forall|j1: int, j2: int, m1: int, m2: int|
                es.len() <= j1 < j2 < t.len() && #[trigger] first_occurrence(c, gaps, ms, t[j1].0, m1)
                && #[trigger] first_occurrence(c, gaps, ms, t[j2].0, m2) implies m1 < m2 by {
                assert(t[j1] == t0[j1]);
                let w1 = choose|m: int| 0 <= m < i1 && #[trigger] first_occurrence(c, gaps, ms, t0[j1].0, m)
                    && t0[j1] == (key_of(c, ms[m]), fresh(c, (j1 + 1) as nat, ms[m]));
                lemma_first_occurrence_unique(c, gaps, ms, t[j1].0, m1, w1);
                if j2 == n {
                    lemma_first_occurrence_unique(c, gaps, ms, k, m2, i - 1);
                } else {
                    assert(t[j2] == t0[j2]);
                }
            }
        } else {
            assert(t == t0);
            assert forall|j: int| es.len() <= j < t.len() implies numbered_at_first(c, gaps, ms, #[trigger] t[j], (j + 1) as nat, i as int) by {
                let w = choose|m: int| 0 <= m < i1 && #[trigger] first_occurrence(c, gaps, ms, t0[j].0, m)
                    && t0[j] == (key_of(c, ms[m]), fresh(c, (j + 1) as nat, ms[m]));
                assert(first_occurrence(c, gaps, ms, t[j].0, w));
            }
        }
    }
}

/// Numbering follows first occurrence: each entry that a pass adds is numbered
/// after its position (the table's old size plus its rank among the added ones)
/// from the first replaced match of its key, and entries added earlier have keys
/// whose first replaced match comes earlier in the text.
pub proof fn lemma_numbering_in_order_of_first_occurrence(
    c: Category,
    es: Seq<Entry>,
    s: (Seq<Seq<char>>, Seq<Seq<Seq<char>>>),
)
    requires
        keys_unique(es),
    ensures
        ({
            let t = pass(c, es, s).0;
            &&& forall|j: int| es.len() <= j < t.len() ==> numbered_at_first(c, s.0, s.1, #[trigger] t[j], (j + 1) as nat, s.1.len() as int)
            &&& forall|j1: int, j2: int, m1: int, m2: int|
                es.len() <= j1 < j2 < t.len() && #[trigger] first_occurrence(c, s.0, s.1, t[j1].0, m1)
                && #[trigger] first_occurrence(c, s.0, s.1, t[j2].0, m2) ==> m1 < m2
        }),
{
    lemma_fold_order(c, es, s.0, s.1, s.1.len());
}

/// The stored-placeholder facts of one pass, over a text in pieces: the table keeps
/// unique keys, keeps every entry in place, and keeps every stored placeholder.
pub open spec fn keeps_table(es: Seq<Entry>, t: Seq<Entry>) -> bool {
    &&& keys_unique(t)
    &&& extends(es, t)
    &&& forall|k: Seq<char>| lookup(es, k) is Some ==> #[trigger] lookup(t, k) == lookup(es, k)
}

proof fn lemma_keeps_table_trans(a: Seq<Entry>, b: Seq<Entry>, c: Seq<Entry>)
    requires
        keeps_table(a, b),
        keeps_table(b, c),
    ensures
        keeps_table(a, c),
{
    assert(c.subrange(0, a.len() as int) =~= c.subrange(0, b.len() as int).subrange(0, a.len() as int));
    assert forall|k: Seq<char>| lookup(a, k) is Some implies #[trigger] lookup(c, k) == lookup(a, k) by {
        assert(lookup(b, k) == lookup(a, k));
    }
}

proof fn lemma_keeps_table_refl(a: Seq<Entry>)
    requires
        keys_unique(a),
    ensures
        keeps_table(a, a),
{
    assert(a.subrange(0, a.len() as int) =~= a);
}

proof fn lemma_pass_pieces_keeps(c: Category, pattern: Seq<char>, es: Seq<Entry>, segs: Seq<Piece>, i: nat)
    requires
        keys_unique(es),
        i <= segs.len(),
    ensures
        keeps_table(es, pass_pieces(c, pattern, es, segs, i).0),
    decreases i,
{
    if i == 0 {
        lemma_keeps_table_refl(es);
    } else {
        lemma_pass_pieces_keeps(c, pattern, es, segs, (i - 1) as nat);
        let t0 = pass_pieces(c, pattern, es, segs, (i - 1) as nat).0;
        if !segs[i - 1].1 {
            lemma_placeholders_stable(c, t0, scan_of(pattern, segs[i - 1].0));
            lemma_keeps_table_trans(es, t0, pass_pieces(c, pattern, es, segs, i).0);
        }
    }
}

/// Placeholders are never renumbered by the keyword passes either: after any list
/// of keywords, over any text in pieces, the table keeps unique keys, every entry
/// it had in place, and every placeholder it had stored.
pub proof fn lemma_keyword_passes_keep_table(es: Seq<Entry>, segs: Seq<Piece>, kws: Seq<Seq<char>>, j: nat)
    requires
        keys_unique(es),
    ensures
        keeps_table(es, keyword_passes(es, segs, kws, j).0),
    decreases j,
{
    if j == 0 {
        lemma_keeps_table_refl(es);
    } else {
        lemma_keyword_passes_keep_table(es, segs, kws, (j - 1) as nat);
        let prev = keyword_passes(es, segs, kws, (j - 1) as nat);
        if !blank(kws[j - 1]) {
            lemma_pass_pieces_keeps(Category::Keyword, keyword_pattern(kws[j - 1]), prev.0, prev.1, prev.1.len() as nat);
            lemma_keeps_table_trans(es, prev.0, keyword_passes(es, segs, kws, j).0);
        }
    }
}

} // verus!

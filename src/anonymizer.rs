//! The pipeline: the passes in their fixed order over one text, with fresh tables.
use vstd::prelude::*;
use crate::engine::{compiles, scan_of, strs_view, trim, trim_spec};
use crate::error::AnonymizationError;
use crate::legend::AnonymizationMap;
use crate::mapping::{Entry, keys_unique};
use crate::patterns::{
    Category, Piece, pass, pass_over, pass_pieces, flat, flatten, pieces_view, run_pieces,
    anonymize_keyword_pieces, lemma_numbering, numbered_entry, numbered_by_match, keyword_passes,
    keywords_compile, USER_PATTERN,
    DISPLAY_NAME_PATTERN, CHANNEL_PATTERN, EMAIL_PATTERN, URL_PATTERN,
};

verus! {

/// What a run replaces besides mentions, names, channels and e-mail addresses.
pub struct Options {
    pub anonymize_urls: bool,
    pub keywords: Vec<String>,
}

impl Options {
    /// No URL pass and no keywords.
    pub fn default() -> (r: Options)
        ensures
            !r.anonymize_urls,
            r.keywords@.len() == 0,
    {
        Options { anonymize_urls: false, keywords: Vec::new() }
    }

    pub fn new(anonymize_urls: bool, keywords: Vec<String>) -> (r: Options)
        ensures
            r.anonymize_urls == anonymize_urls,
            r.keywords == keywords,
    {
        Options { anonymize_urls, keywords }
    }
}

/// One pass over a text in pieces from an empty table.
pub open spec fn first_pass(c: Category, pattern: Seq<char>, segs: Seq<Piece>) -> (Seq<Entry>, Seq<Piece>) {
    pass_over(c, pattern, Seq::empty(), segs)
}

/// The result of a run: the text and the tables of users, display names,
/// channels, e-mail addresses, URLs and keywords. Each pass reads only the original
/// pieces that the passes before it left.
pub open spec fn anonymized(text: Seq<char>, urls: bool, kws: Seq<Seq<char>>) -> (
    Seq<char>,
    Seq<Entry>,
    Seq<Entry>,
    Seq<Entry>,
    Seq<Entry>,
    Seq<Entry>,
    Seq<Entry>,
) {
    let u = first_pass(Category::User, USER_PATTERN@, seq![(text, false)]);
    let d = first_pass(Category::DisplayName, DISPLAY_NAME_PATTERN@, u.1);
    let c = first_pass(Category::Channel, CHANNEL_PATTERN@, d.1);
    let e = first_pass(Category::Email, EMAIL_PATTERN@, c.1);
    let w = if urls { first_pass(Category::Url, URL_PATTERN@, e.1) } else { (Seq::empty(), e.1) };
    let k = keyword_passes(Seq::empty(), w.1, kws, kws.len() as nat);
    (flat(k.1), u.0, d.0, c.0, e.0, w.0, k.0)
}

/// Whether every grammar that a run compiles is accepted.
pub open spec fn grammars_compile(urls: bool, kws: Seq<Seq<char>>) -> bool {
    &&& compiles(USER_PATTERN@)
    &&& compiles(DISPLAY_NAME_PATTERN@)
    &&& compiles(CHANNEL_PATTERN@)
    &&& compiles(EMAIL_PATTERN@)
    &&& (urls ==> compiles(URL_PATTERN@))
    &&& keywords_compile(kws)
}

/// Runs mentions, display names, channels, e-mail addresses, then URLs (if asked)
/// and keywords (in list order) over `text`, each pass over what the one before
/// wrote, and returns the text with the tables filled.
pub fn anonymize_text(text: &str, options: &Options) -> (r: Result<
    (String, AnonymizationMap),
    AnonymizationError,
>)
    ensures
        r is Ok <==> grammars_compile(options.anonymize_urls, strs_view(options.keywords@)),
        r matches Err(e) ==> e is Pattern,
        r matches Ok((out, map)) ==> {
            let a = anonymized(text@, options.anonymize_urls, strs_view(options.keywords@));
            &&& map.wf()
            &&& out@ == a.0
            &&& map.users@ == a.1
            &&& map.display_names@ == a.2
            &&& map.channels@ == a.3
            &&& map.emails@ == a.4
            &&& map.urls@ == a.5
            &&& map.keywords@ == a.6
        },
{
    let mut map = AnonymizationMap::new();
    proof {
        assert(map.urls@ =~= Seq::<Entry>::empty());
        assert(map.keywords@ =~= Seq::<Entry>::empty());
        assert(map.users@ =~= Seq::<Entry>::empty());
        assert(map.display_names@ =~= Seq::<Entry>::empty());
        assert(map.channels@ =~= Seq::<Entry>::empty());
        assert(map.emails@ =~= Seq::<Entry>::empty());
    }
    let segs = vec![(String::from_str(text), false)];
    proof {
        assert(pieces_view(segs@) =~= seq![(text@, false)]);
    }
    let segs = match run_pieces(Category::User, USER_PATTERN, &segs, &mut map.users) {
        Ok(s) => s,
        Err(e) => return Err(AnonymizationError::Pattern(e)),
    };
    let segs = match run_pieces(Category::DisplayName, DISPLAY_NAME_PATTERN, &segs, &mut map.display_names) {
        Ok(s) => s,
        Err(e) => return Err(AnonymizationError::Pattern(e)),
    };
    let segs = match run_pieces(Category::Channel, CHANNEL_PATTERN, &segs, &mut map.channels) {
        Ok(s) => s,
        Err(e) => return Err(AnonymizationError::Pattern(e)),
    };
    let mut segs = match run_pieces(Category::Email, EMAIL_PATTERN, &segs, &mut map.emails) {
        Ok(s) => s,
        Err(e) => return Err(AnonymizationError::Pattern(e)),
    };
    if options.anonymize_urls {
        segs = match run_pieces(Category::Url, URL_PATTERN, &segs, &mut map.urls) {
            Ok(s) => s,
            Err(e) => return Err(AnonymizationError::Pattern(e)),
        };
    }
    let ghost before_keywords = pieces_view(segs@);
    if options.keywords.len() > 0 {
        segs = match anonymize_keyword_pieces(segs, &options.keywords, &mut map.keywords) {
            Ok(s) => s,
            Err(e) => return Err(AnonymizationError::Pattern(e)),
        };
    } else {
        assert(keyword_passes(Seq::empty(), before_keywords, strs_view(options.keywords@), 0)
            == (Seq::<Entry>::empty(), before_keywords));
    }
    Ok((flatten(&segs), map))
}

/// The pieces of `s` between commas, empty ones included.
pub open spec fn comma_pieces(s: Seq<char>) -> Seq<Seq<char>>
    decreases s.len(),
{
    if s.len() == 0 {
        seq![Seq::empty()]
    } else {
        let p = comma_pieces(s.drop_last());
        if s.last() == ',' {
            p.push(Seq::empty())
        } else {
            p.update(p.len() - 1, p.last().push(s.last()))
        }
    }
}

/// The trimmed pieces that are not empty, in order.
pub open spec fn trimmed_nonempty(ps: Seq<Seq<char>>) -> Seq<Seq<char>>
    decreases ps.len(),
{
    if ps.len() == 0 {
        Seq::empty()
    } else {
        let rest = trimmed_nonempty(ps.drop_last());
        let t = trim_spec(ps.last());
        if t.len() == 0 { rest } else { rest.push(t) }
    }
}

proof fn lemma_comma_pieces_nonempty(s: Seq<char>)
    ensures
        comma_pieces(s).len() >= 1,
    decreases s.len(),
{
    if s.len() > 0 {
        lemma_comma_pieces_nonempty(s.drop_last());
    }
}

/// The keywords of a comma-separated list: each piece trimmed, empty ones dropped.
pub fn parse_keywords(list: &str) -> (r: Vec<String>)
    ensures
        strs_view(r@) == trimmed_nonempty(comma_pieces(list@)),
{
    let n = list.unicode_len();
    let mut pieces: Vec<String> = Vec::new();
    let mut cur = String::new();
    let mut i: usize = 0;
    proof {
        assert(list@.subrange(0, 0) =~= Seq::<char>::empty());
        assert(strs_view(pieces@).push(cur@) =~= seq![Seq::<char>::empty()]);
    }
    while i < n
        invariant
            n == list@.len(),
            i <= n,
            strs_view(pieces@).push(cur@) == comma_pieces(list@.subrange(0, i as int)),
        decreases n - i,
    {
        let c = list.get_char(i);
        let ghost pre = list@.subrange(0, i + 1);
        proof {
            assert(pre.drop_last() =~= list@.subrange(0, i as int));
            assert(pre.last() == c);
            lemma_comma_pieces_nonempty(pre.drop_last());
        }
        if c == ',' {
            let done = cur;
            let ghost before = pieces@;
            pieces.push(done);
            cur = String::new();
            proof {
                assert(strs_view(pieces@) =~= strs_view(before).push(done@));
            }
        } else {
            let ghost old_cur = cur@;
            let one = list.substring_char(i, i + 1);
            cur.append(one);
            proof {
                assert(one@ =~= seq![c]);
                assert(cur@ =~= old_cur.push(c));
                assert(strs_view(pieces@).push(cur@) =~= strs_view(pieces@).push(old_cur).update(
                    pieces@.len() as int,
                    old_cur.push(c),
                ));
            }
        }
        i = i + 1;
    }
    proof {
        assert(list@.subrange(0, n as int) =~= list@);
    }
    let ghost before_last = pieces@;
    pieces.push(cur);
    let ghost ps = strs_view(pieces@);
    proof {
        assert(ps =~= strs_view(before_last).push(cur@));
    }
    let mut out: Vec<String> = Vec::new();
    let mut j: usize = 0;
    proof {
        assert(ps.subrange(0, 0) =~= Seq::<Seq<char>>::empty());
        assert(strs_view(out@) =~= Seq::<Seq<char>>::empty());
    }
    while j < pieces.len()
        invariant
            ps == strs_view(pieces@),
            j <= pieces@.len(),
            strs_view(out@) == trimmed_nonempty(ps.subrange(0, j as int)),
        decreases pieces@.len() - j,
    {
        let t = trim(pieces[j].as_str());
        proof {
            let pre = ps.subrange(0, j + 1);
            assert(pre.drop_last() =~= ps.subrange(0, j as int));
            assert(pre.last() == ps[j as int]);
        }
        if t.unicode_len() != 0 {
            let ghost before = out@;
            out.push(String::from_str(t));
            proof {
                assert(strs_view(out@) =~= strs_view(before).push(t@));
            }
        }
        j = j + 1;
    }
    proof {
        assert(ps.subrange(0, pieces@.len() as int) =~= ps);
    }
    out
}

/// In a run's result, the users table holds only `@` mentions: every key there
/// starts with `@`, and its placeholder is `@user` followed by its position plus one.
pub proof fn lemma_user_keys_are_mentions(text: Seq<char>, urls: bool, kws: Seq<Seq<char>>)
    ensures
        ({
            let users = anonymized(text, urls, kws).1;
            forall|j: int| 0 <= j < users.len() ==> {
                &&& (#[trigger] users[j]).0.len() > 0
                &&& users[j].0[0] == '@'
                &&& users[j].1 == "@user"@ + crate::text::dec((j + 1) as nat)
            }
        }),
{
    let s = scan_of(USER_PATTERN@, text);
    let es = Seq::<Entry>::empty();
    let segs = seq![(text, false)];
    assert(keys_unique(es));
    assert(segs[0] == (text, false));
    assert(pass_pieces(Category::User, USER_PATTERN@, es, segs, 0).0 == es);
    assert(pass_pieces(Category::User, USER_PATTERN@, es, segs, 1).0 == crate::patterns::pass(Category::User, es, s).0);
    lemma_numbering(Category::User, es, s);
    let users = anonymized(text, urls, kws).1;
    assert forall|j: int| 0 <= j < users.len() implies {
        &&& (#[trigger] users[j]).0.len() > 0
        &&& users[j].0[0] == '@'
        &&& users[j].1 == "@user"@ + crate::text::dec((j + 1) as nat)
    } by {
        assert(numbered_by_match(Category::User, users[j], (j + 1) as nat, s.1, s.1.len() as int));
        let m = choose|m: int| 0 <= m < s.1.len() && #[trigger] numbered_entry(Category::User, users[j], (j + 1) as nat, s.1[m]);
        assert(users[j].0 == seq!['@'] + crate::patterns::strip_period(crate::patterns::group(s.1[m], 2)));
    }
}

} // verus!

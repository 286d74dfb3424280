//! The six category tables of a run, and the legend that lists them.
use vstd::prelude::*;
use crate::error::LegendError;
use crate::mapping::{Entry, Mapping};
use crate::text::{seq_lt, str_lt};

verus! {

/// One table per category of sensitive token.
pub struct AnonymizationMap {
    pub users: Mapping,
    pub channels: Mapping,
    pub emails: Mapping,
    pub urls: Mapping,
    pub keywords: Mapping,
    pub display_names: Mapping,
}

/// Every entry of every table, in the order users, channels, emails, urls,
/// keywords, display names.
pub open spec fn all_entries(m: &AnonymizationMap) -> Seq<Entry> {
    m.users@ + m.channels@ + m.emails@ + m.urls@ + m.keywords@ + m.display_names@
}

impl AnonymizationMap {
    pub open spec fn wf(&self) -> bool {
        &&& self.users.wf()
        &&& self.channels.wf()
        &&& self.emails.wf()
        &&& self.urls.wf()
        &&& self.keywords.wf()
        &&& self.display_names.wf()
    }

    /// Six empty tables.
    pub fn new() -> (r: AnonymizationMap)
        ensures
            r.wf(),
            r.users@.len() == 0,
            r.channels@.len() == 0,
            r.emails@.len() == 0,
            r.urls@.len() == 0,
            r.keywords@.len() == 0,
            r.display_names@.len() == 0,
    {
        AnonymizationMap {
            users: Mapping::new(),
            channels: Mapping::new(),
            emails: Mapping::new(),
            urls: Mapping::new(),
            keywords: Mapping::new(),
            display_names: Mapping::new(),
        }
    }

    /// Whether no table holds an entry.
    pub fn is_empty(&self) -> (r: bool)
        ensures
            r == (all_entries(self).len() == 0),
    {
        self.users.is_empty() && self.channels.is_empty() && self.emails.is_empty()
            && self.urls.is_empty() && self.keywords.is_empty() && self.display_names.is_empty()
    }
}

/// The first index at or after `i` whose placeholder comes strictly after `v`.
pub open spec fn first_after(s: Seq<Entry>, v: Seq<char>, i: nat) -> nat
    decreases s.len() - i,
{
    if i >= s.len() {
        s.len()
    } else if seq_lt(v, s[i as int].1) {
        i
    } else {
        first_after(s, v, i + 1)
    }
}

/// `e` placed after every entry whose placeholder does not come after its own.
pub open spec fn insert_sorted(s: Seq<Entry>, e: Entry) -> Seq<Entry> {
    s.insert(first_after(s, e.1, 0) as int, e)
}

/// The entries in order of placeholder; entries with equal placeholders keep
/// their order.
pub open spec fn sort_by_placeholder(s: Seq<Entry>) -> Seq<Entry>
    decreases s.len(),
{
    if s.len() == 0 {
        s
    } else {
        insert_sorted(sort_by_placeholder(s.drop_last()), s.last())
    }
}

/// One legend line: `original → placeholder`.
pub open spec fn line(e: Entry) -> Seq<char> {
    e.0 + " → "@ + e.1 + "\n"@
}

pub open spec fn lines(s: Seq<Entry>) -> Seq<char>
    decreases s.len(),
{
    if s.len() == 0 {
        Seq::empty()
    } else {
        lines(s.drop_last()) + line(s.last())
    }
}

/// The legend of a set of entries: nothing for none, else a header and one line
/// per entry in order of placeholder.
pub open spec fn legend(es: Seq<Entry>) -> Seq<char> {
    if es.len() == 0 {
        Seq::empty()
    } else {
        "\n=== ANONYMIZATION LEGEND ===\n"@ + lines(sort_by_placeholder(es))
    }
}

pub open spec fn pairs_view(v: Seq<(String, String)>) -> Seq<Entry> {
    v.map_values(|e: (String, String)| (e.0@, e.1@))
}

fn collect_into(all: &mut Vec<(String, String)>, m: &Mapping)
    ensures
        pairs_view(final(all)@) == pairs_view(old(all)@) + m@,
{
    let n = m.len();
    let mut i: usize = 0;
    while i < n
        invariant
            n == m@.len(),
            i <= n,
            pairs_view(all@) == pairs_view(old(all)@) + m@.subrange(0, i as int),
        decreases n - i,
    {
        let (k, v) = m.entry(i);
        let ghost before = all@;
        all.push((k.clone(), v.clone()));
        proof {
            assert(pairs_view(all@) =~= pairs_view(before).push((k@, v@)));
            assert(m@.subrange(0, i + 1) =~= m@.subrange(0, i as int).push(m@[i as int]));
        }
        i = i + 1;
    }
    proof {
        assert(m@.subrange(0, n as int) =~= m@);
    }
}

fn insert_in_order(sorted: &mut Vec<(String, String)>, e: (String, String))
    ensures
        pairs_view(final(sorted)@) == insert_sorted(pairs_view(old(sorted)@), (e.0@, e.1@)),
{
    let ghost sv = pairs_view(sorted@);
    let n = sorted.len();
    let mut p: usize = 0;
    while p < n && !str_lt(e.1.as_str(), sorted[p].1.as_str())
        invariant
            n == sorted@.len(),
            sv == pairs_view(sorted@),
            p <= n,
            first_after(sv, e.1@, 0) == first_after(sv, e.1@, p as nat),
        decreases n - p,
    {
        p = p + 1;
    }
    let ghost ev = (e.0@, e.1@);
    sorted.insert(p, e);
    proof {
        assert(pairs_view(sorted@) =~= sv.insert(p as int, ev));
    }
}

/// The legend of every table of `map`, sorted by placeholder.
pub fn format_legend(map: &AnonymizationMap) -> (r: Result<String, LegendError>)
    ensures
        r matches Ok(s) && s@ == legend(all_entries(map)),
{
    if map.is_empty() {
        return Ok(String::new());
    }
    let mut all: Vec<(String, String)> = Vec::new();
    collect_into(&mut all, &map.users);
    collect_into(&mut all, &map.channels);
    collect_into(&mut all, &map.emails);
    collect_into(&mut all, &map.urls);
    collect_into(&mut all, &map.keywords);
    collect_into(&mut all, &map.display_names);
    let ghost es = pairs_view(all@);
    assert(es =~= all_entries(map));

    let mut sorted: Vec<(String, String)> = Vec::new();
    let n = all.len();
    let mut i: usize = 0;
    proof {
        assert(es.subrange(0, 0) =~= Seq::<Entry>::empty());
        assert(pairs_view(sorted@) =~= Seq::<Entry>::empty());
    }
    while i < n
        invariant
            n == all@.len(),
            es == pairs_view(all@),
            i <= n,
            pairs_view(sorted@) == sort_by_placeholder(es.subrange(0, i as int)),
        decreases n - i,
    {
        let e = (all[i].0.clone(), all[i].1.clone());
        insert_in_order(&mut sorted, e);
        proof {
            let pre = es.subrange(0, i + 1);
            assert(pre.drop_last() =~= es.subrange(0, i as int));
            assert(pre.last() == es[i as int]);
        }
        i = i + 1;
    }
    proof {
        assert(es.subrange(0, n as int) =~= es);
    }

    let ghost ss = pairs_view(sorted@);
    let mut out = String::from_str("\n=== ANONYMIZATION LEGEND ===\n");
    let m = sorted.len();
    let mut j: usize = 0;
    proof {
        assert(ss.subrange(0, 0) =~= Seq::<Entry>::empty());
        assert(out@ =~= "\n=== ANONYMIZATION LEGEND ===\n"@ + lines(ss.subrange(0, 0)));
    }
    while j < m
        invariant
            m == sorted@.len(),
            ss == pairs_view(sorted@),
            j <= m,
            out@ == "\n=== ANONYMIZATION LEGEND ===\n"@ + lines(ss.subrange(0, j as int)),
        decreases m - j,
    {
        out.append(sorted[j].0.as_str());
        out.append(" → ");
        out.append(sorted[j].1.as_str());
        out.append("\n");
        proof {
            let pre = ss.subrange(0, j + 1);
            assert(pre.drop_last() =~= ss.subrange(0, j as int));
            assert(pre.last() == ss[j as int]);
        }
        j = j + 1;
    }
    proof {
        assert(ss.subrange(0, m as int) =~= ss);
    }
    Ok(out)
}

proof fn lemma_first_after_bound(s: Seq<Entry>, v: Seq<char>, i: nat)
    ensures
        first_after(s, v, i) <= s.len(),
    decreases s.len() - i,
{
    if i < s.len() && !seq_lt(v, s[i as int].1) {
        lemma_first_after_bound(s, v, i + 1);
    }
}

/// The legend lists the table and nothing else: its lines follow a reordering of
/// the entries, each entry exactly as often as it occurs, one line per entry.
/// (`format_legend` reads the map through a shared reference and leaves it as it was.)
pub proof fn lemma_legend_lists_entries(es: Seq<Entry>)
    ensures
        sort_by_placeholder(es).to_multiset() == es.to_multiset(),
        sort_by_placeholder(es).len() == es.len(),
        es.len() > 0 ==> legend(es) == "\n=== ANONYMIZATION LEGEND ===\n"@ + lines(sort_by_placeholder(es)),
    decreases es.len(),
{
    broadcast use vstd::seq_lib::group_to_multiset_ensures, vstd::seq_lib::to_multiset_insert;

    if es.len() > 0 {
        let rest = es.drop_last();
        lemma_legend_lists_entries(rest);
        let sr = sort_by_placeholder(rest);
        lemma_first_after_bound(sr, es.last().1, 0);
        assert(es =~= rest.push(es.last()));
        assert(sr.insert(first_after(sr, es.last().1, 0) as int, es.last()).to_multiset()
            == sr.to_multiset().insert(es.last()));
    }
}

} // verus!

//! A per-category table from original tokens to their placeholders.
use vstd::prelude::*;
use crate::text::str_eq;

verus! {

/// One table entry viewed as plain values: (original, placeholder).
pub type Entry = (Seq<char>, Seq<char>);

/// The placeholder stored for `k`, if any.
pub open spec fn lookup(es: Seq<Entry>, k: Seq<char>) -> Option<Seq<char>>
    decreases es.len(),
{
    if es.len() == 0 {
        None
    } else if es.last().0 == k {
        Some(es.last().1)
    } else {
        lookup(es.drop_last(), k)
    }
}

/// No original token occurs twice.
pub open spec fn keys_unique(es: Seq<Entry>) -> bool {
    forall|i: int, j: int| 0 <= i < j < es.len() ==> es[i].0 != es[j].0
}

/// The table after setting `k` to `v`: an existing entry is overwritten in place,
/// a new one is appended.
pub open spec fn insert_entry(es: Seq<Entry>, k: Seq<char>, v: Seq<char>) -> Seq<Entry> {
    if exists|i: int| 0 <= i < es.len() && es[i].0 == k {
        let i = choose|i: int| 0 <= i < es.len() && es[i].0 == k;
        es.update(i, (k, v))
    } else {
        es.push((k, v))
    }
}

/// Original tokens mapped to placeholders, in order of first insertion.
pub struct Mapping {
    entries: Vec<(String, String)>,
}

impl View for Mapping {
    type V = Seq<Entry>;

    closed spec fn view(&self) -> Seq<Entry> {
        self.entries@.map_values(|e: (String, String)| (e.0@, e.1@))
    }
}

/// `lookup` finds a key exactly when some entry holds it, and then that entry's placeholder.
pub proof fn lemma_lookup_some(es: Seq<Entry>, k: Seq<char>)
    ensures
        lookup(es, k) is Some <==> exists|i: int| 0 <= i < es.len() && es[i].0 == k,
        lookup(es, k) is Some ==> exists|i: int|
            0 <= i < es.len() && es[i].0 == k && es[i].1 == lookup(es, k)->0,
    decreases es.len(),
{
    if es.len() > 0 {
        lemma_lookup_some(es.drop_last(), k);
        if es.last().0 != k {
            if exists|i: int| 0 <= i < es.len() && es[i].0 == k {
                let i = choose|i: int| 0 <= i < es.len() && es[i].0 == k;
                assert(es.drop_last()[i].0 == k);
            }
        }
    }
}

/// In a table with unique keys, the entry at `i` is what `lookup` finds for its key.
pub proof fn lemma_lookup_at(es: Seq<Entry>, i: int)
    requires
        keys_unique(es),
        0 <= i < es.len(),
    ensures
        lookup(es, es[i].0) == Some(es[i].1),
    decreases es.len(),
{
    if i < es.len() - 1 {
        assert(es.last().0 != es[i].0);
        lemma_lookup_at(es.drop_last(), i);
    }
}

/// Appending an entry for a new key leaves every other lookup as it was.
pub proof fn lemma_lookup_push(es: Seq<Entry>, e: Entry, k: Seq<char>)
    ensures
        lookup(es.push(e), k) == if e.0 == k { Some(e.1) } else { lookup(es, k) },
{
    assert(es.push(e).drop_last() =~= es);
}

impl Mapping {
    /// No original token occurs twice.
    pub open spec fn wf(&self) -> bool {
        keys_unique(self@)
    }

    /// An empty table.
    pub fn new() -> (r: Mapping)
        ensures
            r@ == Seq::<Entry>::empty(),
            r.wf(),
    {
        Mapping { entries: Vec::new() }
    }

    /// Number of entries.
    pub fn len(&self) -> (r: usize)
        ensures
            r == self@.len(),
    {
        self.entries.len()
    }

    /// Whether the table holds no entry.
    pub fn is_empty(&self) -> (r: bool)
        ensures
            r == (self@.len() == 0),
    {
        self.entries.len() == 0
    }

    /// The index of the entry for `k`, if any.
    fn position(&self, k: &str) -> (r: Option<usize>)
        ensures
            match r {
                Some(i) => i < self@.len() && self@[i as int].0 == k@
                    && lookup(self@, k@) == Some(self@[i as int].1),
                None => lookup(self@, k@) is None,
            },
    {
        let mut i: usize = self.entries.len();
        proof {
            assert(self@.subrange(0, i as int) =~= self@);
        }
        while i > 0
            invariant
                i <= self@.len(),
                self@.len() == self.entries@.len(),
                lookup(self@, k@) == lookup(self@.subrange(0, i as int), k@),
            decreases i,
        {
            let ghost pre = self@.subrange(0, i as int);
            proof {
                assert(pre.drop_last() =~= self@.subrange(0, i - 1));
                assert(pre.last() == self@[i - 1]);
                assert(self@[i - 1].0 == self.entries@[i - 1].0@);
            }
            if str_eq(self.entries[i - 1].0.as_str(), k) {
                return Some(i - 1);
            }
            i = i - 1;
        }
        None
    }

    /// The placeholder stored for `k`, if any.
    pub fn get(&self, k: &str) -> (r: Option<&String>)
        ensures
            match r {
                Some(v) => lookup(self@, k@) == Some(v@),
                None => lookup(self@, k@) is None,
            },
    {
        match self.position(k) {
            Some(i) => Some(&self.entries[i].1),
            None => None,
        }
    }

    /// Whether `k` has an entry.
    pub fn contains_key(&self, k: &str) -> (r: bool)
        ensures
            r == (lookup(self@, k@) is Some),
    {
        self.position(k).is_some()
    }

    /// The entry at `i`, in order of first insertion.
    pub fn entry(&self, i: usize) -> (r: (&String, &String))
        requires
            i < self@.len(),
        ensures
            (r.0@, r.1@) == self@[i as int],
    {
        (&self.entries[i].0, &self.entries[i].1)
    }

    /// Appends an entry for a key that has none yet.
    pub fn push_new(&mut self, k: String, v: String)
        requires
            lookup(old(self)@, k@) is None,
            old(self).wf(),
        ensures
            final(self)@ == old(self)@.push((k@, v@)),
            final(self).wf(),
    {
        proof {
            lemma_lookup_some(self@, k@);
        }
        self.entries.push((k, v));
        proof {
            assert(self@ =~= old(self)@.push((k@, v@)));
        }
    }

    /// Sets the placeholder of `k` to `v`, keeping the position of an existing entry.
    pub fn insert(&mut self, k: String, v: String)
        requires
            old(self).wf(),
        ensures
            final(self)@ == insert_entry(old(self)@, k@, v@),
            final(self).wf(),
            lookup(final(self)@, k@) == Some(v@),
    {
        proof {
            lemma_lookup_some(self@, k@);
        }
        match self.position(k.as_str()) {
            Some(i) => {
                proof {
                    assert(keys_unique(self@));
                    assert(forall|j: int| 0 <= j < self@.len() && self@[j].0 == k@ ==> j == i);
                }
                self.entries.set(i, (k, v));
                proof {
                    assert(self@ =~= old(self)@.update(i as int, (k@, v@)));
                    lemma_lookup_at(self@, i as int);
                }
            },
            None => {
                self.push_new(k, v);
                proof {
                    lemma_lookup_push(old(self)@, (k@, v@), k@);
                }
            },
        }
    }
}

} // verus!

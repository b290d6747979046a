//! The store of memoized results and its aging-based eviction.

use std::collections::HashMap;
use vstd::prelude::*;

verus! {

broadcast use vstd::std_specs::hash::group_hash_axioms;

/// Sweeps that an entry survives without being hit.
pub const MAX_AGE: usize = 5;

/// One memoized result: the output and the constraint produced for the
/// input, under the digest of that input's key.
pub struct Entry<O, C> {
    pub digest: u64,
    pub output: O,
    pub constraint: C,
    /// Sweeps passed since the entry was stored or last hit.
    pub age: usize,
}

impl<O, C> Entry<O, C> {
    /// The entry one sweep older.
    pub open spec fn aged(self) -> Entry<O, C> {
        Entry { age: (self.age + 1) as usize, ..self }
    }

    /// The entry as a hit leaves it.
    pub open spec fn refreshed(self) -> Entry<O, C> {
        Entry { age: 0, ..self }
    }

    /// A fresh entry.
    pub open spec fn fresh(digest: u64, output: O, constraint: C) -> Entry<O, C> {
        Entry { digest, output, constraint, age: 0 }
    }
}

/// Whether some entry is stored under `d`.
pub open spec fn holds<O, C>(s: Seq<Entry<O, C>>, d: u64) -> bool {
    exists|i: int| 0 <= i < s.len() && #[trigger] s[i].digest == d
}

/// The position of the entry stored under `d`.
pub open spec fn slot<O, C>(s: Seq<Entry<O, C>>, d: u64) -> int {
    choose|i: int| 0 <= i < s.len() && #[trigger] s[i].digest == d
}

/// At most one entry per digest, and no entry older than the threshold.
pub open spec fn well_formed<O, C>(s: Seq<Entry<O, C>>) -> bool {
    &&& forall|i: int, j: int|
        0 <= i < j < s.len() ==> #[trigger] s[i].digest != #[trigger] s[j].digest
    &&& forall|i: int| 0 <= i < s.len() ==> #[trigger] s[i].age <= MAX_AGE
}

/// The entries after a new computation for `d`: it overwrites the entry
/// under `d` if there is one, else it is appended.
pub open spec fn stored<O, C>(s: Seq<Entry<O, C>>, d: u64, output: O, constraint: C) -> Seq<
    Entry<O, C>,
> {
    if holds(s, d) {
        s.update(slot(s, d), Entry::fresh(d, output, constraint))
    } else {
        s.push(Entry::fresh(d, output, constraint))
    }
}

/// Every entry one sweep older.
pub open spec fn aged_all<O, C>(s: Seq<Entry<O, C>>) -> Seq<Entry<O, C>> {
    s.map_values(|e: Entry<O, C>| e.aged())
}

/// The entries within the threshold.
pub open spec fn within_age<O, C>(s: Seq<Entry<O, C>>) -> Seq<Entry<O, C>> {
    s.filter(|e: Entry<O, C>| e.age <= MAX_AGE)
}

/// The entries after a sweep: every entry ages by one and those past the
/// threshold go.
pub open spec fn swept<O, C>(s: Seq<Entry<O, C>>) -> Seq<Entry<O, C>> {
    within_age(aged_all(s))
}

/// The entries that a sweep removes: those already at the threshold.
pub open spec fn stale<O, C>(s: Seq<Entry<O, C>>) -> Seq<Entry<O, C>> {
    s.filter(|e: Entry<O, C>| e.age >= MAX_AGE)
}

/// Replacing an entry by one with the same digest keeps an index valid.
proof fn lemma_indexes_update<O, C>(
    index: Map<u64, usize>,
    s: Seq<Entry<O, C>>,
    k: int,
    e: Entry<O, C>,
)
    requires
        indexes(index, s),
        0 <= k < s.len(),
        e.digest == s[k].digest,
    ensures
        indexes(index, s.update(k, e)),
{
    let t = s.update(k, e);
    assert forall|x: u64| #[trigger] index.contains_key(x) <==> holds(t, x) by {
        if holds(s, x) {
            let i = choose|i: int| 0 <= i < s.len() && #[trigger] s[i].digest == x;
            assert(t[i].digest == x);
        }
        if holds(t, x) {
            let i = choose|i: int| 0 <= i < t.len() && #[trigger] t[i].digest == x;
            assert(s[i].digest == x);
        }
    }
}

/// The entry at `k` is still there after a sweep, one sweep older.
pub open spec fn kept_entry<O, C>(s: Seq<Entry<O, C>>, k: int) -> bool {
    holds(swept(s), s[k].digest) && swept(s)[slot(swept(s), s[k].digest)] == s[k].aged()
}

/// In well-formed entries, the entry with digest `d` is the one at `slot`.
pub proof fn lemma_slot<O, C>(s: Seq<Entry<O, C>>, j: int)
    requires
        well_formed(s),
        0 <= j < s.len(),
    ensures
        holds(s, s[j].digest),
        slot(s, s[j].digest) == j,
{
    let d = s[j].digest;
    assert(s[j].digest == d);
    let k = slot(s, d);
    if k < j {
        assert(s[k].digest != s[j].digest);
    } else if k > j {
        assert(s[j].digest != s[k].digest);
    }
}

/// What a sweep keeps: a well-formed table whose entries are aged entries of
/// the old one, every entry that was under the threshold among them, and
/// exactly the stale entries gone.
pub proof fn lemma_swept<O, C>(s: Seq<Entry<O, C>>)
    requires
        well_formed(s),
    ensures
        well_formed(swept(s)),
        forall|j: int|
            0 <= j < swept(s).len() ==> exists|b: int|
                0 <= b < s.len() && #[trigger] swept(s)[j] == s[b].aged(),
        forall|k: int|
            0 <= k < s.len() && s[k].age < MAX_AGE ==> #[trigger] kept_entry(s, k),
        swept(s).len() + stale(s).len() == s.len(),
    decreases s.len(),
{
    reveal(Seq::filter);
    if s.len() > 0 {
        let p = s.drop_last();
        let e = s.last();
        lemma_swept(p);
        assert(aged_all(s).drop_last() =~= aged_all(p));
        assert(aged_all(s).last() == e.aged());
        let sp = swept(p);
        if e.aged().age <= MAX_AGE {
            assert(swept(s) == sp.push(e.aged()));
            assert forall|a: int| 0 <= a < sp.len() implies #[trigger] sp[a].digest
                != e.digest by {
                let b = choose|b: int| 0 <= b < p.len() && sp[a] == p[b].aged();
                assert(p[b] == s[b]);
                assert(s[b].digest != s[s.len() - 1].digest);
            }
            assert forall|j: int| 0 <= j < swept(s).len() implies exists|b: int|
                0 <= b < s.len() && #[trigger] swept(s)[j] == s[b].aged() by {
                if j < sp.len() {
                    let b = choose|b: int| 0 <= b < p.len() && sp[j] == p[b].aged();
                    assert(swept(s)[j] == s[b].aged());
                } else {
                    assert(swept(s)[j] == s[s.len() - 1].aged());
                }
            }
            assert forall|k: int| 0 <= k < s.len() && s[k].age < MAX_AGE implies #[trigger] kept_entry(
                s,
                k,
            ) by {
                if k < p.len() {
                    assert(p[k] == s[k]);
                    assert(kept_entry(p, k));
                    let j = slot(sp, p[k].digest);
                    lemma_slot(swept(s), j);
                } else {
                    lemma_slot(swept(s), sp.len() as int);
                }
            }
        } else {
            assert(swept(s) == sp);
            assert forall|j: int| 0 <= j < swept(s).len() implies exists|b: int|
                0 <= b < s.len() && #[trigger] swept(s)[j] == s[b].aged() by {
                let b = choose|b: int| 0 <= b < p.len() && sp[j] == p[b].aged();
                assert(swept(s)[j] == s[b].aged());
            }
            assert forall|k: int| 0 <= k < s.len() && s[k].age < MAX_AGE implies #[trigger] kept_entry(
                s,
                k,
            ) by {
                assert(k < p.len());
                assert(p[k] == s[k]);
                assert(kept_entry(p, k));
            }
        }
    }
}

/// A table of memoized results for one execution context.
///
/// The output and constraint types are fixed by the type parameters, so a
/// lookup never meets a stored result of another type; callers memoizing
/// functions of different types keep one cache for each.
pub struct Cache<O, C> {
    entries: Vec<Entry<O, C>>,
    /// The position in `entries` of the entry under each digest.
    index: HashMap<u64, usize>,
}

/// `index` locates exactly the entries of `entries`, by digest.
spec fn indexes<O, C>(index: Map<u64, usize>, entries: Seq<Entry<O, C>>) -> bool {
    &&& forall|d: u64| #[trigger] index.contains_key(d) <==> holds(entries, d)
    &&& forall|d: u64|
        #[trigger] index.contains_key(d) ==> index[d] < entries.len() && entries[index[d] as int].digest
            == d
}

impl<O, C> View for Cache<O, C> {
    type V = Seq<Entry<O, C>>;

    closed spec fn view(&self) -> Seq<Entry<O, C>> {
        self.entries@
    }
}

impl<O, C> Cache<O, C> {
    /// At most one entry per digest, none older than the threshold, and a
    /// digest index that locates each entry.
    pub open spec fn wf(&self) -> bool {
        well_formed(self@) && self.indexed()
    }

    /// The digest index agrees with the entries.
    pub closed spec fn indexed(&self) -> bool {
        indexes(self.index@, self.entries@)
    }

    /// An empty cache.
    pub fn new() -> (r: Cache<O, C>)
        ensures
            r@ == Seq::<Entry<O, C>>::empty(),
            r.wf(),
    {
        Cache { entries: Vec::new(), index: HashMap::new() }
    }

    /// The number of entries.
    pub fn len(&self) -> (r: usize)
        ensures
            r == self@.len(),
    {
        self.entries.len()
    }

    /// The position of the entry under `d`, if any.
    pub fn find(&self, d: u64) -> (r: Option<usize>)
        requires
            self.wf(),
        ensures
            r.is_some() == holds(self@, d),
            r.is_some() ==> r.unwrap() == slot(self@, d),
    {
        match self.index.get(&d) {
            Some(k) => {
                proof {
                    lemma_slot(self@, *k as int);
                }
                Some(*k)
            },
            None => None,
        }
    }

    /// The entry at position `k`.
    pub fn entry_at(&self, k: usize) -> (r: &Entry<O, C>)
        requires
            k < self@.len(),
        ensures
            *r == self@[k as int],
    {
        &self.entries[k]
    }

    /// Reset the age of the entry at `k`, as a hit does.
    pub fn refresh(&mut self, k: usize)
        requires
            old(self).wf(),
            k < old(self)@.len(),
        ensures
            final(self)@ == old(self)@.update(k as int, old(self)@[k as int].refreshed()),
            final(self).wf(),
    {
        self.entries[k].age = 0;
        assert(self@ =~= old(self)@.update(k as int, old(self)@[k as int].refreshed()));
        proof {
            lemma_indexes_update(
                self.index@,
                old(self)@,
                k as int,
                old(self)@[k as int].refreshed(),
            );
        }
    }

    /// Install a fresh computation for `d`, overwriting the entry under `d`
    /// if there is one.
    pub fn store(&mut self, d: u64, output: O, constraint: C)
        requires
            old(self).wf(),
        ensures
            final(self)@ == stored(old(self)@, d, output, constraint),
            final(self).wf(),
    {
        let entry = Entry { digest: d, output, constraint, age: 0 };
        match self.find(d) {
            Some(k) => {
                self.entries[k] = entry;
                proof {
                    assert(old(self)@[k as int].digest == d);
                    lemma_indexes_update(
                        self.index@,
                        old(self)@,
                        k as int,
                        Entry::fresh(d, output, constraint),
                    );
                    assert(self@ =~= old(self)@.update(k as int, Entry::fresh(d, output, constraint)));
                }
            },
            None => {
                let n = self.entries.len();
                self.index.insert(d, n);
                self.entries.push(entry);
                proof {
                    let s = old(self)@;
                    assert forall|i: int| 0 <= i < s.len() implies #[trigger] s[i].digest != d by {
                        if s[i].digest == d {
                            assert(holds(s, d));
                        }
                    }
                    assert forall|x: u64| #[trigger] self.index@.contains_key(x) <==> holds(
                        self@,
                        x,
                    ) by {
                        if holds(s, x) {
                            let i = choose|i: int| 0 <= i < s.len() && #[trigger] s[i].digest == x;
                            assert(self@[i].digest == x);
                        }
                        if x == d {
                            assert(self@[n as int].digest == d);
                        } else if holds(self@, x) {
                            let i = choose|i: int| 0 <= i < self@.len() && #[trigger] self@[i].digest
                                == x;
                            assert(s[i].digest == x);
                        }
                    }
                }
            },
        }
    }

    /// Age every entry by one sweep and remove those past the threshold.
    pub fn sweep(&mut self)
        requires
            old(self).wf(),
        ensures
            final(self)@ == swept(old(self)@),
            final(self).wf(),
    {
        let ghost s = self@;
        let n = self.entries.len();
        let mut pending: Vec<Entry<O, C>> = Vec::new();
        while self.entries.len() > 0
            invariant
                s == old(self)@,
                well_formed(s),
                n == s.len(),
                pending.len() <= n,
                self@ == s.take(n - pending.len()),
                forall|t: int| 0 <= t < pending.len() ==> #[trigger] pending@[t] == s[n - 1 - t],
            decreases self@.len(),
        {
            let e = self.entries.pop().unwrap();
            pending.push(e);
            assert(self@ =~= s.take(n - pending.len()));
        }
        let mut kept: Vec<Entry<O, C>> = Vec::new();
        let mut index: HashMap<u64, usize> = HashMap::new();
        while pending.len() > 0
            invariant
                well_formed(s),
                n == s.len(),
                pending.len() <= n,
                forall|t: int| 0 <= t < pending.len() ==> #[trigger] pending@[t] == s[n - 1 - t],
                kept@ == swept(s.take(n - pending.len())),
                well_formed(kept@),
                indexes(index@, kept@),
                forall|a: int|
                    0 <= a < kept.len() ==> exists|b: int|
                        0 <= b < n - pending.len() && #[trigger] kept@[a].digest == s[b].digest,
            decreases pending.len(),
        {
            let ghost k = n - pending.len();
            let mut e = pending.pop().unwrap();
            assert(e == s[k]);
            e.age = e.age + 1;
            proof {
                let t = aged_all(s.take(k + 1));
                assert(t.drop_last() =~= aged_all(s.take(k)));
                assert(t.last() == e);
                reveal(Seq::filter);
            }
            if e.age <= MAX_AGE {
                proof {
                    assert forall|a: int| 0 <= a < kept.len() implies #[trigger] kept@[a].digest
                        != e.digest by {
                        let b = choose|b: int| 0 <= b < k && kept@[a].digest == s[b].digest;
                        assert(s[b].digest != s[k].digest);
                    }
                }
                let ghost before = kept@;
                index.insert(e.digest, kept.len());
                kept.push(e);
                proof {
                    assert forall|x: u64| #[trigger] index@.contains_key(x) <==> holds(kept@, x) by {
                        if holds(before, x) {
                            let i = choose|i: int|
                                0 <= i < before.len() && #[trigger] before[i].digest == x;
                            assert(kept@[i].digest == x);
                        }
                        if x == e.digest {
                            assert(kept@[before.len() as int].digest == x);
                        } else if holds(kept@, x) {
                            let i = choose|i: int| 0 <= i < kept@.len() && #[trigger] kept@[i].digest
                                == x;
                            assert(before[i].digest == x);
                        }
                    }
                }
            }
        }
        self.entries = kept;
        self.index = index;
        assert(s.take(n as int) =~= s);
    }
}

} // verus!

use vstd::prelude::*;
use crate::aggregate::{
    lemma_fold_permutation,
    count_total, fold_entries, keys_distinct, lemma_distinct_lists, lemma_fold_lists, lemma_lists_empty,
    lemma_lists_unique, lists, map_combine, merge_entry,
};
use crate::metrics::{combine, Metrics, Stats};
use crate::worker::{entries_view, WorkerTable};

verus! {

/// Lexicographic byte order: the first differing byte decides, and a proper
/// prefix comes first.
pub open spec fn key_lt(a: Seq<u8>, b: Seq<u8>) -> bool
    decreases a.len(),
{
    if a.len() == 0 {
        b.len() > 0
    } else if b.len() == 0 {
        false
    } else if a[0] != b[0] {
        a[0] < b[0]
    } else {
        key_lt(a.drop_first(), b.drop_first())
    }
}

/// Keys strictly ascending.
pub open spec fn sorted_keys(es: Seq<(Seq<u8>, Stats)>) -> bool {
    forall|i: int, j: int| 0 <= i < j < es.len() ==> key_lt(#[trigger] es[i].0, #[trigger] es[j].0)
}

pub proof fn lemma_key_lt_irreflexive(a: Seq<u8>)
    ensures
        !key_lt(a, a),
    decreases a.len(),
{
    if a.len() > 0 {
        lemma_key_lt_irreflexive(a.drop_first());
    }
}

pub proof fn lemma_key_lt_transitive(a: Seq<u8>, b: Seq<u8>, c: Seq<u8>)
    requires
        key_lt(a, b),
        key_lt(b, c),
    ensures
        key_lt(a, c),
    decreases a.len(),
{
    if a.len() > 0 && b.len() > 0 && c.len() > 0 && a[0] == b[0] && b[0] == c[0] {
        lemma_key_lt_transitive(a.drop_first(), b.drop_first(), c.drop_first());
    }
}

pub proof fn lemma_key_lt_asymmetric(a: Seq<u8>, b: Seq<u8>)
    requires
        key_lt(a, b),
    ensures
        !key_lt(b, a),
    decreases a.len(),
{
    if a.len() > 0 && b.len() > 0 && a[0] == b[0] {
        lemma_key_lt_asymmetric(a.drop_first(), b.drop_first());
    }
}

/// Past a common prefix, the order is that of the rests.
proof fn lemma_key_lt_suffix(a: Seq<u8>, b: Seq<u8>, i: int)
    requires
        0 <= i <= a.len(),
        i <= b.len(),
        a.subrange(0, i) == b.subrange(0, i),
    ensures
        key_lt(a, b) == key_lt(a.subrange(i, a.len() as int), b.subrange(i, b.len() as int)),
        (a.len() == i && b.len() == i) ==> a == b,
    decreases i,
{
    if i > 0 {
        assert(a[0] == a.subrange(0, i)[0]);
        assert(b[0] == b.subrange(0, i)[0]);
        assert(a.drop_first().subrange(0, i - 1) == b.drop_first().subrange(0, i - 1)) by {
            assert forall|k: int| 0 <= k < i - 1 implies #[trigger] a.drop_first().subrange(0, i - 1)[k] == b.drop_first().subrange(0, i - 1)[k] by {
                assert(a.subrange(0, i)[k + 1] == b.subrange(0, i)[k + 1]);
                assert(a.drop_first().subrange(0, i - 1)[k] == a.subrange(0, i)[k + 1]);
                assert(b.drop_first().subrange(0, i - 1)[k] == b.subrange(0, i)[k + 1]);
            }
        }
        lemma_key_lt_suffix(a.drop_first(), b.drop_first(), i - 1);
        assert(a.drop_first().subrange(i - 1, a.len() - 1) == a.subrange(i, a.len() as int));
        assert(b.drop_first().subrange(i - 1, b.len() - 1) == b.subrange(i, b.len() as int));
        if a.len() == i && b.len() == i {
            assert(a == a.subrange(0, i));
            assert(b == b.subrange(0, i));
        }
    } else {
        assert(a.subrange(0, a.len() as int) == a);
        assert(b.subrange(0, b.len() as int) == b);
    }
}

/// Compares two keys in lexicographic byte order: negative, zero or
/// positive as `a` comes before, equals or comes after `b`.
pub fn compare_keys(a: &[u8], b: &[u8]) -> (r: i8)
    ensures
        (r < 0) == key_lt(a@, b@),
        (r == 0) == (a@ == b@),
        (r > 0) == key_lt(b@, a@),
{
    let mut i: usize = 0;
    while i < a.len() && i < b.len() && a[i] == b[i]
        invariant
            i <= a@.len(),
            i <= b@.len(),
            a@.subrange(0, i as int) == b@.subrange(0, i as int),
        decreases a.len() - i,
    {
        assert(a@.subrange(0, i + 1) == a@.subrange(0, i as int).push(a@[i as int]));
        assert(b@.subrange(0, i + 1) == b@.subrange(0, i as int).push(b@[i as int]));
        i = i + 1;
    }
    proof {
        lemma_key_lt_suffix(a@, b@, i as int);
        lemma_key_lt_suffix(b@, a@, i as int);
        lemma_key_lt_irreflexive(a@);
        let ra = a@.subrange(i as int, a@.len() as int);
        let rb = b@.subrange(i as int, b@.len() as int);
        if i < a.len() && i < b.len() {
            assert(ra[0] == a@[i as int]);
            assert(rb[0] == b@[i as int]);
            assert(a@[i as int] != b@[i as int]);
            assert(a@ != b@);
        } else if i < a.len() || i < b.len() {
            assert(a@.len() != b@.len());
        }
    }
    if i < a.len() && i < b.len() {
        if a[i] < b[i] {
            -1
        } else {
            1
        }
    } else if i < a.len() {
        1
    } else if i < b.len() {
        -1
    } else {
        0
    }
}

/// The table merged from all workers: one entry per key, in ascending key order.
pub struct MergedTable {
    entries: Vec<(Vec<u8>, Metrics)>,
    records: u64,
}

impl View for MergedTable {
    type V = Map<Seq<u8>, Stats>;

    closed spec fn view(&self) -> Map<Seq<u8>, Stats> {
        fold_entries(Map::empty(), entries_view(self.entries@))
    }
}

impl MergedTable {
    /// The entries, in the order the table keeps them.
    pub closed spec fn listing(&self) -> Seq<(Seq<u8>, Stats)> {
        entries_view(self.entries@)
    }

    pub closed spec fn record_count(&self) -> nat {
        self.records as nat
    }

    /// Keys ascending, each entry well formed, and the counts adding up to
    /// the records taken in.
    pub closed spec fn wf(&self) -> bool {
        &&& sorted_keys(self.listing())
        &&& forall|i: int| 0 <= i < self.entries@.len() ==> (#[trigger] self.entries@[i]).1.wf() && self.entries@[i].1.count <= self.records
        &&& count_total(self.listing()) == self.records
    }

    /// What a valid table promises of its listing.
    pub proof fn lemma_wf(&self)
        requires
            self.wf(),
        ensures
            sorted_keys(self.listing()),
            lists(self.listing(), self@),
            count_total(self.listing()) == self.record_count(),
    {
        self.lemma_distinct();
    }

    proof fn lemma_distinct(&self)
        requires
            sorted_keys(self.listing()),
        ensures
            keys_distinct(self.listing()),
            lists(self.listing(), self@),
    {
        let es = self.listing();
        assert forall|i: int, j: int| 0 <= i < j < es.len() implies #[trigger] es[i].0 != #[trigger] es[j].0 by {
            lemma_key_lt_irreflexive(es[i].0);
        }
        lemma_distinct_lists(es);
    }

    pub fn new() -> (r: MergedTable)
        ensures
            r.wf(),
            r@ == Map::<Seq<u8>, Stats>::empty(),
            r.listing().len() == 0,
            r.record_count() == 0,
    {
        let r = MergedTable { entries: Vec::new(), records: 0 };
        assert(r.listing() == Seq::<(Seq<u8>, Stats)>::empty());
        r
    }

    /// Number of records taken in.
    pub fn records(&self) -> (r: u64)
        ensures
            r == self.record_count(),
    {
        self.records
    }

    /// Number of keys.
    pub fn len(&self) -> (r: usize)
        ensures
            r == self.listing().len(),
    {
        self.entries.len()
    }

    /// The entries in ascending key order.
    pub fn entries(&self) -> (r: &Vec<(Vec<u8>, Metrics)>)
        ensures
            entries_view(r@) == self.listing(),
    {
        &self.entries
    }

    /// The metrics of `key`, if the table holds it.
    pub fn get(&self, key: &[u8]) -> (r: Option<Metrics>)
        requires
            self.wf(),
        ensures
            r.is_some() == self@.contains_key(key@),
            r.is_some() ==> r.unwrap()@ == self@[key@] && r.unwrap().wf(),
    {
        proof {
            self.lemma_distinct();
        }
        let ghost es = self.listing();
        let mut i: usize = 0;
        while i < self.entries.len()
            invariant
                i <= self.entries@.len(),
                es == self.listing(),
                lists(es, self@),
                self.wf(),
                forall|j: int| 0 <= j < i ==> (#[trigger] es[j]).0 != key@,
            decreases self.entries@.len() - i,
        {
            if compare_keys(self.entries[i].0.as_slice(), key) == 0 {
                assert(self@.contains_key(es[i as int].0));
                assert(self.entries@[i as int].1.wf());
                return Some(self.entries[i].1);
            }
            i = i + 1;
        }
        proof {
            if self@.contains_key(key@) {
                let j = choose|j: int| 0 <= j < es.len() && es[j].0 == key@;
                assert(es[j].0 == key@);
            }
        }
        None
    }

    /// Folds one entry in by the merge rule.
    pub fn add_entry(&mut self, key: Vec<u8>, m: Metrics)
        requires
            old(self).wf(),
            m.wf(),
            old(self).record_count() + m.count <= u64::MAX,
        ensures
            final(self).wf(),
            final(self)@ == merge_entry(old(self)@, (key@, m@)),
            final(self).record_count() == old(self).record_count() + m.count,
    {
        proof {
            self.lemma_distinct();
        }
        let ghost es = self.listing();
        let mut lo: usize = 0;
        let mut hi: usize = self.entries.len();
        while lo < hi
            invariant
                0 <= lo <= hi <= self.entries@.len(),
                es == self.listing(),
                self.entries@ == old(self).entries@,
                self.records == old(self).records,
                self.wf(),
                old(self).record_count() + m.count <= u64::MAX,
                m.wf(),
                lists(es, old(self)@),
                sorted_keys(es),
                forall|i: int| 0 <= i < lo ==> key_lt(#[trigger] es[i].0, key@),
                forall|i: int| hi <= i < es.len() ==> key_lt(key@, #[trigger] es[i].0),
            decreases hi - lo,
        {
            let mid = lo + (hi - lo) / 2;
            let c = compare_keys(self.entries[mid].0.as_slice(), key.as_slice());
            assert(es[mid as int].0 == self.entries@[mid as int].0@);
            if c < 0 {
                assert forall|i: int| 0 <= i <= mid implies key_lt(#[trigger] es[i].0, key@) by {
                    if i < mid {
                        lemma_key_lt_transitive(es[i].0, es[mid as int].0, key@);
                    }
                }
                lo = mid + 1;
            } else if c > 0 {
                assert forall|i: int| mid <= i < es.len() implies key_lt(key@, #[trigger] es[i].0) by {
                    if i > mid {
                        lemma_key_lt_transitive(key@, es[mid as int].0, es[i].0);
                    }
                }
                hi = mid;
            } else {
                // the key is present: merge into its entry
                let mut cur = self.entries[mid].1;
                assert(self.entries@[mid as int].1.count <= self.records);
                cur.merge(&m);
                let ghost e = (key@, cur@);
                self.entries.set(mid, (key, cur));
                self.records = self.records + m.count;
                proof {
                    let ns = self.listing();
                    assert(ns == es.update(mid as int, e));
                    assert(sorted_keys(ns)) by {
                        assert forall|i: int, j: int| 0 <= i < j < ns.len() implies key_lt(#[trigger] ns[i].0, #[trigger] ns[j].0) by {
                            assert(ns[i].0 == es[i].0 && ns[j].0 == es[j].0);
                        }
                    }
                    assert forall|i: int| 0 <= i < self.entries@.len() implies (#[trigger] self.entries@[i]).1.wf() && self.entries@[i].1.count <= self.records by {
                        if i != mid {
                            assert(self.entries@[i] == old(self).entries@[i]);
                        }
                    }
                    crate::aggregate::lemma_count_update(es, mid as int, e);
                    self.lemma_distinct();
                    let target = merge_entry(old(self)@, (key@, m@));
                    assert(old(self)@.contains_key(es[mid as int].0));
                    assert(lists(ns, target)) by {
                        assert forall|i: int| 0 <= i < ns.len() implies #[trigger] target.contains_key(ns[i].0) && target[ns[i].0] == ns[i].1 by {
                            if i != mid {
                                assert(es[i].0 != es[mid as int].0);
                                assert(old(self)@.contains_key(es[i].0));
                            }
                        }
                        assert forall|k: Seq<u8>| #[trigger] target.contains_key(k) implies exists|i: int| 0 <= i < ns.len() && ns[i].0 == k by {
                            if k != key@ {
                                assert(old(self)@.contains_key(k));
                                let i = choose|i: int| 0 <= i < es.len() && es[i].0 == k;
                                assert(ns[i].0 == k);
                            } else {
                                assert(ns[mid as int].0 == k);
                            }
                        }
                    }
                    lemma_lists_unique(ns, self@, target);
                }
                return;
            }
        }
        let ghost e = (key@, m@);
        self.entries.insert(lo, (key, m));
        self.records = self.records + m.count;
        proof {
            let ns = self.listing();
            assert(ns == es.insert(lo as int, e));
            assert(sorted_keys(ns)) by {
                assert forall|i: int, j: int| 0 <= i < j < ns.len() implies key_lt(#[trigger] ns[i].0, #[trigger] ns[j].0) by {
                    if j < lo {
                        assert(ns[i] == es[i] && ns[j] == es[j]);
                    } else if j == lo {
                        assert(ns[i] == es[i]);
                    } else if i == lo {
                        assert(ns[j] == es[j - 1]);
                    } else if i < lo {
                        assert(ns[i] == es[i] && ns[j] == es[j - 1]);
                    } else {
                        assert(ns[i] == es[i - 1] && ns[j] == es[j - 1]);
                    }
                }
            }
            assert forall|i: int| 0 <= i < self.entries@.len() implies (#[trigger] self.entries@[i]).1.wf() && self.entries@[i].1.count <= self.records by {
                if i < lo {
                    assert(self.entries@[i] == old(self).entries@[i]);
                } else if i > lo {
                    assert(self.entries@[i] == old(self).entries@[i - 1]);
                }
            }
            crate::aggregate::lemma_count_insert(es, lo as int, e);
            self.lemma_distinct();
            let target = merge_entry(old(self)@, e);
            assert(!old(self)@.contains_key(key@)) by {
                if old(self)@.contains_key(key@) {
                    let i = choose|i: int| 0 <= i < es.len() && es[i].0 == key@;
                    lemma_key_lt_irreflexive(key@);
                }
            }
            assert(lists(ns, target)) by {
                assert forall|i: int| 0 <= i < ns.len() implies #[trigger] target.contains_key(ns[i].0) && target[ns[i].0] == ns[i].1 by {
                    if i < lo {
                        assert(ns[i] == es[i]);
                        assert(old(self)@.contains_key(es[i].0));
                    } else if i > lo {
                        assert(ns[i] == es[i - 1]);
                        assert(old(self)@.contains_key(es[i - 1].0));
                    }
                }
                assert forall|k: Seq<u8>| #[trigger] target.contains_key(k) implies exists|i: int| 0 <= i < ns.len() && ns[i].0 == k by {
                    if k != key@ {
                        assert(old(self)@.contains_key(k));
                        let i = choose|i: int| 0 <= i < es.len() && es[i].0 == k;
                        if i < lo {
                            assert(ns[i].0 == k);
                        } else {
                            assert(ns[i + 1].0 == k);
                        }
                    } else {
                        assert(ns[lo as int].0 == k);
                    }
                }
            }
            lemma_lists_unique(ns, self@, target);
        }
    }

    /// Merges a worker's table in.
    pub fn absorb(&mut self, table: WorkerTable)
        requires
            old(self).wf(),
            table.wf(),
            old(self).record_count() + table.record_count() <= u64::MAX,
        ensures
            final(self).wf(),
            final(self)@ == map_combine(old(self)@, table@),
            final(self).record_count() == old(self).record_count() + table.record_count(),
    {
        let ghost w = table@;
        let ghost total = table.record_count();
        let mut entries = table.into_entries();
        let ghost ev = entries_view(entries@);
        let ghost n = ev.len();
        let ghost mut done: Seq<(Seq<u8>, Stats)> = Seq::empty();
        while entries.len() > 0
            invariant
                self.wf(),
                done.len() + entries@.len() == n,
                n == ev.len(),
                entries_view(entries@) == ev.take(entries@.len() as int),
                forall|j: int| 0 <= j < done.len() ==> #[trigger] done[j] == ev[n - 1 - j],
                forall|i: int| 0 <= i < entries@.len() ==> (#[trigger] entries@[i]).1.wf(),
                self@ == fold_entries(old(self)@, done),
                self.record_count() == old(self).record_count() + count_total(done),
                count_total(done) + count_total(entries_view(entries@)) == total,
                old(self).record_count() + total <= u64::MAX,
            decreases entries@.len(),
        {
            let ghost before = entries_view(entries@);
            let (key, m) = entries.pop().unwrap();
            proof {
                assert(entries_view(entries@) == before.drop_last());
                assert(before.last() == (key@, m@));
                assert(entries_view(entries@) == ev.take(entries@.len() as int));
            }
            self.add_entry(key, m);
            proof {
                let old_done = done;
                done = done.push((key@, m@));
                assert(done.drop_last() == old_done);
            }
        }
        proof {
            assert(done == ev.reverse());
            ev.lemma_reverse_to_multiset();
            lemma_fold_permutation(old(self)@, done, ev);
            lemma_fold_lists(old(self)@, ev, w);
        }
    }
}

} // verus!

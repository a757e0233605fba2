use vstd::prelude::*;
use crate::aggregate::{count_total, fold_entries, lemma_count_step, lemma_lists_empty, lists, merge_entry};
use crate::decimal::parse_value;
use crate::lines::{
    has_no_newline, is_last_separator, lemma_split_append, lemma_split_terminated,
    lemma_split_unterminated, record_of, split_lines, strip_cr, CARRIAGE_RETURN, NEWLINE,
    SEPARATOR,
};
use crate::metrics::{single, value_in_range, Metrics, Stats};
use crate::StatsError;

verus! {

/// Per-key metrics in a hash map keyed by owned byte strings.
#[verifier::external_body]
pub struct KeyedMetrics {
    map: hashbrown::HashMap<Box<[u8]>, Metrics, ahash::RandomState>,
}

/// What a `KeyedMetrics` holds.
pub uninterp spec fn keyed_contents(t: KeyedMetrics) -> Map<Seq<u8>, Metrics>;

/// `s` lists `m`: each key once, each with its metrics.
pub open spec fn lists_metrics(s: Seq<(Vec<u8>, Metrics)>, m: Map<Seq<u8>, Metrics>) -> bool {
    &&& forall|i: int, j: int| 0 <= i < j < s.len() ==> #[trigger] s[i].0@ != #[trigger] s[j].0@
    &&& forall|i: int| 0 <= i < s.len() ==> #[trigger] m.contains_key(s[i].0@) && m[s[i].0@] == s[i].1
    &&& forall|k: Seq<u8>| #[trigger] m.contains_key(k) ==> exists|i: int| 0 <= i < s.len() && s[i].0@ == k
}

impl KeyedMetrics {
    /// Relies on hashbrown's `HashMap::with_hasher`: a new map is empty.
    #[verifier::external_body]
    fn new() -> (r: KeyedMetrics)
        ensures
            keyed_contents(r).dom() == Set::<Seq<u8>>::empty(),
    {
        KeyedMetrics { map: hashbrown::HashMap::with_hasher(ahash::RandomState::new()) }
    }

    /// Relies on hashbrown's `HashMap::entry_ref` with `EntryRef::and_modify`
    /// and `EntryRef::or_insert_with`: the metrics of a present key are updated
    /// in place, an absent key is inserted (as an owned copy) with fresh
    /// metrics, and no other entry changes.
    #[verifier::external_body]
    fn record(&mut self, key: &[u8], value: i64)
        requires
            value_in_range(value as int),
            keyed_contents(*old(self)).contains_key(key@) ==> keyed_contents(*old(self))[key@].can_take(value),
        ensures
            keyed_contents(*final(self)) == keyed_contents(*old(self)).insert(
                key@,
                if keyed_contents(*old(self)).contains_key(key@) {
                    keyed_contents(*old(self))[key@].updated(value)
                } else {
                    Metrics::fresh(value)
                },
            ),
    {
        self.map.entry_ref(key).and_modify(|m| m.update(value)).or_insert_with(|| Metrics::new(value));
    }

    /// Relies on hashbrown's `HashMap::into_iter`: it yields each entry once,
    /// in an order that nothing fixes.
    #[verifier::external_body]
    fn into_entries(self) -> (r: Vec<(Vec<u8>, Metrics)>)
        ensures
            lists_metrics(r@, keyed_contents(self)),
    {
        self.map.into_iter().map(|(k, m)| (k.into_vec(), m)).collect()
    }
}

pub open spec fn stats_map(m: Map<Seq<u8>, Metrics>) -> Map<Seq<u8>, Stats> {
    m.map_values(|x: Metrics| x@)
}

pub open spec fn entries_view(s: Seq<(Vec<u8>, Metrics)>) -> Seq<(Seq<u8>, Stats)> {
    s.map_values(|e: (Vec<u8>, Metrics)| (e.0@, e.1@))
}

/// The entry a valid line contributes: its key with the statistics of its value.
pub open spec fn line_entry(line: Seq<u8>) -> (Seq<u8>, Stats) {
    let r = record_of(line).unwrap();
    (r.0, single(r.1))
}

pub open spec fn line_entries(lines: Seq<Seq<u8>>) -> Seq<(Seq<u8>, Stats)> {
    lines.map_values(|l: Seq<u8>| line_entry(l))
}

/// Every line has a record.
pub open spec fn lines_valid(lines: Seq<Seq<u8>>) -> bool {
    forall|i: int| 0 <= i < lines.len() ==> (#[trigger] record_of(lines[i])).is_some()
}

proof fn lemma_last_separator_unique(line: Seq<u8>, j: int)
    requires
        is_last_separator(line, j),
    ensures
        forall|k: int| is_last_separator(line, k) ==> k == j,
{
}

/// One worker's table: per-key metrics and the number of records taken in.
pub struct WorkerTable {
    keyed: KeyedMetrics,
    records: u64,
}

impl View for WorkerTable {
    type V = Map<Seq<u8>, Stats>;

    closed spec fn view(&self) -> Map<Seq<u8>, Stats> {
        stats_map(keyed_contents(self.keyed))
    }
}

impl WorkerTable {
    /// Every entry is well formed and counts no more than the records taken
    /// in; the counts of all entries add up to those records.
    pub closed spec fn wf(&self) -> bool {
        &&& forall|k: Seq<u8>| #[trigger] keyed_contents(self.keyed).contains_key(k) ==> {
            &&& keyed_contents(self.keyed)[k].wf()
            &&& keyed_contents(self.keyed)[k].count <= self.records
        }
        &&& forall|es: Seq<(Seq<u8>, Stats)>| #[trigger] lists(es, self@) ==> count_total(es) == self.records
    }

    pub closed spec fn record_count(&self) -> nat {
        self.records as nat
    }

    pub fn new() -> (r: WorkerTable)
        ensures
            r.wf(),
            r@ == Map::<Seq<u8>, Stats>::empty(),
            r.record_count() == 0,
    {
        let r = WorkerTable { keyed: KeyedMetrics::new(), records: 0 };
        assert(keyed_contents(r.keyed).dom() =~= Set::<Seq<u8>>::empty());
        assert(r@ =~= Map::<Seq<u8>, Stats>::empty());
        assert forall|es: Seq<(Seq<u8>, Stats)>| #[trigger] lists(es, r@) implies count_total(es) == 0 by {
            lemma_lists_empty(es);
        }
        r
    }

    pub proof fn lemma_record_count_bound(&self)
        ensures
            self.record_count() <= u64::MAX,
    {
    }

    /// Number of records taken in.
    pub fn records(&self) -> (r: u64)
        ensures
            r == self.record_count(),
    {
        self.records
    }

    /// Takes in one record.
    pub fn record(&mut self, key: &[u8], value: i64)
        requires
            old(self).wf(),
            value_in_range(value as int),
            old(self).record_count() < u64::MAX,
        ensures
            final(self).wf(),
            final(self)@ == merge_entry(old(self)@, (key@, single(value as int))),
            final(self).record_count() == old(self).record_count() + 1,
    {
        let ghost before = keyed_contents(self.keyed);
        proof {
            if before.contains_key(key@) {
                before[key@].lemma_updated(value);
            }
            Metrics::lemma_fresh(value);
        }
        self.keyed.record(key, value);
        self.records = self.records + 1;
        assert(self@ =~= merge_entry(old(self)@, (key@, single(value as int))));
        assert forall|es: Seq<(Seq<u8>, Stats)>| #[trigger] lists(es, self@) implies count_total(es) == self.records by {
            let es2 = lemma_count_step(old(self)@, (key@, single(value as int)), es);
        }
    }

    /// The entries of the table, each key once, in no fixed order.
    pub fn into_entries(self) -> (r: Vec<(Vec<u8>, Metrics)>)
        requires
            self.wf(),
        ensures
            lists(entries_view(r@), self@),
            count_total(entries_view(r@)) == self.record_count(),
            forall|i: int| 0 <= i < r@.len() ==> (#[trigger] r@[i]).1.wf() && r@[i].1.count <= self.record_count(),
    {
        let ghost contents = keyed_contents(self.keyed);
        let r = self.keyed.into_entries();
        proof {
            let ev = entries_view(r@);
            assert forall|i: int| 0 <= i < r@.len() implies (#[trigger] r@[i]).1.wf() && r@[i].1.count
                <= self.record_count() by {
                assert(contents.contains_key(r@[i].0@));
            }
            assert forall|i: int| 0 <= i < ev.len() implies #[trigger] self@.contains_key(ev[i].0) && self@[ev[i].0]
                == ev[i].1 by {
                assert(contents.contains_key(r@[i].0@));
            }
            assert forall|k: Seq<u8>| #[trigger] self@.contains_key(k) implies exists|i: int|
                0 <= i < ev.len() && ev[i].0 == k by {
                assert(contents.contains_key(k));
                let i = choose|i: int| 0 <= i < r@.len() && r@[i].0@ == k;
                assert(ev[i].0 == k);
            }
            assert forall|i: int, j: int| 0 <= i < j < ev.len() implies #[trigger] ev[i].0 != #[trigger] ev[j].0 by {
                assert(r@[i].0@ != r@[j].0@);
            }
        }
        r
    }

    /// Takes in the line `chunk[start..end]`, whose last separator (if any)
    /// is at `sep`.
    fn take_line(&mut self, chunk: &[u8], start: usize, end: usize, sep: Option<usize>) -> (r: Result<(), StatsError>)
        requires
            old(self).wf(),
            old(self).record_count() < u64::MAX,
            start <= end <= chunk@.len(),
            match sep {
                Some(j) => start <= j < end && is_last_separator(chunk@.subrange(start as int, end as int), j - start),
                None => forall|k: int| start <= k < end ==> #[trigger] chunk@[k] != SEPARATOR,
            },
        ensures
            final(self).wf(),
            ({
                let line = chunk@.subrange(start as int, end as int);
                match record_of(line) {
                    Some(_) => {
                        &&& r is Ok
                        &&& final(self)@ == merge_entry(old(self)@, line_entry(line))
                        &&& final(self).record_count() == old(self).record_count() + 1
                    },
                    None => {
                        &&& r == Err::<(), StatsError>(StatsError::MalformedRecord)
                        &&& final(self)@ == old(self)@
                        &&& final(self).record_count() == old(self).record_count()
                    },
                }
            }),
    {
        let ghost line = chunk@.subrange(start as int, end as int);
        match sep {
            None => {
                assert forall|j: int| !is_last_separator(line, j) by {
                    if 0 <= j < line.len() {
                        assert(line[j] == chunk@[start + j]);
                    }
                }
                Err(StatsError::MalformedRecord)
            },
            Some(j) => {
                proof {
                    lemma_last_separator_unique(line, j - start);
                }
                let mut value_end = end;
                if value_end > j + 1 && chunk[value_end - 1] == CARRIAGE_RETURN {
                    value_end = value_end - 1;
                }
                let text = &chunk[j + 1..value_end];
                assert(text@ == strip_cr(line.subrange(j - start + 1, line.len() as int)));
                match parse_value(text) {
                    None => Err(StatsError::MalformedRecord),
                    Some(v) => {
                        let key = &chunk[start..j];
                        assert(key@ == line.subrange(0, j - start));
                        self.record(key, v);
                        Ok(())
                    },
                }
            },
        }
    }

    /// Takes in every line of a chunk, first to last; stops at the first line
    /// without a record.
    pub fn add_chunk(&mut self, chunk: &[u8]) -> (r: Result<(), StatsError>)
        requires
            old(self).wf(),
            old(self).record_count() + chunk@.len() <= u64::MAX,
        ensures
            final(self).wf(),
            ({
                let lines = split_lines(chunk@);
                match r {
                    Ok(()) => {
                        &&& lines_valid(lines)
                        &&& final(self)@ == fold_entries(old(self)@, line_entries(lines))
                        &&& final(self).record_count() == old(self).record_count() + lines.len()
                    },
                    Err(e) => {
                        &&& e == StatsError::MalformedRecord
                        &&& exists|i: int|
                            0 <= i < lines.len() && (#[trigger] record_of(lines[i])).is_none() && lines_valid(lines.take(i))
                                && final(self)@ == fold_entries(old(self)@, line_entries(lines.take(i)))
                    },
                }
            }),
    {
        let n = chunk.len();
        let ghost s = chunk@;
        let mut start: usize = 0;
        let mut sep: Option<usize> = None;
        let mut idx: usize = 0;
        proof {
            assert(s.subrange(0, 0) == Seq::<u8>::empty());
            assert(line_entries(split_lines(Seq::<u8>::empty())) == Seq::<(Seq<u8>, Stats)>::empty());
        }
        while idx < n
            invariant
                n == s.len(),
                s == chunk@,
                start <= idx <= n,
                start == 0 || s[start - 1] == NEWLINE,
                has_no_newline(s.subrange(start as int, idx as int)),
                match sep {
                    Some(j) => start <= j < idx && is_last_separator(s.subrange(start as int, idx as int), j - start),
                    None => forall|k: int| start <= k < idx ==> #[trigger] s[k] != SEPARATOR,
                },
                self.wf(),
                old(self).record_count() + n <= u64::MAX,
                self.record_count() == old(self).record_count() + split_lines(s.subrange(0, start as int)).len(),
                split_lines(s.subrange(0, start as int)).len() <= start,
                lines_valid(split_lines(s.subrange(0, start as int))),
                self@ == fold_entries(old(self)@, line_entries(split_lines(s.subrange(0, start as int)))),
            decreases n - idx,
        {
            let b = chunk[idx];
            if b == SEPARATOR {
                sep = Some(idx);
                idx = idx + 1;
                assert(is_last_separator(s.subrange(start as int, idx as int), idx - 1 - start));
                assert(has_no_newline(s.subrange(start as int, idx as int))) by {
                    assert forall|k: int| 0 <= k < idx - start implies #[trigger] s.subrange(start as int, idx as int)[k] != NEWLINE by {
                        if k < idx - 1 - start {
                            assert(s.subrange(start as int, idx - 1)[k] == s[start + k]);
                        }
                    }
                }
            } else if b == NEWLINE {
                let ghost prefix = s.subrange(0, start as int);
                let ghost line = s.subrange(start as int, idx as int);
                let ghost before = self@;
                let res = self.take_line(chunk, start, idx, sep);
                proof {
                    lemma_split_append(prefix, line.push(NEWLINE));
                    lemma_split_terminated(line);
                    assert(prefix + line.push(NEWLINE) == s.subrange(0, idx + 1));
                    assert(split_lines(s.subrange(0, idx + 1)) == split_lines(prefix).push(line));
                    let pl = split_lines(prefix);
                    let nl = split_lines(s.subrange(0, idx + 1));
                    assert(nl.take(pl.len() as int) == pl);
                    assert(nl[pl.len() as int] == line);
                }
                if res.is_err() {
                    proof {
                        let pl = split_lines(prefix);
                        let nl = split_lines(s.subrange(0, idx + 1));
                        lemma_split_append(s.subrange(0, idx + 1), s.subrange(idx + 1, n as int));
                        assert(s.subrange(0, idx + 1) + s.subrange(idx + 1, n as int) == s);
                        let all = split_lines(s);
                        assert(all.take(pl.len() as int) == pl);
                        assert(all[pl.len() as int] == line);
                        assert(record_of(all[pl.len() as int]).is_none());
                    }
                    return res;
                }
                proof {
                    let pl = split_lines(prefix);
                    let nl = split_lines(s.subrange(0, idx + 1));
                    assert(line_entries(nl) == line_entries(pl).push(line_entry(line)));
                    assert(line_entries(nl).drop_last() == line_entries(pl));
                    assert forall|i: int| 0 <= i < nl.len() implies (#[trigger] record_of(nl[i])).is_some() by {
                        if i < pl.len() {
                            assert(nl[i] == pl[i]);
                        }
                    }
                }
                start = idx + 1;
                sep = None;
                idx = idx + 1;
                assert(s.subrange(start as int, idx as int) == Seq::<u8>::empty());
            } else {
                idx = idx + 1;
                assert(has_no_newline(s.subrange(start as int, idx as int))) by {
                    assert forall|k: int| 0 <= k < idx - start implies #[trigger] s.subrange(start as int, idx as int)[k] != NEWLINE by {
                        if k < idx - 1 - start {
                            assert(s.subrange(start as int, idx - 1)[k] == s[start + k]);
                        }
                    }
                }
                match sep {
                    Some(j) => {
                        assert forall|k: int| j - start < k < idx - start implies #[trigger] s.subrange(start as int, idx as int)[k] != SEPARATOR by {
                            if k < idx - 1 - start {
                                assert(s.subrange(start as int, idx - 1)[k] == s[start + k]);
                            }
                        }
                    },
                    None => {},
                }
            }
        }
        let ghost prefix = s.subrange(0, start as int);
        if start < n {
            let ghost line = s.subrange(start as int, n as int);
            let res = self.take_line(chunk, start, n, sep);
            proof {
                lemma_split_append(prefix, line);
                lemma_split_unterminated(line);
                assert(prefix + line == s);
                let pl = split_lines(prefix);
                let all = split_lines(s);
                assert(all == pl.push(line));
                assert(all.take(pl.len() as int) == pl);
                assert(all[pl.len() as int] == line);
                assert(line_entries(all).drop_last() == line_entries(pl));
                if res.is_ok() {
                    assert forall|i: int| 0 <= i < all.len() implies (#[trigger] record_of(all[i])).is_some() by {
                        if i < pl.len() {
                            assert(all[i] == pl[i]);
                        }
                    }
                }
            }
            res
        } else {
            assert(prefix == s);
            Ok(())
        }
    }
}

} // verus!

use vstd::prelude::*;
use crate::aggregate::{fold_entries, lemma_fold_append, map_combine};
use crate::chunk::ChunkReader;
use crate::lines::{
    ends_at_line_boundary, has_no_newline, lemma_first_line_covers, lemma_split_append, lemma_split_len,
    lemma_split_line_lengths, record_of, split_lines,
};
use crate::merged::MergedTable;
use crate::metrics::Stats;
use crate::worker::{line_entries, lines_valid, WorkerTable};
use crate::StatsError;

verus! {

/// The table of a whole input: every line's record folded in, first to last.
pub open spec fn summary(input: Seq<u8>) -> Map<Seq<u8>, Stats> {
    fold_entries(Map::empty(), line_entries(split_lines(input)))
}

/// What stops a run at this line, if anything: a line that does not fit in
/// the buffer, or one without a record.
pub open spec fn line_fault(line: Seq<u8>, capacity: nat) -> Option<StatsError> {
    if line.len() >= capacity {
        Some(StatsError::OversizedRecord)
    } else if record_of(line).is_none() {
        Some(StatsError::MalformedRecord)
    } else {
        None
    }
}

/// No line stops a run.
pub open spec fn no_fault(lines: Seq<Seq<u8>>, capacity: nat) -> bool {
    forall|i: int| 0 <= i < lines.len() ==> (#[trigger] line_fault(lines[i], capacity)) is None
}

/// `e` is what stops the first line that stops a run.
pub open spec fn first_fault(lines: Seq<Seq<u8>>, capacity: nat, e: StatsError) -> bool {
    exists|i: int| 0 <= i < lines.len() && line_fault(lines[i], capacity) == Some(e) && no_fault(lines.take(i), capacity)
}

proof fn lemma_line_entries_append(a: Seq<Seq<u8>>, b: Seq<Seq<u8>>)
    ensures
        line_entries(a + b) == line_entries(a) + line_entries(b),
{
    assert(line_entries(a + b) =~= line_entries(a) + line_entries(b));
}

/// A fault at line `i` of `b` is the first fault of `a + b`.
proof fn lemma_fault_after(a: Seq<Seq<u8>>, b: Seq<Seq<u8>>, i: int, capacity: nat, e: StatsError)
    requires
        no_fault(a, capacity),
        0 <= i < b.len(),
        line_fault(b[i], capacity) == Some(e),
        no_fault(b.take(i), capacity),
    ensures
        first_fault(a + b, capacity, e),
{
    let ab = a + b;
    let k = a.len() + i;
    assert(ab[k] == b[i]);
    assert forall|j: int| 0 <= j < ab.take(k).len() implies (#[trigger] line_fault(ab.take(k)[j], capacity)) is None by {
        if j < a.len() {
            assert(ab.take(k)[j] == a[j]);
        } else {
            assert(ab.take(k)[j] == b.take(i)[j - a.len()]);
        }
    }
}

/// Every line of `c` is shorter than `capacity`.
pub open spec fn lines_fit(c: Seq<u8>, capacity: nat) -> bool {
    forall|j: int| 0 <= j < split_lines(c).len() ==> (#[trigger] split_lines(c)[j]).len() < capacity
}

/// A buffer full of bytes without terminator starts a line that stops the run.
proof fn lemma_oversized(emitted: Seq<u8>, rest: Seq<u8>, v: Seq<u8>, cap: nat)
    requires
        ends_at_line_boundary(emitted),
        no_fault(split_lines(emitted), cap),
        v.len() == cap,
        cap > 0,
        v.len() <= rest.len(),
        rest.subrange(0, v.len() as int) == v,
        has_no_newline(v),
    ensures
        first_fault(split_lines(emitted + rest), cap, StatsError::OversizedRecord),
{
    lemma_split_append(emitted, rest);
    lemma_first_line_covers(rest, v);
    assert(split_lines(rest).take(0).len() == 0);
    lemma_fault_after(split_lines(emitted), split_lines(rest), 0, cap, StatsError::OversizedRecord);
}

/// A line without record in a chunk of short lines stops the run.
proof fn lemma_chunk_fault(emitted: Seq<u8>, c: Seq<u8>, after: Seq<u8>, cap: nat, i: int)
    requires
        ends_at_line_boundary(emitted),
        ends_at_line_boundary(c) || after.len() == 0,
        no_fault(split_lines(emitted), cap),
        lines_fit(c, cap),
        0 <= i < split_lines(c).len(),
        record_of(split_lines(c)[i]).is_none(),
        lines_valid(split_lines(c).take(i)),
    ensures
        first_fault(split_lines(emitted + c + after), cap, StatsError::MalformedRecord),
{
    let lc = split_lines(c);
    let la = split_lines(after);
    if after.len() == 0 {
        assert(c + after == c);
        assert(la == Seq::<Seq<u8>>::empty());
    } else {
        lemma_split_append(c, after);
    }
    assert(split_lines(c + after) == lc + la);
    lemma_split_append(emitted, c + after);
    assert(emitted + c + after == emitted + (c + after));
    assert forall|j: int| 0 <= j < lc.take(i).len() implies (#[trigger] line_fault(lc.take(i)[j], cap)) is None by {
        assert(lc.take(i)[j] == lc[j]);
        assert(record_of(lc.take(i)[j]).is_some());
    }
    assert((lc + la)[i] == lc[i]);
    assert((lc + la).take(i) == lc.take(i));
    lemma_fault_after(split_lines(emitted), lc + la, i, cap, StatsError::MalformedRecord);
}

/// Taking in a chunk of short, valid lines extends the lines taken in so far.
proof fn lemma_chunk_ok(emitted: Seq<u8>, c: Seq<u8>, cap: nat)
    requires
        ends_at_line_boundary(emitted),
        no_fault(split_lines(emitted), cap),
        lines_valid(split_lines(emitted)),
        lines_valid(split_lines(c)),
        lines_fit(c, cap),
    ensures
        split_lines(emitted + c) == split_lines(emitted) + split_lines(c),
        no_fault(split_lines(emitted + c), cap),
        lines_valid(split_lines(emitted + c)),
        fold_entries(fold_entries(Map::empty(), line_entries(split_lines(emitted))), line_entries(split_lines(c)))
            == fold_entries(Map::empty(), line_entries(split_lines(emitted + c))),
{
    let le = split_lines(emitted);
    let lc = split_lines(c);
    lemma_split_append(emitted, c);
    lemma_line_entries_append(le, lc);
    lemma_fold_append(Map::empty(), line_entries(le), line_entries(lc));
    assert forall|j: int| 0 <= j < (le + lc).len() implies (#[trigger] record_of((le + lc)[j])).is_some() by {
        if j >= le.len() {
            assert((le + lc)[j] == lc[j - le.len()]);
        } else {
            assert((le + lc)[j] == le[j]);
        }
    }
    assert forall|j: int| 0 <= j < (le + lc).len() implies (#[trigger] line_fault((le + lc)[j], cap)) is None by {
        if j >= le.len() {
            assert((le + lc)[j] == lc[j - le.len()]);
            assert(record_of(lc[j - le.len()]).is_some());
        } else {
            assert((le + lc)[j] == le[j]);
        }
    }
}

/// Reads `input` through a buffer of `buffer_capacity` bytes, aggregates
/// its lines chunk by chunk and returns the merged table. Fails at the first
/// line that does not fit in the buffer or has no record.
pub fn summarize(input: &[u8], buffer_capacity: usize) -> (r: Result<MergedTable, StatsError>)
    requires
        buffer_capacity > 0,
    ensures
        ({
            let lines = split_lines(input@);
            match r {
                Ok(t) => {
                    &&& no_fault(lines, buffer_capacity as nat)
                    &&& t.wf()
                    &&& t@ == summary(input@)
                    &&& t.record_count() == lines.len()
                },
                Err(e) => first_fault(lines, buffer_capacity as nat, e),
            }
        }),
{
    let ghost cap = buffer_capacity as nat;
    let ghost s = input@;
    let n = input.len();
    let mut reader = ChunkReader::new(buffer_capacity);
    let mut table = WorkerTable::new();
    let mut pos: usize = 0;
    let ghost mut emitted: Seq<u8> = Seq::empty();
    proof {
        assert(split_lines(emitted) == Seq::<Seq<u8>>::empty());
        assert(line_entries(split_lines(emitted)) == Seq::<(Seq<u8>, Stats)>::empty());
        assert(s.subrange(0, 0) == emitted + reader.pending());
    }
    while pos < n
        invariant
            s == input@,
            n == s.len(),
            cap == buffer_capacity,
            reader.wf(),
            reader.spec_capacity() == cap,
            table.wf(),
            pos <= n,
            s.subrange(0, pos as int) == emitted + reader.pending(),
            ends_at_line_boundary(emitted),
            table@ == fold_entries(Map::empty(), line_entries(split_lines(emitted))),
            table.record_count() == split_lines(emitted).len(),
            lines_valid(split_lines(emitted)),
            no_fault(split_lines(emitted), cap),
        decreases n - pos,
    {
        let spare = reader.spare();
        let take = if n - pos < spare { n - pos } else { spare };
        let data = &input[pos..pos + take];
        let ghost pending = reader.pending();
        let ghost v = pending + data@;
        proof {
            assert(s.subrange(0, pos as int).len() == emitted.len() + pending.len());
            assert(s.subrange(0, pos + take) =~= s.subrange(0, pos as int) + data@);
            assert((emitted + pending) + data@ =~= emitted + v);
            assert forall|j: int| 0 <= j < emitted.len() + v.len() implies #[trigger] s[j] == (emitted + v)[j] by {
                assert(s.subrange(0, pos + take)[j] == (emitted + v)[j]);
            }
        }
        match reader.feed(data) {
            Err(e) => {
                proof {
                    let rest = s.subrange(emitted.len() as int, n as int);
                    assert(s =~= emitted + rest);
                    assert(rest.subrange(0, v.len() as int) =~= v);
                    lemma_oversized(emitted, rest, v, cap);
                }
                return Err(e);
            },
            Ok(None) => {
                proof {
                    assert(s.subrange(0, pos + take) =~= emitted + reader.pending());
                }
            },
            Ok(Some(chunk)) => {
                let ghost c = chunk@;
                proof {
                    lemma_split_len(emitted);
                    lemma_split_line_lengths(c);
                    assert(emitted + v =~= (emitted + c) + reader.pending());
                }
                let ghost before = table@;
                let res = table.add_chunk(chunk.as_slice());
                match res {
                    Err(e) => {
                        proof {
                            let lc = split_lines(c);
                            let i = choose|i: int| 0 <= i < lc.len() && (#[trigger] record_of(lc[i])).is_none() && lines_valid(lc.take(i))
                                && table@ == fold_entries(before, line_entries(lc.take(i)));
                            let after = s.subrange((emitted.len() + c.len()) as int, n as int);
                            assert(emitted + c + after =~= s);
                            lemma_chunk_fault(emitted, c, after, cap, i);
                        }
                        return Err(e);
                    },
                    Ok(()) => {
                        proof {
                            lemma_chunk_ok(emitted, c, cap);
                            emitted = emitted + c;
                            assert(s.subrange(0, pos + take) =~= emitted + reader.pending());
                        }
                    },
                }
            },
        }
        pos = pos + take;
    }
    proof {
        assert(s.subrange(0, n as int) == s);
    }
    match reader.finish() {
        Some(last) => {
            let ghost c = last@;
            proof {
                lemma_split_len(emitted);
                lemma_split_line_lengths(c);
            }
            let ghost before = table@;
            match table.add_chunk(last.as_slice()) {
                Err(e) => {
                    proof {
                        let lc = split_lines(c);
                        let i = choose|i: int| 0 <= i < lc.len() && (#[trigger] record_of(lc[i])).is_none() && lines_valid(lc.take(i))
                            && table@ == fold_entries(before, line_entries(lc.take(i)));
                        assert(emitted + c + Seq::<u8>::empty() =~= s);
                        lemma_chunk_fault(emitted, c, Seq::<u8>::empty(), cap, i);
                    }
                    return Err(e);
                },
                Ok(()) => {
                    proof {
                        lemma_chunk_ok(emitted, c, cap);
                    }
                },
            }
        },
        None => {
            assert(emitted == s);
        },
    }
    proof {
        table.lemma_record_count_bound();
    }
    let mut merged = MergedTable::new();
    merged.absorb(table);
    assert(map_combine(Map::empty(), table@) =~= table@);
    Ok(merged)
}

} // verus!

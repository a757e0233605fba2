use vstd::prelude::*;
use crate::aggregate::{
    count_total, fold_entries, lemma_count_preserved, lemma_fold_append, lemma_fold_combine,
    lemma_fold_permutation, lists, map_combine,
};
use crate::lines::{ends_at_line_boundary, lemma_final_terminator_optional, lemma_split_append, split_lines, NEWLINE};
use crate::merged::{lemma_key_lt_asymmetric, key_lt, sorted_keys, MergedTable};
use crate::metrics::Stats;
use crate::pipeline::summary;
use crate::worker::{line_entries, lines_valid};

verus! {

proof fn lemma_line_entries_count(lines: Seq<Seq<u8>>)
    ensures
        count_total(line_entries(lines)) == lines.len(),
    decreases lines.len(),
{
    if lines.len() > 0 {
        assert(line_entries(lines).drop_last() == line_entries(lines.drop_last()));
        lemma_line_entries_count(lines.drop_last());
    }
}

/// The counts of a table's entries add up to the number of lines of its input.
pub proof fn lemma_counts_sum_to_lines(input: Seq<u8>, t: MergedTable)
    requires
        lines_valid(split_lines(input)),
        t.wf(),
        t@ == summary(input),
    ensures
        count_total(t.listing()) == split_lines(input).len(),
{
    t.lemma_wf();
    lemma_count_preserved(line_entries(split_lines(input)), t.listing());
    lemma_line_entries_count(split_lines(input));
}

/// Folding entries in any order gives the same table: `b` is any
/// rearrangement of `a`.
pub proof fn lemma_merge_order_independent(m: Map<Seq<u8>, Stats>, a: Seq<(Seq<u8>, Stats)>, b: Seq<(Seq<u8>, Stats)>)
    requires
        a.to_multiset() == b.to_multiset(),
    ensures
        fold_entries(m, a) == fold_entries(m, b),
{
    lemma_fold_permutation(m, a, b);
}

/// Merging two worker tables into a table in either order gives the same table.
pub proof fn lemma_absorb_order_independent(m: Map<Seq<u8>, Stats>, w1: Map<Seq<u8>, Stats>, w2: Map<Seq<u8>, Stats>)
    ensures
        map_combine(map_combine(m, w1), w2) == map_combine(map_combine(m, w2), w1),
{
    assert(map_combine(map_combine(m, w1), w2) =~= map_combine(map_combine(m, w2), w1));
}

proof fn lemma_lists_drop_first(a: Seq<(Seq<u8>, Stats)>, m: Map<Seq<u8>, Stats>)
    requires
        lists(a, m),
        a.len() > 0,
    ensures
        lists(a.drop_first(), m.remove(a[0].0)),
{
    let r = a.drop_first();
    let m2 = m.remove(a[0].0);
    assert forall|i: int| 0 <= i < r.len() implies #[trigger] m2.contains_key(r[i].0) && m2[r[i].0] == r[i].1 by {
        assert(r[i] == a[i + 1]);
        assert(a[0].0 != a[i + 1].0);
        assert(m.contains_key(a[i + 1].0));
    }
    assert forall|k: Seq<u8>| #[trigger] m2.contains_key(k) implies exists|i: int| 0 <= i < r.len() && r[i].0 == k by {
        assert(m.contains_key(k));
        let i = choose|i: int| 0 <= i < a.len() && a[i].0 == k;
        assert(r[i - 1] == a[i]);
    }
    assert forall|i: int, j: int| 0 <= i < j < r.len() implies #[trigger] r[i].0 != #[trigger] r[j].0 by {
        assert(a[i + 1].0 != a[j + 1].0);
    }
}

proof fn lemma_sorted_listing_unique(a: Seq<(Seq<u8>, Stats)>, b: Seq<(Seq<u8>, Stats)>, m: Map<Seq<u8>, Stats>)
    requires
        sorted_keys(a),
        sorted_keys(b),
        lists(a, m),
        lists(b, m),
    ensures
        a == b,
    decreases a.len(),
{
    if a.len() == 0 {
        if b.len() > 0 {
            assert(m.contains_key(b[0].0));
        }
        assert(a =~= b);
    } else {
        assert(m.contains_key(a[0].0));
        let j = choose|j: int| 0 <= j < b.len() && b[j].0 == a[0].0;
        assert(m.contains_key(b[0].0));
        let i = choose|i: int| 0 <= i < a.len() && a[i].0 == b[0].0;
        if i > 0 && j > 0 {
            assert(key_lt(a[0].0, a[i].0));
            assert(key_lt(b[0].0, b[j].0));
            lemma_key_lt_asymmetric(a[0].0, b[0].0);
        }
        assert(a[0].0 == b[0].0);
        assert(a[0] == b[0]);
        lemma_lists_drop_first(a, m);
        lemma_lists_drop_first(b, m);
        assert(sorted_keys(a.drop_first())) by {
            assert forall|x: int, y: int| 0 <= x < y < a.drop_first().len() implies key_lt(#[trigger] a.drop_first()[x].0, #[trigger] a.drop_first()[y].0) by {
                assert(key_lt(a[x + 1].0, a[y + 1].0));
            }
        }
        assert(sorted_keys(b.drop_first())) by {
            assert forall|x: int, y: int| 0 <= x < y < b.drop_first().len() implies key_lt(#[trigger] b.drop_first()[x].0, #[trigger] b.drop_first()[y].0) by {
                assert(key_lt(b[x + 1].0, b[y + 1].0));
            }
        }
        lemma_sorted_listing_unique(a.drop_first(), b.drop_first(), m.remove(a[0].0));
        assert(a =~= b) by {
            assert forall|k: int| 0 <= k < a.len() implies a[k] == b[k] by {
                if k > 0 {
                    assert(a[k] == a.drop_first()[k - 1]);
                    assert(b[k] == b.drop_first()[k - 1]);
                }
            }
        }
    }
}

/// Two tables with the same contents list them identically, in the same
/// order: a run's result depends on its input alone.
pub proof fn lemma_listing_determined(t1: MergedTable, t2: MergedTable)
    requires
        t1.wf(),
        t2.wf(),
        t1@ == t2@,
    ensures
        t1.listing() == t2.listing(),
{
    t1.lemma_wf();
    t2.lemma_wf();
    lemma_sorted_listing_unique(t1.listing(), t2.listing(), t1@);
}

/// Taking in an input as two pieces, cut at a line boundary, gives the table
/// of the whole input.
pub proof fn lemma_chunk_boundary(a: Seq<u8>, b: Seq<u8>)
    requires
        ends_at_line_boundary(a),
    ensures
        fold_entries(summary(a), line_entries(split_lines(b))) == summary(a + b),
{
    lemma_split_append(a, b);
    assert(line_entries(split_lines(a) + split_lines(b)) =~= line_entries(split_lines(a)) + line_entries(split_lines(b)));
    lemma_fold_append(Map::empty(), line_entries(split_lines(a)), line_entries(split_lines(b)));
}

/// A last line without terminator counts as it would with one.
pub proof fn lemma_final_line_counts(input: Seq<u8>)
    requires
        input.len() > 0,
        input.last() != NEWLINE,
    ensures
        split_lines(input.push(NEWLINE)) == split_lines(input),
        summary(input.push(NEWLINE)) == summary(input),
{
    lemma_final_terminator_optional(input);
}

/// The entries of all parts, part after part.
pub open spec fn concat_parts(parts: Seq<Seq<(Seq<u8>, Stats)>>) -> Seq<(Seq<u8>, Stats)>
    decreases parts.len(),
{
    if parts.len() == 0 {
        Seq::empty()
    } else {
        concat_parts(parts.drop_last()) + parts.last()
    }
}

/// The worker tables of the parts, merged one after another into an empty table.
pub open spec fn merge_parts(parts: Seq<Seq<(Seq<u8>, Stats)>>) -> Map<Seq<u8>, Stats>
    decreases parts.len(),
{
    if parts.len() == 0 {
        Map::empty()
    } else {
        map_combine(merge_parts(parts.drop_last()), fold_entries(Map::empty(), parts.last()))
    }
}

proof fn lemma_merge_parts_concat(parts: Seq<Seq<(Seq<u8>, Stats)>>)
    ensures
        merge_parts(parts) == fold_entries(Map::empty(), concat_parts(parts)),
    decreases parts.len(),
{
    if parts.len() > 0 {
        let rest = parts.drop_last();
        lemma_merge_parts_concat(rest);
        lemma_fold_combine(merge_parts(rest), parts.last());
        lemma_fold_append(Map::empty(), concat_parts(rest), parts.last());
    }
}

/// However the entries are dealt out to workers, and in whatever order the
/// workers' tables are merged, the result is the table of all entries.
pub proof fn lemma_worker_assignment_irrelevant(parts: Seq<Seq<(Seq<u8>, Stats)>>, all: Seq<(Seq<u8>, Stats)>)
    requires
        concat_parts(parts).to_multiset() == all.to_multiset(),
    ensures
        merge_parts(parts) == fold_entries(Map::empty(), all),
{
    lemma_merge_parts_concat(parts);
    lemma_fold_permutation(Map::empty(), concat_parts(parts), all);
}

} // verus!

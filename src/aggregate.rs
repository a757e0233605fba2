use vstd::prelude::*;
use crate::metrics::{combine, Stats};

verus! {

/// Folds one keyed entry into a table: a new key takes the entry as it is,
/// a present key takes the combination of both.
pub open spec fn merge_entry(m: Map<Seq<u8>, Stats>, e: (Seq<u8>, Stats)) -> Map<Seq<u8>, Stats> {
    if m.contains_key(e.0) {
        m.insert(e.0, combine(m[e.0], e.1))
    } else {
        m.insert(e.0, e.1)
    }
}

/// Folds the entries into `m`, first to last.
pub open spec fn fold_entries(m: Map<Seq<u8>, Stats>, es: Seq<(Seq<u8>, Stats)>) -> Map<Seq<u8>, Stats>
    decreases es.len(),
{
    if es.len() == 0 {
        m
    } else {
        merge_entry(fold_entries(m, es.drop_last()), es.last())
    }
}

/// Two tables merged key by key.
pub open spec fn map_combine(a: Map<Seq<u8>, Stats>, b: Map<Seq<u8>, Stats>) -> Map<Seq<u8>, Stats> {
    Map::new(
        |k: Seq<u8>| a.contains_key(k) || b.contains_key(k),
        |k: Seq<u8>|
            if a.contains_key(k) && b.contains_key(k) {
                combine(a[k], b[k])
            } else if a.contains_key(k) {
                a[k]
            } else {
                b[k]
            },
    )
}

pub open spec fn keys_distinct(es: Seq<(Seq<u8>, Stats)>) -> bool {
    forall|i: int, j: int| 0 <= i < j < es.len() ==> #[trigger] es[i].0 != #[trigger] es[j].0
}

/// `es` lists the table `m`: each key once, each with its statistics.
pub open spec fn lists(es: Seq<(Seq<u8>, Stats)>, m: Map<Seq<u8>, Stats>) -> bool {
    &&& keys_distinct(es)
    &&& forall|i: int| 0 <= i < es.len() ==> #[trigger] m.contains_key(es[i].0) && m[es[i].0] == es[i].1
    &&& forall|k: Seq<u8>| #[trigger] m.contains_key(k) ==> exists|i: int| 0 <= i < es.len() && es[i].0 == k
}

/// The sum of the counts of the entries.
pub open spec fn count_total(es: Seq<(Seq<u8>, Stats)>) -> nat
    decreases es.len(),
{
    if es.len() == 0 {
        0
    } else {
        count_total(es.drop_last()) + es.last().1.count
    }
}

pub proof fn lemma_merge_entry_commute(m: Map<Seq<u8>, Stats>, x: (Seq<u8>, Stats), y: (Seq<u8>, Stats))
    ensures
        merge_entry(merge_entry(m, x), y) == merge_entry(merge_entry(m, y), x),
{
    assert(merge_entry(merge_entry(m, x), y) =~= merge_entry(merge_entry(m, y), x));
}

pub proof fn lemma_fold_append(m: Map<Seq<u8>, Stats>, a: Seq<(Seq<u8>, Stats)>, b: Seq<(Seq<u8>, Stats)>)
    ensures
        fold_entries(m, a + b) == fold_entries(fold_entries(m, a), b),
    decreases b.len(),
{
    if b.len() == 0 {
        assert(a + b == a);
    } else {
        assert((a + b).drop_last() == a + b.drop_last());
        lemma_fold_append(m, a, b.drop_last());
    }
}

/// Folding `s` is folding it without its `i`-th entry, then that entry.
proof fn lemma_move_to_end(m: Map<Seq<u8>, Stats>, s: Seq<(Seq<u8>, Stats)>, i: int)
    requires
        0 <= i < s.len(),
    ensures
        fold_entries(m, s) == merge_entry(fold_entries(m, s.remove(i)), s[i]),
    decreases s.len(),
{
    if i == s.len() - 1 {
        assert(s.remove(i) == s.drop_last());
    } else {
        let t = s.drop_last();
        lemma_move_to_end(m, t, i);
        assert(s.remove(i).drop_last() == t.remove(i));
        assert(s.remove(i).last() == s.last());
        lemma_merge_entry_commute(fold_entries(m, t.remove(i)), s[i], s.last());
    }
}

/// The order in which entries are folded does not matter: any permutation of
/// the same entries gives the same table.
pub proof fn lemma_fold_permutation(m: Map<Seq<u8>, Stats>, a: Seq<(Seq<u8>, Stats)>, b: Seq<(Seq<u8>, Stats)>)
    requires
        a.to_multiset() == b.to_multiset(),
    ensures
        fold_entries(m, a) == fold_entries(m, b),
    decreases a.len(),
{
    broadcast use vstd::seq_lib::group_to_multiset_ensures;
    if a.len() == 0 {
        assert(b.to_multiset().len() == 0);
        assert(b.len() == 0);
        assert(a == b);
    } else {
        let x = a.last();
        assert(a.to_multiset().count(x) > 0) by {
            assert(a.contains(x)) by {
                assert(a[a.len() - 1] == x);
            }
        }
        assert(b.contains(x));
        let i = choose|i: int| 0 <= i < b.len() && b[i] == x;
        vstd::seq_lib::to_multiset_remove(b, i);
        vstd::seq_lib::to_multiset_remove(a, a.len() - 1);
        assert(a.remove(a.len() - 1) == a.drop_last());
        lemma_fold_permutation(m, a.drop_last(), b.remove(i));
        lemma_move_to_end(m, b, i);
    }
}

/// Folding a listing of a table merges that table.
pub proof fn lemma_fold_lists(m: Map<Seq<u8>, Stats>, es: Seq<(Seq<u8>, Stats)>, t: Map<Seq<u8>, Stats>)
    requires
        lists(es, t),
    ensures
        fold_entries(m, es) == map_combine(m, t),
    decreases es.len(),
{
    if es.len() == 0 {
        assert(t =~= Map::empty()) by {
            assert forall|k: Seq<u8>| !#[trigger] t.contains_key(k) by {
                if t.contains_key(k) {
                    let i = choose|i: int| 0 <= i < es.len() && es[i].0 == k;
                }
            }
        }
        assert(map_combine(m, t) =~= m);
    } else {
        let x = es.last();
        let rest = es.drop_last();
        let t2 = t.remove(x.0);
        assert forall|i: int| 0 <= i < rest.len() implies #[trigger] t2.contains_key(rest[i].0) && t2[rest[i].0]
            == rest[i].1 by {
            assert(es[i] == rest[i]);
            assert(es[i].0 != es[es.len() - 1].0);
        }
        assert forall|k: Seq<u8>| #[trigger] t2.contains_key(k) implies exists|i: int|
            0 <= i < rest.len() && rest[i].0 == k by {
            let i = choose|i: int| 0 <= i < es.len() && es[i].0 == k;
            assert(i != es.len() - 1);
            assert(rest[i] == es[i]);
        }
        assert(lists(rest, t2));
        lemma_fold_lists(m, rest, t2);
        assert(t.contains_key(x.0) && t[x.0] == x.1) by {
            assert(es[es.len() - 1] == x);
            assert(t.contains_key(es[es.len() - 1].0));
        }
        assert(merge_entry(map_combine(m, t2), x) =~= map_combine(m, t));
    }
}

pub proof fn lemma_count_update(es: Seq<(Seq<u8>, Stats)>, j: int, e: (Seq<u8>, Stats))
    requires
        0 <= j < es.len(),
    ensures
        count_total(es.update(j, e)) + es[j].1.count == count_total(es) + e.1.count,
    decreases es.len(),
{
    let u = es.update(j, e);
    if j < es.len() - 1 {
        assert(u.drop_last() == es.drop_last().update(j, e));
        lemma_count_update(es.drop_last(), j, e);
    } else {
        assert(u.drop_last() == es.drop_last());
    }
}

proof fn lemma_count_remove(es: Seq<(Seq<u8>, Stats)>, j: int)
    requires
        0 <= j < es.len(),
    ensures
        count_total(es.remove(j)) + es[j].1.count == count_total(es),
    decreases es.len(),
{
    let r = es.remove(j);
    if j < es.len() - 1 {
        assert(r.drop_last() == es.drop_last().remove(j));
        assert(r.last() == es.last());
        lemma_count_remove(es.drop_last(), j);
    } else {
        assert(r == es.drop_last());
    }
}

/// A listing of a table after one more entry yields a listing of the table
/// before it, whose counts add up to that entry's count less.
pub proof fn lemma_count_step(m: Map<Seq<u8>, Stats>, x: (Seq<u8>, Stats), es: Seq<(Seq<u8>, Stats)>) -> (es2: Seq<(Seq<u8>, Stats)>)
    requires
        lists(es, merge_entry(m, x)),
    ensures
        lists(es2, m),
        count_total(es) == count_total(es2) + x.1.count,
{
    let cur = merge_entry(m, x);
    assert(cur.contains_key(x.0));
    let j = choose|j: int| 0 <= j < es.len() && es[j].0 == x.0;
    if m.contains_key(x.0) {
        let e2 = es.update(j, (x.0, m[x.0]));
        assert forall|i: int| 0 <= i < e2.len() implies #[trigger] m.contains_key(e2[i].0) && m[e2[i].0] == e2[i].1 by {
            if i != j {
                assert(es[i].0 != es[j].0);
                assert(cur.contains_key(es[i].0));
            }
        }
        assert forall|k: Seq<u8>| #[trigger] m.contains_key(k) implies exists|i: int| 0 <= i < e2.len() && e2[i].0 == k by {
            assert(cur.contains_key(k));
            let i = choose|i: int| 0 <= i < es.len() && es[i].0 == k;
            assert(e2[i].0 == k);
        }
        assert forall|a: int, b: int| 0 <= a < b < e2.len() implies #[trigger] e2[a].0 != #[trigger] e2[b].0 by {
            assert(es[a].0 != es[b].0);
        }
        lemma_count_update(es, j, (x.0, m[x.0]));
        e2
    } else {
        let e2 = es.remove(j);
        assert forall|i: int| 0 <= i < e2.len() implies #[trigger] m.contains_key(e2[i].0) && m[e2[i].0] == e2[i].1 by {
            let o = if i < j { i } else { i + 1 };
            assert(e2[i] == es[o]);
            assert(es[o].0 != es[j].0);
            assert(cur.contains_key(es[o].0));
        }
        assert forall|k: Seq<u8>| #[trigger] m.contains_key(k) implies exists|i: int| 0 <= i < e2.len() && e2[i].0 == k by {
            assert(cur.contains_key(k));
            let i = choose|i: int| 0 <= i < es.len() && es[i].0 == k;
            assert(i != j);
            if i < j {
                assert(e2[i].0 == k);
            } else {
                assert(e2[i - 1].0 == k);
            }
        }
        assert forall|a: int, b: int| 0 <= a < b < e2.len() implies #[trigger] e2[a].0 != #[trigger] e2[b].0 by {
            let oa = if a < j { a } else { a + 1 };
            let ob = if b < j { b } else { b + 1 };
            assert(e2[a] == es[oa] && e2[b] == es[ob]);
            assert(es[oa].0 != es[ob].0);
        }
        lemma_count_remove(es, j);
        e2
    }
}

/// The only listing of an empty table is empty.
pub proof fn lemma_lists_empty(es: Seq<(Seq<u8>, Stats)>)
    requires
        lists(es, Map::empty()),
    ensures
        es.len() == 0,
{
    if es.len() > 0 {
        assert(Map::<Seq<u8>, Stats>::empty().contains_key(es[0].0));
    }
}

/// Whatever listing is taken of the table that `rs` folds into, its counts
/// add up to the counts of `rs`.
pub proof fn lemma_count_preserved(rs: Seq<(Seq<u8>, Stats)>, es: Seq<(Seq<u8>, Stats)>)
    requires
        lists(es, fold_entries(Map::empty(), rs)),
    ensures
        count_total(es) == count_total(rs),
    decreases rs.len(),
{
    if rs.len() == 0 {
        lemma_lists_empty(es);
    } else {
        let es2 = lemma_count_step(fold_entries(Map::empty(), rs.drop_last()), rs.last(), es);
        lemma_count_preserved(rs.drop_last(), es2);
    }
}

/// A sequence with distinct keys lists the table it folds into.
pub proof fn lemma_distinct_lists(es: Seq<(Seq<u8>, Stats)>)
    requires
        keys_distinct(es),
    ensures
        lists(es, fold_entries(Map::empty(), es)),
    decreases es.len(),
{
    if es.len() > 0 {
        let rest = es.drop_last();
        let x = es.last();
        assert forall|a: int, b: int| 0 <= a < b < rest.len() implies #[trigger] rest[a].0 != #[trigger] rest[b].0 by {
            assert(es[a].0 != es[b].0);
        }
        lemma_distinct_lists(rest);
        let m = fold_entries(Map::empty(), rest);
        if m.contains_key(x.0) {
            let i = choose|i: int| 0 <= i < rest.len() && rest[i].0 == x.0;
            assert(es[i].0 != es[es.len() - 1].0);
        }
        let cur = fold_entries(Map::empty(), es);
        assert forall|i: int| 0 <= i < es.len() implies #[trigger] cur.contains_key(es[i].0) && cur[es[i].0] == es[i].1 by {
            if i < es.len() - 1 {
                assert(rest[i] == es[i]);
                assert(m.contains_key(rest[i].0));
                assert(es[i].0 != es[es.len() - 1].0);
            }
        }
        assert forall|k: Seq<u8>| #[trigger] cur.contains_key(k) implies exists|i: int| 0 <= i < es.len() && es[i].0 == k by {
            if k != x.0 {
                assert(m.contains_key(k));
                let i = choose|i: int| 0 <= i < rest.len() && rest[i].0 == k;
                assert(es[i] == rest[i]);
            } else {
                assert(es[es.len() - 1].0 == k);
            }
        }
    }
}

/// A listing determines the table it lists.
pub proof fn lemma_lists_unique(es: Seq<(Seq<u8>, Stats)>, a: Map<Seq<u8>, Stats>, b: Map<Seq<u8>, Stats>)
    requires
        lists(es, a),
        lists(es, b),
    ensures
        a == b,
{
    assert forall|k: Seq<u8>| a.contains_key(k) <==> b.contains_key(k) by {
        if a.contains_key(k) {
            let i = choose|i: int| 0 <= i < es.len() && es[i].0 == k;
            assert(b.contains_key(es[i].0));
        }
        if b.contains_key(k) {
            let i = choose|i: int| 0 <= i < es.len() && es[i].0 == k;
            assert(a.contains_key(es[i].0));
        }
    }
    assert forall|k: Seq<u8>| a.contains_key(k) implies a[k] == b[k] by {
        let i = choose|i: int| 0 <= i < es.len() && es[i].0 == k;
        assert(a.contains_key(es[i].0) && b.contains_key(es[i].0));
    }
    assert(a =~= b);
}

pub proof fn lemma_count_insert(es: Seq<(Seq<u8>, Stats)>, j: int, e: (Seq<u8>, Stats))
    requires
        0 <= j <= es.len(),
    ensures
        count_total(es.insert(j, e)) == count_total(es) + e.1.count,
{
    let s = es.insert(j, e);
    assert(s.remove(j) == es);
    lemma_count_remove(s, j);
}

/// Folding entries into a table merges the table they fold into alone.
pub proof fn lemma_fold_combine(m: Map<Seq<u8>, Stats>, es: Seq<(Seq<u8>, Stats)>)
    ensures
        fold_entries(m, es) == map_combine(m, fold_entries(Map::empty(), es)),
    decreases es.len(),
{
    if es.len() == 0 {
        assert(map_combine(m, Map::empty()) =~= m);
    } else {
        lemma_fold_combine(m, es.drop_last());
        let f = fold_entries(Map::empty(), es.drop_last());
        assert(merge_entry(map_combine(m, f), es.last()) =~= map_combine(m, merge_entry(f, es.last())));
    }
}

} // verus!

use vstd::prelude::*;
use crate::decimal::decimal_value;

verus! {

pub const NEWLINE: u8 = 10;

pub const CARRIAGE_RETURN: u8 = 13;

pub const SEPARATOR: u8 = 59;

/// Index of the first line terminator of `s`, or its length where it has none.
pub open spec fn first_newline(s: Seq<u8>) -> nat
    decreases s.len(),
{
    if s.len() == 0 {
        0
    } else if s[0] == NEWLINE {
        0
    } else {
        1 + first_newline(s.drop_first())
    }
}

/// The lines of `s`, without their terminators. A final line without a
/// terminator counts; the empty text after a final terminator does not.
pub open spec fn split_lines(s: Seq<u8>) -> Seq<Seq<u8>>
    decreases s.len(),
{
    if s.len() == 0 {
        seq![]
    } else {
        let i = first_newline(s);
        if i >= s.len() {
            seq![s]
        } else {
            seq![s.subrange(0, i as int)] + split_lines(s.subrange(i as int + 1, s.len() as int))
        }
    }
}

pub open spec fn has_no_newline(s: Seq<u8>) -> bool {
    forall|k: int| 0 <= k < s.len() ==> #[trigger] s[k] != NEWLINE
}

/// `s` is empty or ends with a line terminator: it holds whole lines only.
pub open spec fn ends_at_line_boundary(s: Seq<u8>) -> bool {
    s.len() == 0 || s.last() == NEWLINE
}

/// `j` is the last separator of `line`.
pub open spec fn is_last_separator(line: Seq<u8>, j: int) -> bool {
    &&& 0 <= j < line.len()
    &&& line[j] == SEPARATOR
    &&& forall|k: int| j < k < line.len() ==> #[trigger] line[k] != SEPARATOR
}

pub open spec fn strip_cr(t: Seq<u8>) -> Seq<u8> {
    if t.len() > 0 && t.last() == CARRIAGE_RETURN {
        t.drop_last()
    } else {
        t
    }
}

/// The key and value of a line: the key is what precedes the last separator,
/// the value what follows it, less one trailing carriage return. `None` where
/// the line has no separator or its value text is not a valid decimal.
pub open spec fn record_of(line: Seq<u8>) -> Option<(Seq<u8>, int)> {
    if exists|j: int| is_last_separator(line, j) {
        let j = choose|j: int| is_last_separator(line, j);
        match decimal_value(strip_cr(line.subrange(j + 1, line.len() as int))) {
            Some(v) => Some((line.subrange(0, j), v)),
            None => None,
        }
    } else {
        None
    }
}

pub proof fn lemma_first_newline(s: Seq<u8>)
    ensures
        first_newline(s) <= s.len(),
        first_newline(s) < s.len() ==> s[first_newline(s) as int] == NEWLINE,
        forall|k: int| 0 <= k < first_newline(s) ==> #[trigger] s[k] != NEWLINE,
    decreases s.len(),
{
    if s.len() > 0 && s[0] != NEWLINE {
        lemma_first_newline(s.drop_first());
        assert forall|k: int| 0 <= k < first_newline(s) implies #[trigger] s[k] != NEWLINE by {
            if k > 0 {
                assert(s[k] == s.drop_first()[k - 1]);
            }
        }
    }
}

pub proof fn lemma_first_newline_is(s: Seq<u8>, i: int)
    requires
        0 <= i <= s.len(),
        i < s.len() ==> s[i] == NEWLINE,
        forall|k: int| 0 <= k < i ==> #[trigger] s[k] != NEWLINE,
    ensures
        first_newline(s) == i,
    decreases s.len(),
{
    if i > 0 {
        assert(s[0] != NEWLINE);
        let t = s.drop_first();
        assert forall|k: int| 0 <= k < i - 1 implies #[trigger] t[k] != NEWLINE by {
            assert(t[k] == s[k + 1]);
        }
        lemma_first_newline_is(t, i - 1);
    }
}

/// Splitting distributes over a concatenation whose first part holds whole lines.
pub proof fn lemma_split_append(a: Seq<u8>, b: Seq<u8>)
    requires
        ends_at_line_boundary(a),
    ensures
        split_lines(a + b) == split_lines(a) + split_lines(b),
    decreases a.len(),
{
    if a.len() == 0 {
        assert(a + b == b);
        assert(split_lines(a) + split_lines(b) == split_lines(b));
    } else {
        lemma_first_newline(a);
        let i = first_newline(a) as int;
        if i >= a.len() {
            assert(a[a.len() - 1] == NEWLINE);
            assert(false);
        }
        let ab = a + b;
        assert forall|k: int| 0 <= k < i implies #[trigger] ab[k] != NEWLINE by {
            assert(ab[k] == a[k]);
        }
        lemma_first_newline_is(ab, i);
        let rest = a.subrange(i + 1, a.len() as int);
        assert(ab.subrange(0, i) == a.subrange(0, i));
        assert(ab.subrange(i + 1, ab.len() as int) == rest + b);
        if rest.len() > 0 {
            assert(rest.last() == a.last());
        }
        lemma_split_append(rest, b);
        assert(split_lines(a) == seq![a.subrange(0, i)] + split_lines(rest));
        assert(split_lines(ab) == seq![a.subrange(0, i)] + (split_lines(rest) + split_lines(b)));
        assert(seq![a.subrange(0, i)] + (split_lines(rest) + split_lines(b)) == (seq![a.subrange(0, i)] + split_lines(rest)) + split_lines(b));
    }
}

/// A terminated line splits into itself alone.
pub proof fn lemma_split_terminated(l: Seq<u8>)
    requires
        has_no_newline(l),
    ensures
        split_lines(l.push(NEWLINE)) == seq![l],
{
    let s = l.push(NEWLINE);
    assert forall|k: int| 0 <= k < l.len() implies #[trigger] s[k] != NEWLINE by {
        assert(s[k] == l[k]);
    }
    lemma_first_newline_is(s, l.len() as int);
    assert(s.subrange(0, l.len() as int) == l);
    assert(s.subrange(l.len() as int + 1, s.len() as int) == Seq::<u8>::empty());
    assert(split_lines(Seq::<u8>::empty()) == Seq::<Seq<u8>>::empty());
    assert(seq![l] + Seq::<Seq<u8>>::empty() == seq![l]);
}

/// A non-empty text without a terminator is one line.
pub proof fn lemma_split_unterminated(l: Seq<u8>)
    requires
        has_no_newline(l),
        l.len() > 0,
    ensures
        split_lines(l) == seq![l],
{
    lemma_first_newline_is(l, l.len() as int);
}

/// Every line is shorter than the text it came from, and holds no terminator.
pub proof fn lemma_split_len(s: Seq<u8>)
    ensures
        split_lines(s).len() <= s.len(),
    decreases s.len(),
{
    if s.len() > 0 {
        lemma_first_newline(s);
        let i = first_newline(s);
        if i < s.len() {
            lemma_split_len(s.subrange(i as int + 1, s.len() as int));
        }
    }
}

/// No line is longer than the text it came from; in a text of whole lines,
/// every line is shorter.
pub proof fn lemma_split_line_lengths(s: Seq<u8>)
    ensures
        forall|i: int| 0 <= i < split_lines(s).len() ==> (#[trigger] split_lines(s)[i]).len() <= s.len(),
        ends_at_line_boundary(s) ==> forall|i: int| 0 <= i < split_lines(s).len() ==> (#[trigger] split_lines(s)[i]).len() < s.len(),
    decreases s.len(),
{
    if s.len() > 0 {
        lemma_first_newline(s);
        let i = first_newline(s);
        if i < s.len() {
            let rest = s.subrange(i as int + 1, s.len() as int);
            lemma_split_line_lengths(rest);
            if rest.len() > 0 {
                assert(rest.last() == s.last());
            }
            let l = split_lines(s);
            assert forall|k: int| 0 <= k < l.len() implies (#[trigger] l[k]).len() <= s.len() && (ends_at_line_boundary(s) ==> l[k].len() < s.len()) by {
                if k > 0 {
                    assert(l[k] == split_lines(rest)[k - 1]);
                }
            }
        }
    }
}

/// The first line of a text that starts with `v`, where `v` holds no
/// terminator, is at least as long as `v`.
pub proof fn lemma_first_line_covers(s: Seq<u8>, v: Seq<u8>)
    requires
        v.len() > 0,
        v.len() <= s.len(),
        s.subrange(0, v.len() as int) == v,
        has_no_newline(v),
    ensures
        split_lines(s).len() > 0,
        split_lines(s)[0].len() >= v.len(),
{
    lemma_first_newline(s);
    let i = first_newline(s);
    if i < v.len() {
        assert(s[i as int] == v[i as int]);
    }
}

/// A last line without terminator gives the same lines as with one.
pub proof fn lemma_final_terminator_optional(s: Seq<u8>)
    requires
        s.len() > 0,
        s.last() != NEWLINE,
    ensures
        split_lines(s.push(NEWLINE)) == split_lines(s),
    decreases s.len(),
{
    lemma_first_newline(s);
    let i = first_newline(s);
    let t = s.push(NEWLINE);
    if i >= s.len() {
        assert forall|k: int| 0 <= k < s.len() implies #[trigger] s[k] != NEWLINE by {}
        lemma_split_terminated(s);
        lemma_split_unterminated(s);
    } else {
        assert forall|k: int| 0 <= k < i implies #[trigger] t[k] != NEWLINE by {
            assert(t[k] == s[k]);
        }
        lemma_first_newline_is(t, i as int);
        let rest = s.subrange(i as int + 1, s.len() as int);
        assert(t.subrange(0, i as int) == s.subrange(0, i as int));
        assert(t.subrange(i as int + 1, t.len() as int) == rest.push(NEWLINE));
        assert(rest.len() > 0) by {
            if rest.len() == 0 {
                assert(s[i as int] == s.last());
            }
        }
        assert(rest.last() == s.last());
        lemma_final_terminator_optional(rest);
    }
}

} // verus!

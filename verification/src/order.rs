//! The deterministic orders used by `gather`: lexicographic order on strings
//! (by Unicode code point) and the induced order on metrics within a family.

use vstd::prelude::*;
use vstd::multiset::Multiset;
use vstd::string::StrSliceExecFns;
use crate::desc::LabelPair;
use crate::family::Metric;

verus! {

/// Result of a three-way comparison.
#[derive(Debug, Clone, Copy, PartialEq, Eq, Structural)]
pub enum Cmp {
    Lt,
    Eq,
    Gt,
}

/// Strict lexicographic order on character sequences, by code point.
/// A proper prefix sorts before its extensions.
pub open spec fn str_lt(a: Seq<char>, b: Seq<char>) -> bool
    decreases a.len(),
{
    if b.len() == 0 {
        false
    } else if a.len() == 0 {
        true
    } else if a[0] != b[0] {
        (a[0] as int) < (b[0] as int)
    } else {
        str_lt(a.skip(1), b.skip(1))
    }
}

pub proof fn lemma_str_lt_irrefl(a: Seq<char>)
    ensures
        !str_lt(a, a),
    decreases a.len(),
{
    if a.len() > 0 {
        lemma_str_lt_irrefl(a.skip(1));
    }
}

pub proof fn lemma_str_lt_asym(a: Seq<char>, b: Seq<char>)
    ensures
        !(str_lt(a, b) && str_lt(b, a)),
    decreases a.len(),
{
    if a.len() > 0 && b.len() > 0 && a[0] == b[0] {
        lemma_str_lt_asym(a.skip(1), b.skip(1));
    }
}

pub proof fn lemma_str_lt_trans(a: Seq<char>, b: Seq<char>, c: Seq<char>)
    requires
        str_lt(a, b),
        str_lt(b, c),
    ensures
        str_lt(a, c),
    decreases a.len(),
{
    if a.len() > 0 && b.len() > 0 && c.len() > 0 && a[0] == b[0] && b[0] == c[0] {
        lemma_str_lt_trans(a.skip(1), b.skip(1), c.skip(1));
    }
}

/// The first index where `a` and `b` differ decides the lexicographic order.
pub proof fn lemma_str_lt_from_diff(a: Seq<char>, b: Seq<char>, i: int)
    requires
        0 <= i < a.len(),
        i < b.len(),
        forall|j: int| 0 <= j < i ==> a[j] == b[j],
        (a[i] as int) < (b[i] as int),
    ensures
        str_lt(a, b),
    decreases i,
{
    if i > 0 {
        lemma_str_lt_from_diff(a.skip(1), b.skip(1), i - 1);
    }
}

/// A proper prefix sorts strictly before the longer string.
pub proof fn lemma_str_lt_prefix(a: Seq<char>, b: Seq<char>)
    requires
        a.len() < b.len(),
        forall|j: int| 0 <= j < a.len() ==> a[j] == b[j],
    ensures
        str_lt(a, b),
    decreases a.len(),
{
    if a.len() > 0 {
        lemma_str_lt_prefix(a.skip(1), b.skip(1));
    }
}

/// Three-way lexicographic comparison of two strings by code point.
pub fn str_cmp(a: &str, b: &str) -> (r: Cmp)
    ensures
        (r == Cmp::Lt) == str_lt(a@, b@),
        (r == Cmp::Eq) == (a@ == b@),
        (r == Cmp::Gt) == str_lt(b@, a@),
{
    let alen = a.unicode_len();
    let blen = b.unicode_len();
    let mut i: usize = 0;
    while i < alen && i < blen
        invariant
            alen == a@.len(),
            blen == b@.len(),
            i <= alen,
            i <= blen,
            forall|j: int| 0 <= j < i ==> a@[j] == b@[j],
        decreases alen - i,
    {
        let ca = a.get_char(i);
        let cb = b.get_char(i);
        proof {
            assert(ca as int == (ca as u32) as int);
            assert(cb as int == (cb as u32) as int);
        }
        if (ca as u32) < (cb as u32) {
            proof {
                lemma_str_lt_from_diff(a@, b@, i as int);
                lemma_str_lt_irrefl(a@);
                lemma_str_lt_asym(a@, b@);
            }
            return Cmp::Lt;
        } else if (cb as u32) < (ca as u32) {
            proof {
                lemma_str_lt_from_diff(b@, a@, i as int);
                lemma_str_lt_irrefl(a@);
                lemma_str_lt_asym(a@, b@);
            }
            return Cmp::Gt;
        }
        assert(a@[i as int] == b@[i as int]);
        i = i + 1;
    }
    if alen < blen {
        proof {
            lemma_str_lt_prefix(a@, b@);
            lemma_str_lt_irrefl(a@);
            lemma_str_lt_asym(a@, b@);
        }
        Cmp::Lt
    } else if blen < alen {
        proof {
            lemma_str_lt_prefix(b@, a@);
            lemma_str_lt_irrefl(a@);
            lemma_str_lt_asym(a@, b@);
        }
        Cmp::Gt
    } else {
        proof {
            assert(a@ =~= b@);
            lemma_str_lt_irrefl(a@);
        }
        Cmp::Eq
    }
}

/// Do two equally long label lists carry the same values, position by position?
pub open spec fn labels_eq(a: Seq<LabelPair>, b: Seq<LabelPair>) -> bool {
    a.len() == b.len() && forall|i: int| 0 <= i < a.len() ==> a[i].value@ == b[i].value@
}

/// Strict lexicographic order on label lists, comparing label values only
/// (label names play no part), in label order.
pub open spec fn labels_lt(a: Seq<LabelPair>, b: Seq<LabelPair>) -> bool
    decreases a.len(),
{
    if b.len() == 0 {
        false
    } else if a.len() == 0 {
        true
    } else if a[0].value@ != b[0].value@ {
        str_lt(a[0].value@, b[0].value@)
    } else {
        labels_lt(a.skip(1), b.skip(1))
    }
}

pub proof fn lemma_labels_lt_irrefl(a: Seq<LabelPair>, b: Seq<LabelPair>)
    requires
        labels_eq(a, b),
    ensures
        !labels_lt(a, b),
    decreases a.len(),
{
    if a.len() > 0 {
        lemma_str_lt_irrefl(a[0].value@);
        assert(labels_eq(a.skip(1), b.skip(1)));
        lemma_labels_lt_irrefl(a.skip(1), b.skip(1));
    }
}

pub proof fn lemma_labels_lt_asym(a: Seq<LabelPair>, b: Seq<LabelPair>)
    ensures
        !(labels_lt(a, b) && labels_lt(b, a)),
    decreases a.len(),
{
    if a.len() > 0 && b.len() > 0 {
        if a[0].value@ == b[0].value@ {
            lemma_labels_lt_asym(a.skip(1), b.skip(1));
        } else {
            lemma_str_lt_asym(a[0].value@, b[0].value@);
        }
    }
}

pub proof fn lemma_labels_lt_trans(a: Seq<LabelPair>, b: Seq<LabelPair>, c: Seq<LabelPair>)
    requires
        labels_lt(a, b),
        labels_lt(b, c),
    ensures
        labels_lt(a, c),
    decreases a.len(),
{
    if a.len() > 0 && b.len() > 0 && c.len() > 0 {
        if a[0].value@ == b[0].value@ && b[0].value@ == c[0].value@ {
            lemma_labels_lt_trans(a.skip(1), b.skip(1), c.skip(1));
        } else if a[0].value@ == b[0].value@ {
            assert(str_lt(a[0].value@, c[0].value@));
        } else if b[0].value@ == c[0].value@ {
            assert(str_lt(a[0].value@, c[0].value@));
        } else {
            lemma_str_lt_trans(a[0].value@, b[0].value@, c[0].value@);
            lemma_str_lt_irrefl(a[0].value@);
        }
    }
}

/// Either order holds between equally long label lists with differing values.
pub proof fn lemma_labels_total(a: Seq<LabelPair>, b: Seq<LabelPair>)
    requires
        a.len() == b.len(),
        !labels_eq(a, b),
    ensures
        labels_lt(a, b) || labels_lt(b, a),
    decreases a.len(),
{
    if a.len() > 0 {
        if a[0].value@ == b[0].value@ {
            assert(!labels_eq(a.skip(1), b.skip(1))) by {
                let k = choose|i: int| 0 <= i < a.len() && a[i].value@ != b[i].value@;
                assert(a.skip(1)[k - 1].value@ != b.skip(1)[k - 1].value@);
            }
            lemma_labels_total(a.skip(1), b.skip(1));
        } else {
            lemma_str_lt_from_total(a[0].value@, b[0].value@);
        }
    }
}

/// Two distinct strings are lexicographically ordered one way or the other.
pub proof fn lemma_str_lt_from_total(a: Seq<char>, b: Seq<char>)
    requires
        a != b,
    ensures
        str_lt(a, b) || str_lt(b, a),
    decreases a.len(),
{
    if a.len() == 0 || b.len() == 0 {
        if a.len() == 0 && b.len() == 0 {
            assert(a =~= b);
        } else if a.len() == 0 {
            assert(str_lt(a, b));
        } else {
            assert(str_lt(b, a));
        }
    } else if a[0] != b[0] {
        assert((a[0] as int) != (b[0] as int));
        assert(str_lt(a, b) || str_lt(b, a));
    } else {
        assert(a.skip(1) != b.skip(1)) by {
            if a.skip(1) == b.skip(1) {
                assert(a.skip(1).len() == a.len() - 1);
                assert(b.skip(1).len() == b.len() - 1);
                assert(a.len() == b.len());
                assert forall|i: int| 0 <= i < a.len() implies a[i] == b[i] by {
                    if i > 0 {
                        assert(a[i] == a.skip(1)[i - 1]);
                        assert(b[i] == b.skip(1)[i - 1]);
                    }
                }
                assert(a =~= b);
            }
        }
        lemma_str_lt_from_total(a.skip(1), b.skip(1));
    }
}

/// Timestamp order used as the final tie breaker: a missing timestamp means
/// "now" and sorts last.
pub open spec fn ts_le(a: Option<i64>, b: Option<i64>) -> bool {
    match (a, b) {
        (Some(x), Some(y)) => x <= y,
        (Some(_), None) => true,
        (None, Some(_)) => false,
        (None, None) => true,
    }
}

/// The total preorder by which metrics inside one family are sorted: by label
/// count if the counts differ (a tolerated inconsistency), else
/// lexicographically by label values, else by timestamp with missing
/// timestamps last.
pub open spec fn metric_le(m1: Metric, m2: Metric) -> bool {
    if m1.labels@.len() != m2.labels@.len() {
        m1.labels@.len() <= m2.labels@.len()
    } else if !labels_eq(m1.labels@, m2.labels@) {
        labels_lt(m1.labels@, m2.labels@)
    } else {
        ts_le(m1.timestamp_ms, m2.timestamp_ms)
    }
}

/// `metric_le` relates every pair of metrics one way or the other.
pub proof fn lemma_metric_le_total(m1: Metric, m2: Metric)
    ensures
        metric_le(m1, m2) || metric_le(m2, m1),
{
    if m1.labels@.len() == m2.labels@.len() {
        if !labels_eq(m1.labels@, m2.labels@) {
            lemma_labels_total(m1.labels@, m2.labels@);
            assert(!labels_eq(m2.labels@, m1.labels@));
        }
    }
}

/// `metric_le` is transitive.
pub proof fn lemma_metric_le_trans(m1: Metric, m2: Metric, m3: Metric)
    requires
        metric_le(m1, m2),
        metric_le(m2, m3),
    ensures
        metric_le(m1, m3),
{
    let a = m1.labels@;
    let b = m2.labels@;
    let c = m3.labels@;
    if a.len() == b.len() && b.len() == c.len() {
        if labels_eq(a, b) && labels_eq(b, c) {
            assert(labels_eq(a, c));
        } else if labels_eq(a, b) {
            // values of a equal those of b, and b is ordered before c
            assert(labels_lt(b, c));
            lemma_labels_lt_subst_left(a, b, c);
            assert(!labels_eq(a, c)) by {
                if labels_eq(a, c) {
                    assert(labels_eq(b, c));
                }
            }
        } else if labels_eq(b, c) {
            assert(labels_lt(a, b));
            lemma_labels_lt_subst_right(a, b, c);
            assert(!labels_eq(a, c)) by {
                if labels_eq(a, c) {
                    assert(labels_eq(a, b));
                }
            }
        } else {
            lemma_labels_lt_trans(a, b, c);
            assert(!labels_eq(a, c)) by {
                if labels_eq(a, c) {
                    lemma_labels_lt_irrefl(c, a);
                    lemma_labels_lt_asym(a, c);
                    lemma_labels_lt_subst_left(c, a, b);
                    lemma_labels_lt_asym(b, c);
                }
            }
        }
    }
}

/// `labels_lt` depends only on the label values: replacing the left side by a
/// value-equal list preserves it.
pub proof fn lemma_labels_lt_subst_left(a: Seq<LabelPair>, b: Seq<LabelPair>, c: Seq<LabelPair>)
    requires
        labels_eq(a, b),
        labels_lt(b, c),
    ensures
        labels_lt(a, c),
    decreases a.len(),
{
    if a.len() > 0 && c.len() > 0 {
        if b[0].value@ == c[0].value@ {
            assert(labels_eq(a.skip(1), b.skip(1)));
            lemma_labels_lt_subst_left(a.skip(1), b.skip(1), c.skip(1));
        }
    }
}

/// `labels_lt` depends only on the label values: replacing the right side by a
/// value-equal list preserves it.
pub proof fn lemma_labels_lt_subst_right(a: Seq<LabelPair>, b: Seq<LabelPair>, c: Seq<LabelPair>)
    requires
        labels_lt(a, b),
        labels_eq(b, c),
    ensures
        labels_lt(a, c),
    decreases a.len(),
{
    if a.len() > 0 && b.len() > 0 {
        if a[0].value@ == b[0].value@ {
            assert(labels_eq(b.skip(1), c.skip(1)));
            lemma_labels_lt_subst_right(a.skip(1), b.skip(1), c.skip(1));
        }
    }
}

/// Executable decision procedure for [`metric_le`].
pub fn metric_le_exec(m1: &Metric, m2: &Metric) -> (r: bool)
    ensures
        r == metric_le(*m1, *m2),
{
    let l1 = m1.labels.len();
    let l2 = m2.labels.len();
    if l1 != l2 {
        return l1 <= l2;
    }
    let mut i: usize = 0;
    while i < l1
        invariant
            l1 == m1.labels@.len(),
            l1 == m2.labels@.len(),
            i <= l1,
            forall|j: int| 0 <= j < i ==> m1.labels@[j].value@ == m2.labels@[j].value@,
        decreases l1 - i,
    {
        let c = str_cmp(m1.labels[i].value.as_str(), m2.labels[i].value.as_str());
        match c {
            Cmp::Lt => {
                proof {
                    lemma_labels_lt_from_diff(m1.labels@, m2.labels@, i as int);
                }
                return true;
            },
            Cmp::Gt => {
                proof {
                    lemma_labels_lt_from_diff(m2.labels@, m1.labels@, i as int);
                    lemma_labels_lt_asym(m1.labels@, m2.labels@);
                }
                return false;
            },
            Cmp::Eq => {
                i = i + 1;
            },
        }
    }
    assert(labels_eq(m1.labels@, m2.labels@));
    match (m1.timestamp_ms, m2.timestamp_ms) {
        (Some(x), Some(y)) => x <= y,
        (Some(_), None) => true,
        (None, Some(_)) => false,
        (None, None) => true,
    }
}

/// The first index with differing label values decides the label-list order.
pub proof fn lemma_labels_lt_from_diff(a: Seq<LabelPair>, b: Seq<LabelPair>, i: int)
    requires
        0 <= i < a.len(),
        i < b.len(),
        forall|j: int| 0 <= j < i ==> a[j].value@ == b[j].value@,
        a[i].value@ != b[i].value@,
        str_lt(a[i].value@, b[i].value@),
    ensures
        labels_lt(a, b),
        !labels_eq(a, b),
        !labels_eq(b, a),
    decreases i,
{
    if i > 0 {
        lemma_labels_lt_from_diff(a.skip(1), b.skip(1), i - 1);
    }
}

/// Is a metric list sorted by [`metric_le`]?
pub open spec fn sorted_metrics(s: Seq<Metric>) -> bool {
    forall|i: int, j: int| 0 <= i < j < s.len() ==> metric_le(s[i], s[j])
}

/// Insert a metric after every element that sorts at or below it: the
/// insertion step of a stable insertion sort.
pub open spec fn insert_sorted(s: Seq<Metric>, x: Metric) -> Seq<Metric>
    decreases s.len(),
{
    if s.len() == 0 {
        seq![x]
    } else if metric_le(s[0], x) {
        seq![s[0]] + insert_sorted(s.skip(1), x)
    } else {
        seq![x] + s
    }
}

/// The stable insertion sort of a metric list by [`metric_le`]: metrics whose
/// sort keys tie keep their input order, so the result is a fixed function of
/// the input and repeated sorts of equal lists agree element for element.
pub open spec fn sort_spec(v: Seq<Metric>) -> Seq<Metric>
    decreases v.len(),
{
    if v.len() == 0 {
        Seq::empty()
    } else {
        insert_sorted(sort_spec(v.drop_last()), v.last())
    }
}

/// `insert_sorted` places the element at the first position whose entry no
/// longer sorts at or below it.
proof fn lemma_insert_sorted_at(s: Seq<Metric>, x: Metric, k: int)
    requires
        0 <= k <= s.len(),
        forall|j: int| 0 <= j < k ==> metric_le(s[j], x),
        k < s.len() ==> !metric_le(s[k], x),
    ensures
        insert_sorted(s, x) == s.insert(k, x),
    decreases k,
{
    if s.len() == 0 {
        assert(insert_sorted(s, x) =~= s.insert(0, x));
    } else if k == 0 {
        assert(seq![x] + s =~= s.insert(0, x));
    } else {
        assert(forall|j: int| 0 <= j < k - 1 ==> s.skip(1)[j] == #[trigger] s[j + 1]);
        lemma_insert_sorted_at(s.skip(1), x, k - 1);
        assert(seq![s[0]] + s.skip(1).insert(k - 1, x) =~= s.insert(k, x));
    }
}

/// Inserting an element anywhere into a sequence adds it to the multiset.
proof fn lemma_insert_multiset(s: Seq<Metric>, i: int, x: Metric)
    requires
        0 <= i <= s.len(),
    ensures
        s.insert(i, x).to_multiset() == s.to_multiset().insert(x),
{
    broadcast use vstd::multiset::group_multiset_axioms;

    let t = s.insert(i, x);
    t.to_multiset_ensures();
    assert(t.remove(i) =~= s);
    assert(t[i] == x);
    assert(t.remove(i).to_multiset() =~= t.to_multiset().remove(t[i]));
    assert(t.to_multiset().count(x) > 0) by {
        assert(t.contains(x));
    }
    assert(t.to_multiset() =~= s.to_multiset().insert(x));
}

/// The position before the first element that no longer sorts at or below
/// `x`: where an insertion keeps the list sorted.
fn find_pos(out: &Vec<Metric>, x: &Metric) -> (k: usize)
    requires
        sorted_metrics(out@),
    ensures
        k <= out@.len(),
        forall|j: int| 0 <= j < k ==> metric_le(out@[j], *x),
        k < out@.len() ==> !metric_le(out@[k as int], *x),
{
    let mut k: usize = 0;
    while k < out.len()
        invariant
            k <= out@.len(),
            forall|j: int| 0 <= j < k ==> metric_le(out@[j], *x),
        decreases out@.len() - k,
    {
        if !metric_le_exec(&out[k], x) {
            return k;
        }
        k = k + 1;
    }
    k
}

/// Sort a metric list by [`metric_le`]: exactly the stable insertion sort
/// [`sort_spec`] of the input, hence a permutation with ties kept in input
/// order.
pub fn sort_metrics(v: Vec<Metric>) -> (r: Vec<Metric>)
    ensures
        r@ == sort_spec(v@),
        r@.to_multiset() == v@.to_multiset(),
        sorted_metrics(r@),
{
    broadcast use vstd::multiset::group_multiset_axioms;

    let mut rest = v;
    let mut out: Vec<Metric> = Vec::new();
    let mut done: usize = 0;
    let input_len = rest.len();
    proof {
        assert(v@.take(0) =~= Seq::<Metric>::empty());
        assert(v@.skip(0) =~= v@);
        out@.to_multiset_ensures();
        assert forall|m: Metric| out@.to_multiset().count(m) == 0 by {
            assert(!out@.contains(m));
        }
        assert(out@.to_multiset().add(rest@.to_multiset()) =~= v@.to_multiset());
    }
    while rest.len() > 0
        invariant
            done <= v@.len(),
            v@.len() == input_len,
            done + rest@.len() == v@.len(),
            rest@ =~= v@.skip(done as int),
            sorted_metrics(out@),
            out@ == sort_spec(v@.take(done as int)),
            out@.to_multiset().add(rest@.to_multiset()) == v@.to_multiset(),
        decreases rest@.len(),
    {
        let ghost pre_rest = rest@;
        let x = rest.remove(0);
        proof {
            pre_rest.to_multiset_ensures();
            assert(x == v@[done as int]);
            assert(rest@ =~= pre_rest.remove(0));
            assert(pre_rest.remove(0).to_multiset() =~= pre_rest.to_multiset().remove(x));
            assert(pre_rest.to_multiset().count(x) > 0) by {
                assert(pre_rest.contains(x));
            }
            assert(rest@ =~= v@.skip(done as int + 1));
        }
        let k = find_pos(&out, &x);
        proof {
            if (k as int) < out@.len() {
                lemma_metric_le_total(out@[k as int], x);
                assert(metric_le(x, out@[k as int]));
                assert forall|j: int| k <= j < out@.len() implies metric_le(
                    x,
                    #[trigger] out@[j],
                ) by {
                    if j > k {
                        lemma_metric_le_trans(x, out@[k as int], out@[j]);
                    }
                }
            }
            lemma_insert_multiset(out@, k as int, x);
            lemma_insert_sorted_at(out@, x, k as int);
        }
        let ghost pre_out = out@;
        let ghost oms = pre_out.to_multiset();
        let ghost rms = pre_rest.to_multiset();
        out.insert(k, x);
        proof {
            assert(out@ == pre_out.insert(k as int, x));
            assert(out@ == insert_sorted(pre_out, x));
            assert(v@.take(done as int + 1).drop_last() =~= v@.take(done as int));
            assert(v@.take(done as int + 1).last() == v@[done as int]);
            assert(out@ == sort_spec(v@.take(done as int + 1)));
            assert(out@.to_multiset() == oms.insert(x));
            assert(rest@.to_multiset() == rms.remove(x));
            assert forall|m: Metric|
                out@.to_multiset().add(rest@.to_multiset()).count(m) == v@.to_multiset().count(
                    m,
                ) by {
                assert(oms.add(rms).count(m) == v@.to_multiset().count(m));
                assert(oms.insert(x).count(m) == oms.count(m) + (if m == x {
                    1int
                } else {
                    0int
                }));
                assert(rms.remove(x).count(m) == rms.count(m) - (if m == x {
                    1int
                } else {
                    0int
                }));
            }
            assert(out@.to_multiset().add(rest@.to_multiset()) =~= v@.to_multiset());
            assert forall|i: int, j: int| 0 <= i < j < out@.len() implies metric_le(
                out@[i],
                out@[j],
            ) by {
                if j < k {
                    assert(out@[i] == pre_out[i] && out@[j] == pre_out[j]);
                } else if i > k {
                    assert(out@[i] == pre_out[i - 1] && out@[j] == pre_out[j - 1]);
                } else if i == k {
                    assert(out@[i] == x && out@[j] == pre_out[j - 1]);
                } else if j == k {
                    assert(out@[i] == pre_out[i] && out@[j] == x);
                } else {
                    // i < k < j
                    assert(out@[i] == pre_out[i] && out@[j] == pre_out[j - 1]);
                    lemma_metric_le_trans(pre_out[i], x, pre_out[j - 1]);
                }
            }
        }
        done = done + 1;
    }
    proof {
        rest@.to_multiset_ensures();
        assert(v@.take(done as int) =~= v@);
        assert(rest@ =~= Seq::<Metric>::empty());
        assert forall|m: Metric| rest@.to_multiset().count(m) == 0 by {
            assert(!rest@.contains(m));
        }
        assert(rest@.to_multiset() =~= Multiset::<Metric>::empty());
        assert(out@.to_multiset() =~= v@.to_multiset());
    }
    out
}

} // verus!



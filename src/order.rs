//! Ordering rows by a list of (column, ascending) keys: a stable insertion
//! sort, and the proof that sorting twice gives what sorting once does.
use vstd::prelude::*;
use crate::row::{CellView, Row};
use crate::text::{compare_text, lemma_text_less_irreflexive, lemma_text_less_total, lemma_text_less_transitive, text_less};

verus! {

/// Cell order: null first, then texts in code-point order.
pub open spec fn cell_less(a: CellView, b: CellView) -> bool {
    match (a, b) {
        (None, Some(_)) => true,
        (Some(x), Some(y)) => text_less(x, y),
        _ => false,
    }
}

/// `a` comes strictly before `b` under the keys: the first key column on
/// which they differ decides, in its direction.
pub open spec fn row_less(a: Seq<CellView>, b: Seq<CellView>, keys: Seq<(int, bool)>) -> bool
    decreases keys.len(),
{
    if keys.len() == 0 {
        false
    } else {
        let c = keys[0].0;
        if a[c] != b[c] {
            if keys[0].1 {
                cell_less(a[c], b[c])
            } else {
                cell_less(b[c], a[c])
            }
        } else {
            row_less(a, b, keys.drop_first())
        }
    }
}

/// `x` inserted before the first element it comes strictly before.
pub open spec fn insert_sorted(s: Seq<Seq<CellView>>, x: Seq<CellView>, keys: Seq<(int, bool)>) -> Seq<Seq<CellView>>
    decreases s.len(),
{
    if s.len() == 0 {
        seq![x]
    } else if row_less(x, s[0], keys) {
        seq![x] + s
    } else {
        seq![s[0]] + insert_sorted(s.drop_first(), x, keys)
    }
}

/// The rows in order of the keys; rows that tie keep their relative order.
pub open spec fn sort_rows(s: Seq<Seq<CellView>>, keys: Seq<(int, bool)>) -> Seq<Seq<CellView>>
    decreases s.len(),
{
    if s.len() == 0 {
        s
    } else {
        insert_sorted(sort_rows(s.drop_last(), keys), s.last(), keys)
    }
}

pub open spec fn sorted(s: Seq<Seq<CellView>>, keys: Seq<(int, bool)>) -> bool {
    forall|i: int, j: int| 0 <= i < j < s.len() ==> !row_less(s[j], s[i], keys)
}

proof fn lemma_cell_less_facts(a: CellView, b: CellView, c: CellView)
    ensures
        !cell_less(a, a),
        cell_less(a, b) && cell_less(b, c) ==> cell_less(a, c),
        a != b ==> cell_less(a, b) || cell_less(b, a),
{
    match a {
        Some(x) => {
            lemma_text_less_irreflexive(x);
        },
        None => {},
    }
    if let (Some(x), Some(y), Some(z)) = (a, b, c) {
        if text_less(x, y) && text_less(y, z) {
            lemma_text_less_transitive(x, y, z);
        }
    }
    if let (Some(x), Some(y)) = (a, b) {
        lemma_text_less_total(x, y);
    }
}

pub proof fn lemma_row_less_irreflexive(a: Seq<CellView>, keys: Seq<(int, bool)>)
    ensures
        !row_less(a, a, keys),
    decreases keys.len(),
{
    if keys.len() > 0 {
        lemma_row_less_irreflexive(a, keys.drop_first());
    }
}

pub proof fn lemma_row_less_transitive(a: Seq<CellView>, b: Seq<CellView>, c: Seq<CellView>, keys: Seq<(int, bool)>)
    requires
        row_less(a, b, keys),
        row_less(b, c, keys),
    ensures
        row_less(a, c, keys),
    decreases keys.len(),
{
    if keys.len() > 0 {
        let k = keys[0].0;
        lemma_cell_less_facts(a[k], b[k], c[k]);
        lemma_cell_less_facts(c[k], b[k], a[k]);
        lemma_cell_less_facts(a[k], c[k], a[k]);
        lemma_cell_less_facts(b[k], a[k], b[k]);
        lemma_cell_less_facts(b[k], c[k], a[k]);
        lemma_cell_less_facts(c[k], a[k], b[k]);
        if a[k] == b[k] && b[k] == c[k] {
            lemma_row_less_transitive(a, b, c, keys.drop_first());
        }
    }
}

proof fn lemma_insert_sorted_elements(s: Seq<Seq<CellView>>, x: Seq<CellView>, keys: Seq<(int, bool)>)
    ensures
        insert_sorted(s, x, keys).len() == s.len() + 1,
        forall|i: int| 0 <= i < s.len() + 1 ==> #[trigger] insert_sorted(s, x, keys)[i] == x || s.contains(insert_sorted(s, x, keys)[i]),
    decreases s.len(),
{
    if s.len() > 0 && !row_less(x, s[0], keys) {
        lemma_insert_sorted_elements(s.drop_first(), x, keys);
        let r = insert_sorted(s, x, keys);
        assert forall|i: int| 0 <= i < s.len() + 1 implies #[trigger] r[i] == x || s.contains(r[i]) by {
            if i > 0 {
                let e = insert_sorted(s.drop_first(), x, keys)[i - 1];
                assert(r[i] == e);
                if e != x {
                    let j = choose|j: int| 0 <= j < s.drop_first().len() && s.drop_first()[j] == e;
                    assert(s[j + 1] == e);
                }
            } else {
                assert(s[0] == r[0]);
            }
        }
    } else if s.len() > 0 {
        let r = insert_sorted(s, x, keys);
        assert forall|i: int| 0 <= i < s.len() + 1 implies #[trigger] r[i] == x || s.contains(r[i]) by {
            if i > 0 {
                assert(r[i] == s[i - 1]);
            }
        }
    }
}

proof fn lemma_insert_sorted_sorted(s: Seq<Seq<CellView>>, x: Seq<CellView>, keys: Seq<(int, bool)>)
    requires
        sorted(s, keys),
    ensures
        sorted(insert_sorted(s, x, keys), keys),
    decreases s.len(),
{
    let r = insert_sorted(s, x, keys);
    if s.len() == 0 {
    } else if row_less(x, s[0], keys) {
        assert forall|i: int, j: int| 0 <= i < j < r.len() implies !row_less(r[j], r[i], keys) by {
            if i == 0 {
                assert(r[j] == s[j - 1]);
                if row_less(s[j - 1], x, keys) {
                    lemma_row_less_transitive(s[j - 1], x, s[0], keys);
                    if j - 1 == 0 {
                        lemma_row_less_irreflexive(s[0], keys);
                    }
                }
            } else {
                assert(r[i] == s[i - 1] && r[j] == s[j - 1]);
            }
        }
    } else {
        let t = s.drop_first();
        assert(sorted(t, keys)) by {
            assert forall|i: int, j: int| 0 <= i < j < t.len() implies !row_less(t[j], t[i], keys) by {
                assert(t[i] == s[i + 1] && t[j] == s[j + 1]);
            }
        }
        lemma_insert_sorted_sorted(t, x, keys);
        lemma_insert_sorted_elements(t, x, keys);
        let rest = insert_sorted(t, x, keys);
        assert forall|i: int, j: int| 0 <= i < j < r.len() implies !row_less(r[j], r[i], keys) by {
            if i == 0 {
                assert(r[0] == s[0]);
                assert(r[j] == rest[j - 1]);
                if rest[j - 1] != x {
                    let m = choose|m: int| 0 <= m < t.len() && t[m] == rest[j - 1];
                    assert(t[m] == s[m + 1]);
                }
            } else {
                assert(r[i] == rest[i - 1] && r[j] == rest[j - 1]);
            }
        }
    }
}

pub proof fn lemma_sort_rows_sorted(s: Seq<Seq<CellView>>, keys: Seq<(int, bool)>)
    ensures
        sorted(sort_rows(s, keys), keys),
        sort_rows(s, keys).len() == s.len(),
    decreases s.len(),
{
    if s.len() > 0 {
        lemma_sort_rows_sorted(s.drop_last(), keys);
        lemma_insert_sorted_sorted(sort_rows(s.drop_last(), keys), s.last(), keys);
        lemma_insert_sorted_elements(sort_rows(s.drop_last(), keys), s.last(), keys);
    }
}

proof fn lemma_insert_sorted_at_end(s: Seq<Seq<CellView>>, x: Seq<CellView>, keys: Seq<(int, bool)>)
    requires
        forall|i: int| 0 <= i < s.len() ==> !row_less(x, #[trigger] s[i], keys),
    ensures
        insert_sorted(s, x, keys) == s.push(x),
    decreases s.len(),
{
    if s.len() > 0 {
        let t = s.drop_first();
        assert forall|i: int| 0 <= i < t.len() implies !row_less(x, #[trigger] t[i], keys) by {
            assert(t[i] == s[i + 1]);
        }
        lemma_insert_sorted_at_end(t, x, keys);
        assert(insert_sorted(s, x, keys) =~= s.push(x));
    }
}

pub proof fn lemma_sort_rows_of_sorted(s: Seq<Seq<CellView>>, keys: Seq<(int, bool)>)
    requires
        sorted(s, keys),
    ensures
        sort_rows(s, keys) == s,
    decreases s.len(),
{
    if s.len() > 0 {
        let t = s.drop_last();
        assert(sorted(t, keys));
        lemma_sort_rows_of_sorted(t, keys);
        assert forall|i: int| 0 <= i < t.len() implies !row_less(s.last(), #[trigger] t[i], keys) by {
            assert(t[i] == s[i]);
        }
        lemma_insert_sorted_at_end(t, s.last(), keys);
        assert(t.push(s.last()) =~= s);
    }
}

/// Sorting rows twice under the same keys gives what sorting them once does.
pub proof fn lemma_sort_rows_idempotent(s: Seq<Seq<CellView>>, keys: Seq<(int, bool)>)
    ensures
        sort_rows(sort_rows(s, keys), keys) == sort_rows(s, keys),
{
    lemma_sort_rows_sorted(s, keys);
    lemma_sort_rows_of_sorted(sort_rows(s, keys), keys);
}

pub open spec fn keys_view(keys: Seq<(usize, bool)>) -> Seq<(int, bool)> {
    keys.map_values(|k: (usize, bool)| (k.0 as int, k.1))
}

fn cell_less_exec(a: &Option<String>, b: &Option<String>) -> (r: bool)
    ensures
        r == cell_less(crate::row::cell_view(*a), crate::row::cell_view(*b)),
{
    match (a, b) {
        (None, Some(_)) => true,
        (Some(x), Some(y)) => compare_text(x.as_str(), y.as_str()) == -1,
        _ => false,
    }
}

fn cell_eq_exec(a: &Option<String>, b: &Option<String>) -> (r: bool)
    ensures
        r == (crate::row::cell_view(*a) == crate::row::cell_view(*b)),
{
    match (a, b) {
        (None, None) => true,
        (Some(x), Some(y)) => compare_text(x.as_str(), y.as_str()) == 0,
        _ => false,
    }
}

/// Whether row `a` comes strictly before row `b` under the keys.
pub fn row_less_exec(a: &Row, b: &Row, keys: &Vec<(usize, bool)>) -> (r: bool)
    requires
        forall|i: int| 0 <= i < keys@.len() ==> (#[trigger] keys@[i]).0 < a@.len() && keys@[i].0 < b@.len(),
    ensures
        r == row_less(a@, b@, keys_view(keys@)),
{
    let ghost ks = keys_view(keys@);
    let mut i: usize = 0;
    proof {
        assert(ks.subrange(0, ks.len() as int) =~= ks);
    }
    while i < keys.len()
        invariant
            ks == keys_view(keys@),
            forall|j: int| 0 <= j < keys@.len() ==> (#[trigger] keys@[j]).0 < a@.len() && keys@[j].0 < b@.len(),
            i <= keys@.len(),
            row_less(a@, b@, ks.subrange(i as int, ks.len() as int)) == row_less(a@, b@, ks),
        decreases keys@.len() - i,
    {
        let c = keys[i].0;
        let asc = keys[i].1;
        let ghost rest = ks.subrange(i as int, ks.len() as int);
        proof {
            assert(rest[0] == (c as int, asc));
            assert(rest.drop_first() =~= ks.subrange(i + 1, ks.len() as int));
            assert(a@[c as int] == crate::row::cell_view(a.0@[c as int]));
            assert(b@[c as int] == crate::row::cell_view(b.0@[c as int]));
        }
        if !cell_eq_exec(&a.0[c], &b.0[c]) {
            if asc {
                return cell_less_exec(&a.0[c], &b.0[c]);
            } else {
                return cell_less_exec(&b.0[c], &a.0[c]);
            }
        }
        i += 1;
    }
    false
}

proof fn lemma_insert_sorted_at(s: Seq<Seq<CellView>>, x: Seq<CellView>, keys: Seq<(int, bool)>, j: int)
    requires
        0 <= j <= s.len(),
        forall|i: int| 0 <= i < j ==> !row_less(x, #[trigger] s[i], keys),
        j < s.len() ==> row_less(x, s[j], keys),
    ensures
        insert_sorted(s, x, keys) == s.insert(j, x),
    decreases j,
{
    if j == 0 {
        if s.len() == 0 {
            assert(s.insert(0, x) =~= seq![x]);
        } else {
            assert(s.insert(0, x) =~= seq![x] + s);
        }
    } else {
        let t = s.drop_first();
        assert forall|i: int| 0 <= i < j - 1 implies !row_less(x, #[trigger] t[i], keys) by {
            assert(t[i] == s[i + 1]);
        }
        if j < s.len() {
            assert(t[j - 1] == s[j]);
        }
        lemma_insert_sorted_at(t, x, keys, j - 1);
        assert(!row_less(x, s[0], keys));
        assert(seq![s[0]] + t.insert(j - 1, x) =~= s.insert(j, x));
    }
}

/// Sorts rows under the keys, stably.
pub fn sort_rows_exec(rows: Vec<Row>, keys: &Vec<(usize, bool)>, width: usize) -> (r: Vec<Row>)
    requires
        forall|p: int| 0 <= p < rows@.len() ==> (#[trigger] rows@[p])@.len() == width,
        forall|i: int| 0 <= i < keys@.len() ==> (#[trigger] keys@[i]).0 < width,
    ensures
        crate::model::rows_view(r@) == sort_rows(crate::model::rows_view(rows@), keys_view(keys@)),
        forall|p: int| 0 <= p < r@.len() ==> (#[trigger] r@[p])@.len() == width,
{
    let ghost all = crate::model::rows_view(rows@);
    let ghost ks = keys_view(keys@);
    let n = rows.len();
    let mut out: Vec<Row> = Vec::new();
    let mut rest = rows;
    let mut i: usize = 0;
    proof {
        assert(all.subrange(0, 0) =~= Seq::<Seq<CellView>>::empty());
        assert(rest@ =~= rows@.subrange(0, n as int));
    }
    while i < n
        invariant
            n == rows@.len(),
            all == crate::model::rows_view(rows@),
            ks == keys_view(keys@),
            forall|j: int| 0 <= j < keys@.len() ==> (#[trigger] keys@[j]).0 < width,
            forall|p: int| 0 <= p < rows@.len() ==> (#[trigger] rows@[p])@.len() == width,
            i <= n,
            rest@ == rows@.subrange(i as int, n as int),
            crate::model::rows_view(out@) == sort_rows(all.subrange(0, i as int), ks),
            forall|p: int| 0 <= p < out@.len() ==> (#[trigger] out@[p])@.len() == width,
        decreases n - i,
    {
        let x = rest.remove(0);
        proof {
            assert(x == rows@[i as int]);
            assert(rest@ =~= rows@.subrange(i + 1, n as int));
        }
        let ghost sv = crate::model::rows_view(out@);
        let mut j: usize = 0;
        let mut found = false;
        while j < out.len() && !found
            invariant
                ks == keys_view(keys@),
                forall|q: int| 0 <= q < keys@.len() ==> (#[trigger] keys@[q]).0 < width,
                forall|p: int| 0 <= p < out@.len() ==> (#[trigger] out@[p])@.len() == width,
                x@.len() == width,
                sv == crate::model::rows_view(out@),
                j <= out@.len(),
                forall|q: int| 0 <= q < j ==> !row_less(x@, #[trigger] sv[q], ks),
                found ==> j < out@.len() && row_less(x@, sv[j as int], ks),
            decreases out@.len() - j + (if found { 0int } else { 1int }),
        {
            proof {
                assert(sv[j as int] == out@[j as int]@);
            }
            if row_less_exec(&x, &out[j], keys) {
                found = true;
            } else {
                j += 1;
            }
        }
        proof {
            if j < out@.len() {
                assert(sv[j as int] == out@[j as int]@);
            }
            lemma_insert_sorted_at(sv, x@, ks, j as int);
            let pre = all.subrange(0, i + 1);
            assert(pre.drop_last() =~= all.subrange(0, i as int));
            assert(pre.last() == x@);
        }
        out.insert(j, x);
        proof {
            assert(crate::model::rows_view(out@) =~= sv.insert(j as int, x@));
        }
        i += 1;
    }
    proof {
        assert(all.subrange(0, n as int) =~= all);
    }
    out
}

} // verus!

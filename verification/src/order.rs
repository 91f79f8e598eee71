//! The processing order on candidate sequences, and why the ordered
//! candidate list is unique: sortedness, totality, and the membership of
//! the window enumeration.

use vstd::prelude::*;

use crate::model::{
    candidate_list, cand_filter, insert_into, is_candidate, is_window, lex_less, proc_before,
    proc_sorted, sort_all, windows_at, windows_sizes,
};

verus! {

/// No sequence is lexicographically below itself.
pub proof fn lemma_lex_irrefl(a: Seq<u8>)
    ensures
        !lex_less(a, a),
    decreases a.len(),
{
    if a.len() > 0 {
        lemma_lex_irrefl(a.skip(1));
    }
}

/// The lexicographic order is asymmetric.
pub proof fn lemma_lex_asym(a: Seq<u8>, b: Seq<u8>)
    ensures
        !(lex_less(a, b) && lex_less(b, a)),
    decreases a.len(),
{
    if a.len() > 0 && b.len() > 0 && a[0] == b[0] {
        lemma_lex_asym(a.skip(1), b.skip(1));
    }
}

/// Two distinct sequences of one length are lexicographically comparable.
pub proof fn lemma_lex_total(a: Seq<u8>, b: Seq<u8>)
    requires
        a.len() == b.len(),
        a != b,
    ensures
        lex_less(a, b) || lex_less(b, a),
    decreases a.len(),
{
    if a.len() == 0 {
        assert(a =~= b);
    }
    if a.len() > 0 && a[0] == b[0] {
        assert(a.skip(1) != b.skip(1)) by {
            if a.skip(1) == b.skip(1) {
                assert forall|i: int| 0 <= i < a.len() implies a[i] == b[i] by {
                    if i > 0 {
                        assert(a.skip(1)[i - 1] == a[i]);
                        assert(b.skip(1)[i - 1] == b[i]);
                    }
                }
                assert(a =~= b);
            }
        }
        lemma_lex_total(a.skip(1), b.skip(1));
    }
}

/// The lexicographic order is transitive on sequences of one length.
pub proof fn lemma_lex_trans(a: Seq<u8>, b: Seq<u8>, c: Seq<u8>)
    requires
        a.len() == b.len() == c.len(),
        lex_less(a, b),
        lex_less(b, c),
    ensures
        lex_less(a, c),
    decreases a.len(),
{
    if a.len() > 0 {
        if a[0] == b[0] && b[0] == c[0] {
            lemma_lex_trans(a.skip(1), b.skip(1), c.skip(1));
        }
    }
}

/// The processing order never puts a sequence before itself.
pub proof fn lemma_proc_irrefl(a: Seq<u8>)
    ensures
        !proc_before(a, a),
{
    lemma_lex_irrefl(a);
}

/// The processing order is asymmetric.
pub proof fn lemma_proc_asym(a: Seq<u8>, b: Seq<u8>)
    ensures
        !(proc_before(a, b) && proc_before(b, a)),
{
    if a.len() == b.len() {
        lemma_lex_asym(a, b);
    }
}

/// Two distinct sequences are comparable in the processing order.
pub proof fn lemma_proc_total(a: Seq<u8>, b: Seq<u8>)
    requires
        a != b,
    ensures
        proc_before(a, b) || proc_before(b, a),
{
    if a.len() == b.len() {
        lemma_lex_total(a, b);
    }
}

/// The processing order is transitive.
pub proof fn lemma_proc_trans(a: Seq<u8>, b: Seq<u8>, c: Seq<u8>)
    requires
        proc_before(a, b),
        proc_before(b, c),
    ensures
        proc_before(a, c),
{
    if a.len() == b.len() && b.len() == c.len() {
        lemma_lex_trans(a, b, c);
    }
}

/// Membership in a sequence with one element prepended.
pub proof fn lemma_cons_contains(h: Seq<u8>, rest: Seq<Seq<u8>>, v: Seq<u8>)
    ensures
        (seq![h] + rest).contains(v) <==> (v == h || rest.contains(v)),
{
    let q = seq![h] + rest;
    if v == h {
        assert(q[0] == v);
    }
    if rest.contains(v) {
        let i = choose|i: int| 0 <= i < rest.len() && rest[i] == v;
        assert(q[i + 1] == v);
    }
    if q.contains(v) {
        let i = choose|i: int| 0 <= i < q.len() && q[i] == v;
        if i > 0 {
            assert(rest[i - 1] == v);
        }
    }
}

/// Inserting keeps the order.
pub proof fn lemma_insert_sorted(q: Seq<Seq<u8>>, w: Seq<u8>)
    requires
        proc_sorted(q),
    ensures
        proc_sorted(insert_into(q, w)),
    decreases q.len(),
{
    if q.len() == 0 {
    } else if w == q[0] {
    } else if proc_before(w, q[0]) {
        let out = seq![w] + q;
        assert forall|i: int, j: int| 0 <= i < j < out.len() implies proc_before(
            out[i],
            out[j],
        ) by {
            if i == 0 {
                assert(out[j] == q[j - 1]);
                if j > 1 {
                    lemma_proc_trans(w, q[0], q[j - 1]);
                }
            } else {
                assert(out[i] == q[i - 1] && out[j] == q[j - 1]);
            }
        }
    } else {
        let tail = q.skip(1);
        assert(proc_sorted(tail)) by {
            assert forall|i: int, j: int| 0 <= i < j < tail.len() implies proc_before(
                tail[i],
                tail[j],
            ) by {
                assert(tail[i] == q[i + 1] && tail[j] == q[j + 1]);
            }
        }
        lemma_insert_sorted(tail, w);
        lemma_proc_total(w, q[0]);
        let ins = insert_into(tail, w);
        let out = seq![q[0]] + ins;
        assert forall|i: int, j: int| 0 <= i < j < out.len() implies proc_before(
            out[i],
            out[j],
        ) by {
            if i == 0 {
                assert(out[j] == ins[j - 1]);
                lemma_insert_contains(tail, w, ins[j - 1]);
                if ins[j - 1] == w {
                } else {
                    let k = choose|k: int| 0 <= k < tail.len() && tail[k] == ins[j - 1];
                    assert(tail[k] == q[k + 1]);
                }
            } else {
                assert(out[i] == ins[i - 1] && out[j] == ins[j - 1]);
            }
        }
    }
}

/// Membership after an insertion.
pub proof fn lemma_insert_contains(q: Seq<Seq<u8>>, w: Seq<u8>, v: Seq<u8>)
    ensures
        insert_into(q, w).contains(v) <==> (q.contains(v) || v == w),
    decreases q.len(),
{
    if q.len() == 0 {
        let out = seq![w];
        assert(out[0] == w);
        if out.contains(v) {
            let i = choose|i: int| 0 <= i < out.len() && out[i] == v;
            assert(v == w);
        }
    } else if w == q[0] {
        if q.contains(v) {
        }
        if v == w {
            assert(q[0] == v);
        }
    } else if proc_before(w, q[0]) {
        lemma_cons_contains(w, q, v);
    } else {
        let tail = q.skip(1);
        lemma_insert_contains(tail, w, v);
        lemma_cons_contains(q[0], insert_into(tail, w), v);
        lemma_cons_contains(q[0], tail, v);
        assert(seq![q[0]] + tail =~= q);
    }
}

/// The sorted collection is ordered.
pub proof fn lemma_sort_all_sorted(items: Seq<Seq<u8>>)
    ensures
        proc_sorted(sort_all(items)),
    decreases items.len(),
{
    if items.len() > 0 {
        lemma_sort_all_sorted(items.skip(1));
        lemma_insert_sorted(sort_all(items.skip(1)), items[0]);
    }
}

/// Sorting keeps exactly the members.
pub proof fn lemma_sort_all_contains(items: Seq<Seq<u8>>, v: Seq<u8>)
    ensures
        sort_all(items).contains(v) <==> items.contains(v),
    decreases items.len(),
{
    if items.len() > 0 {
        lemma_sort_all_contains(items.skip(1), v);
        lemma_insert_contains(sort_all(items.skip(1)), items[0], v);
        lemma_cons_contains(items[0], items.skip(1), v);
        assert(seq![items[0]] + items.skip(1) =~= items);
    }
}

/// Two ordered sequences with the same members are equal: the candidate
/// list is pinned by order and membership alone.
pub proof fn lemma_proc_sorted_unique(q1: Seq<Seq<u8>>, q2: Seq<Seq<u8>>)
    requires
        proc_sorted(q1),
        proc_sorted(q2),
        forall|w: Seq<u8>| q1.contains(w) <==> #[trigger] q2.contains(w),
    ensures
        q1 == q2,
    decreases q1.len(),
{
    if q1.len() == 0 {
        if q2.len() > 0 {
            assert(q2.contains(q2[0]));
        }
        assert(q1 =~= q2);
    } else {
        assert(q1.contains(q1[0]));
        assert(q2.contains(q1[0]));
        if q2[0] != q1[0] {
            let i = choose|i: int| 0 <= i < q2.len() && q2[i] == q1[0];
            assert(i > 0);
            assert(proc_before(q2[0], q1[0]));
            assert(q2.contains(q2[0]));
            assert(q1.contains(q2[0]));
            let j = choose|j: int| 0 <= j < q1.len() && q1[j] == q2[0];
            assert(j > 0) by {
                lemma_proc_irrefl(q1[0]);
            }
            assert(proc_before(q1[0], q2[0]));
            lemma_proc_asym(q1[0], q2[0]);
        }
        let t1 = q1.skip(1);
        let t2 = q2.skip(1);
        assert(proc_sorted(t1)) by {
            assert forall|i: int, j: int| 0 <= i < j < t1.len() implies proc_before(
                t1[i],
                t1[j],
            ) by {
                assert(t1[i] == q1[i + 1] && t1[j] == q1[j + 1]);
            }
        }
        assert(proc_sorted(t2)) by {
            assert forall|i: int, j: int| 0 <= i < j < t2.len() implies proc_before(
                t2[i],
                t2[j],
            ) by {
                assert(t2[i] == q2[i + 1] && t2[j] == q2[j + 1]);
            }
        }
        assert forall|w: Seq<u8>| t1.contains(w) <==> #[trigger] t2.contains(w) by {
            lemma_cons_contains(q1[0], t1, w);
            lemma_cons_contains(q2[0], t2, w);
            assert(seq![q1[0]] + t1 =~= q1);
            assert(seq![q2[0]] + t2 =~= q2);
            if t1.contains(w) {
                assert(q1.contains(w));
                assert(q2.contains(w));
                if w == q2[0] {
                    let i = choose|i: int| 0 <= i < t1.len() && t1[i] == w;
                    assert(t1[i] == q1[i + 1]);
                    assert(proc_before(q1[0], q1[i + 1]));
                    lemma_proc_irrefl(w);
                }
            }
            if t2.contains(w) {
                assert(q2.contains(w));
                assert(q1.contains(w));
                if w == q1[0] {
                    let i = choose|i: int| 0 <= i < t2.len() && t2[i] == w;
                    assert(t2[i] == q2[i + 1]);
                    assert(proc_before(q2[0], q2[i + 1]));
                    lemma_proc_irrefl(w);
                }
            }
        }
        lemma_proc_sorted_unique(t1, t2);
        assert forall|i: int| 0 <= i < q1.len() implies q1[i] == q2[i] by {
            if i > 0 {
                assert(t1[i - 1] == q1[i]);
                assert(t2[i - 1] == q2[i]);
            }
        }
        assert(q1 =~= q2);
    }
}

/// Membership of the window enumeration at one length.
pub proof fn lemma_windows_at_contains(x: Seq<u8>, len: int, i: int, v: Seq<u8>)
    requires
        0 <= i,
        len > 0,
    ensures
        windows_at(x, len, i).contains(v) <==> (v.len() == len && exists|j: int|
            i <= j && j + len <= x.len() && #[trigger] x.subrange(j, j + len) == v),
    decreases x.len() - i,
{
    if i + len <= x.len() {
        lemma_windows_at_contains(x, len, i + 1, v);
        lemma_cons_contains(x.subrange(i, i + len), windows_at(x, len, i + 1), v);
        if v.len() == len && exists|j: int|
            i <= j && j + len <= x.len() && #[trigger] x.subrange(j, j + len) == v {
            let j = choose|j: int| i <= j && j + len <= x.len() && #[trigger] x.subrange(
                j,
                j + len,
            ) == v;
            if j == i {
                assert(x.subrange(i, i + len) == v);
            } else {
                assert(i + 1 <= j && j + len <= x.len() && x.subrange(j, j + len) == v);
            }
        }
    } else {
        if windows_at(x, len, i).contains(v) {
            let k = choose|k: int| 0 <= k < windows_at(x, len, i).len() && windows_at(
                x,
                len,
                i,
            )[k] == v;
        }
    }
}

/// Membership of the window enumeration over all lengths down to 2.
pub proof fn lemma_windows_sizes_contains(x: Seq<u8>, size: int, v: Seq<u8>)
    ensures
        windows_sizes(x, size).contains(v) <==> (2 <= v.len() <= size && is_window(x, v)),
    decreases size,
{
    if size >= 2 {
        lemma_windows_sizes_contains(x, size - 1, v);
        let a = windows_at(x, size, 0);
        let b = windows_sizes(x, size - 1);
        lemma_windows_at_contains(x, size, 0, v);
        assert((a + b).contains(v) <==> (a.contains(v) || b.contains(v))) by {
            if a.contains(v) {
                let i = choose|i: int| 0 <= i < a.len() && a[i] == v;
                assert((a + b)[i] == v);
            }
            if b.contains(v) {
                let i = choose|i: int| 0 <= i < b.len() && b[i] == v;
                assert((a + b)[a.len() + i] == v);
            }
            if (a + b).contains(v) {
                let i = choose|i: int| 0 <= i < (a + b).len() && (a + b)[i] == v;
                if i < a.len() {
                    assert(a[i] == v);
                } else {
                    assert(b[i - a.len()] == v);
                }
            }
        }
        if a.contains(v) {
            assert(is_window(x, v));
        }
        if 2 <= v.len() <= size && is_window(x, v) && v.len() == size {
            let j = choose|j: int| 0 <= j && j + v.len() <= x.len() && #[trigger] x.subrange(
                j,
                j + v.len() as int,
            ) == v;
            assert(a.contains(v));
        }
    } else {
        if windows_sizes(x, size).contains(v) {
            let k = choose|k: int| 0 <= k < windows_sizes(x, size).len() && windows_sizes(
                x,
                size,
            )[k] == v;
        }
    }
}

/// Membership of the candidate filter.
pub proof fn lemma_cand_filter_contains(items: Seq<Seq<u8>>, x: Seq<u8>, v: Seq<u8>)
    ensures
        cand_filter(items, x).contains(v) <==> (items.contains(v) && is_candidate(x, v)),
    decreases items.len(),
{
    if items.len() > 0 {
        lemma_cand_filter_contains(items.skip(1), x, v);
        lemma_cons_contains(items[0], items.skip(1), v);
        assert(seq![items[0]] + items.skip(1) =~= items);
        if is_candidate(x, items[0]) {
            lemma_cons_contains(items[0], cand_filter(items.skip(1), x), v);
        }
    } else {
        if cand_filter(items, x).contains(v) {
            let k = choose|k: int| 0 <= k < cand_filter(items, x).len() && cand_filter(
                items,
                x,
            )[k] == v;
        }
        if items.contains(v) {
            let k = choose|k: int| 0 <= k < items.len() && items[k] == v;
        }
    }
}

/// The candidate list is ordered and holds exactly the candidates.
pub proof fn lemma_candidate_list_props(x: Seq<u8>)
    ensures
        proc_sorted(candidate_list(x)),
        forall|w: Seq<u8>| #[trigger] candidate_list(x).contains(w) <==> is_candidate(x, w),
{
    let items = cand_filter(windows_sizes(x, x.len() as int / 3), x);
    lemma_sort_all_sorted(items);
    assert forall|w: Seq<u8>| #[trigger] candidate_list(x).contains(w) <==> is_candidate(
        x,
        w,
    ) by {
        lemma_sort_all_contains(items, w);
        lemma_cand_filter_contains(windows_sizes(x, x.len() as int / 3), x, w);
        lemma_windows_sizes_contains(x, x.len() as int / 3, w);
    }
}

} // verus!

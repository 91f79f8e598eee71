//! The compressor: pattern discovery, savings-ranked substitution, and
//! header emission.

use vstd::prelude::*;

use crate::lemmas::{lemma_overwrite_at_index, lemma_strip_fill_snoc};
use crate::model::{
    candidate_list, compress_spec, count_matches_from, emit_header, flatten_entries, flatten_pass,
    is_candidate, is_window, lex_less, overwrite_at, pool_from, proc_before, proc_sorted, run_loop,
    savings_of, strip_fill, substitute_from, token_pool, token_range_clean, window_count,
    window_count_from, CoreState, FILL_BYTE, TOKEN_LIMIT,
};
use crate::order::{
    lemma_candidate_list_props, lemma_proc_sorted_unique, lemma_proc_total, lemma_proc_trans,
};
use crate::CompressError;

verus! {

/// Whether byte `b` occurs in `s`.
fn contains_byte(s: &Vec<u8>, b: u8) -> (r: bool)
    ensures
        r == s@.contains(b),
{
    let mut i: usize = 0;
    while i < s.len()
        invariant
            i <= s@.len(),
            forall|j: int| 0 <= j < i ==> s@[j] != b,
        decreases s@.len() - i,
    {
        if s[i] == b {
            proof {
                assert(s@[i as int] == b);
            }
            return true;
        }
        i += 1;
    }
    proof {
        assert(!s@.contains(b));
    }
    false
}

/// The token pool: every reserved byte absent from the input, highest value
/// first, so that drawing from the tail hands out the smallest free token.
pub fn find_alias_bytes(s: &Vec<u8>) -> (r: Vec<u8>)
    ensures
        r@ == token_pool(s@),
{
    let mut r: Vec<u8> = Vec::new();
    let mut k: u8 = TOKEN_LIMIT - 1;
    proof {
        assert(r@ + pool_from(s@, TOKEN_LIMIT - 1) =~= pool_from(s@, TOKEN_LIMIT - 1));
    }
    while k >= 1
        invariant
            k <= TOKEN_LIMIT - 1,
            token_pool(s@) == r@ + pool_from(s@, k as int),
        decreases k,
    {
        let ghost old_r = r@;
        if !contains_byte(s, k) {
            r.push(k);
            proof {
                assert(r@ =~= old_r + seq![k]);
                assert(old_r + (seq![k] + pool_from(s@, k as int - 1)) =~= (old_r + seq![k])
                    + pool_from(s@, k as int - 1));
            }
        }
        k -= 1;
    }
    proof {
        assert(r@ + pool_from(s@, 0) =~= r@);
    }
    r
}

/// A repeated byte sequence and its occurrence tally.
pub struct Pattern {
    pub chars: Vec<u8>,
    pub count: usize,
}

impl Pattern {
    /// Packs a sequence with its tally.
    pub fn new(chars: Vec<u8>, count: usize) -> (p: Pattern)
        ensures
            p.chars == chars,
            p.count == count,
    {
        Pattern { chars, count }
    }

    /// Net byte reduction of replacing every tallied occurrence with an
    /// alias of `alias_len` bytes, paying for one header entry.
    pub fn savings(&self, alias_len: usize) -> (r: i64)
        requires
            self.chars@.len() <= 0x4000_0000,
            self.count <= 0x4000_0000,
            alias_len <= 0x4000_0000,
        ensures
            r == savings_of(self.chars@.len() as int, self.count as int, alias_len as int),
    {
        savings_calc(self.chars.len(), self.count, alias_len)
    }
}

/// Evaluates the savings formula without overflow.
fn savings_calc(len: usize, reps: usize, alias_len: usize) -> (r: i64)
    requires
        len <= 0x4000_0000,
        reps <= 0x4000_0000,
        alias_len <= 0x4000_0000,
    ensures
        r == savings_of(len as int, reps as int, alias_len as int),
{
    let len = len as i64;
    let reps = reps as i64;
    let al = alias_len as i64;
    proof {
        assert(len * reps <= 0x4000_0000 * 0x4000_0000 && len * reps >= 0) by (nonlinear_arith)
            requires
                0 <= len <= 0x4000_0000,
                0 <= reps <= 0x4000_0000,
        ;
        assert((reps + 1) * al <= 0x4000_0001 * 0x4000_0000 && (reps + 1) * al >= 0)
            by (nonlinear_arith)
            requires
                0 <= reps <= 0x4000_0000,
                0 <= al <= 0x4000_0000,
        ;
    }
    len * reps - (reps + 1) * al - len
}

/// Some stored sequence equals `w`.
pub open spec fn holds_seq(list: Seq<Vec<u8>>, w: Seq<u8>) -> bool {
    exists|k: int| 0 <= k < list.len() && (#[trigger] list[k])@ == w
}

/// Growing the list keeps every sequence it already holds.
proof fn lemma_holds_seq_push(list: Seq<Vec<u8>>, v: Vec<u8>, w: Seq<u8>)
    requires
        holds_seq(list, w),
    ensures
        holds_seq(list.push(v), w),
{
    let k = choose|k: int| 0 <= k < list.len() && (#[trigger] list[k])@ == w;
    assert(list.push(v)[k]@ == w);
}

/// The tally never goes negative.
proof fn lemma_wcf_nonneg(s: Seq<u8>, w: Seq<u8>, i: int)
    ensures
        window_count_from(s, w, i) >= 0,
    decreases s.len() - i,
{
    if 0 <= i && i + w.len() <= s.len() && w.len() > 0 {
        lemma_wcf_nonneg(s, w, i + 1);
    }
}

/// The tally from position `i` is at most the room that is left.
proof fn lemma_wcf_upper(s: Seq<u8>, w: Seq<u8>, i: int)
    requires
        0 <= i,
    ensures
        window_count_from(s, w, i) <= s.len() - i || window_count_from(s, w, i) == 0,
    decreases s.len() - i,
{
    if 0 <= i && i + w.len() <= s.len() && w.len() > 0 {
        lemma_wcf_upper(s, w, i + 1);
        lemma_wcf_nonneg(s, w, i + 1);
    }
}

/// If `w` matches nowhere before position `i`, the tally from 0 equals the
/// tally from `i`.
proof fn lemma_wcf_prefix_free(s: Seq<u8>, w: Seq<u8>, i: int)
    requires
        0 <= i,
        forall|j: int|
            0 <= j < i && j + w.len() <= s.len() ==> #[trigger] s.subrange(j, j + w.len() as int)
                != w,
    ensures
        window_count_from(s, w, 0) == window_count_from(s, w, i),
    decreases i,
{
    if i > 0 {
        lemma_wcf_prefix_free(s, w, i - 1);
        assert(window_count_from(s, w, i - 1) == window_count_from(s, w, i));
    }
}

/// Discovers every repeated window of the input whose length runs from a
/// third of the input down to just above the alias length, with its raw
/// (overlapping) occurrence tally.  Entries are pairwise distinct and cover
/// every such window.
pub fn find_patterns(s: &Vec<u8>, alias_len: usize) -> (r: Vec<Pattern>)
    requires
        s@.len() <= 0x4000_0000,
    ensures
        forall|k: int|
            0 <= k < r@.len() ==> {
                &&& alias_len < (#[trigger] r@[k]).chars@.len()
                &&& r@[k].chars@.len() <= s@.len() as int / 3
                &&& is_window(s@, r@[k].chars@)
                &&& r@[k].count == window_count(s@, r@[k].chars@)
            },
        forall|k1: int, k2: int|
            0 <= k1 < k2 < r@.len() ==> r@[k1].chars@ != r@[k2].chars@,
        forall|w: Seq<u8>|
            is_window(s@, w) && alias_len < w.len() <= s@.len() as int / 3 ==> exists|k: int|
                0 <= k < r@.len() && (#[trigger] r@[k]).chars@ == w,
{
    let n = s.len();
    let mut chars_list: Vec<Vec<u8>> = Vec::new();
    let mut counts: Vec<usize> = Vec::new();
    let mut size: usize = n / 3;
    while size > alias_len
        invariant
            n == s@.len(),
            n <= 0x4000_0000,
            size <= n as int / 3,
            alias_len <= size || chars_list@.len() == 0,
            counts@.len() == chars_list@.len(),
            forall|k: int|
                0 <= k < chars_list@.len() ==> {
                    &&& size < (#[trigger] chars_list@[k])@.len()
                    &&& chars_list@[k]@.len() <= n as int / 3
                    &&& is_window(s@, chars_list@[k]@)
                    &&& counts@[k] == window_count(s@, chars_list@[k]@)
                },
            forall|k1: int, k2: int|
                0 <= k1 < k2 < chars_list@.len() ==> chars_list@[k1]@ != chars_list@[k2]@,
            forall|w: Seq<u8>|
                is_window(s@, w) && size < w.len() <= s@.len() as int / 3 ==> #[trigger] holds_seq(
                    chars_list@,
                    w,
                ),
        decreases size,
    {
        let mut i: usize = 0;
        while i + size <= n
            invariant
                n == s@.len(),
                n <= 0x4000_0000,
                i <= n,
                0 < size <= n as int / 3,
                counts@.len() == chars_list@.len(),
                forall|k: int|
                    0 <= k < chars_list@.len() ==> {
                        &&& size <= (#[trigger] chars_list@[k])@.len()
                        &&& chars_list@[k]@.len() <= n as int / 3
                        &&& is_window(s@, chars_list@[k]@)
                    },
                forall|k: int|
                    0 <= k < chars_list@.len() && (#[trigger] chars_list@[k])@.len() > size
                        ==> counts@[k] == window_count(s@, chars_list@[k]@),
                forall|k: int|
                    0 <= k < chars_list@.len() && (#[trigger] chars_list@[k])@.len() == size
                        ==> counts@[k] + window_count_from(s@, chars_list@[k]@, i as int)
                        == window_count(s@, chars_list@[k]@) && counts@[k] >= 1,
                forall|k1: int, k2: int|
                    0 <= k1 < k2 < chars_list@.len() ==> chars_list@[k1]@ != chars_list@[k2]@,
                forall|w: Seq<u8>|
                    is_window(s@, w) && size < w.len() <= s@.len() as int / 3
                        ==> #[trigger] holds_seq(chars_list@, w),
                forall|j: int|
                    0 <= j < i && j + size <= n ==> holds_seq(
                        chars_list@,
                        #[trigger] s@.subrange(j, j + size as int),
                    ),
            decreases n - i,
        {
            let ghost w = s@.subrange(i as int, i as int + size as int);
            match find_entry(&chars_list, s, i, size) {
                Some(k) => {
                    proof {
                        assert(window_count_from(s@, w, i as int) == 1 + window_count_from(
                            s@,
                            w,
                            i as int + 1,
                        ));
                        lemma_wcf_nonneg(s@, w, i as int + 1);
                        lemma_wcf_upper(s@, w, 0);
                        assert(holds_seq(chars_list@, w));
                    }
                    let c = counts[k];
                    counts.set(k, c + 1);
                    proof {
                        assert forall|k2: int|
                            0 <= k2 < chars_list@.len() && (#[trigger] chars_list@[k2])@.len()
                                == size && k2 != k implies counts@[k2] + window_count_from(
                            s@,
                            chars_list@[k2]@,
                            i as int + 1,
                        ) == window_count(s@, chars_list@[k2]@) by {
                            assert(s@.subrange(i as int, i as int + size as int)
                                != chars_list@[k2]@);
                            assert(window_count_from(s@, chars_list@[k2]@, i as int)
                                == window_count_from(s@, chars_list@[k2]@, i as int + 1));
                        }
                    }
                },
                None => {
                    proof {
                        assert forall|j: int|
                            0 <= j < i && j + w.len() <= s@.len() implies #[trigger] s@.subrange(
                            j,
                            j + w.len() as int,
                        ) != w by {
                            if s@.subrange(j, j + w.len() as int) == w {
                                assert(holds_seq(chars_list@, s@.subrange(j, j + size as int)));
                                let k = choose|k: int|
                                    0 <= k < chars_list@.len() && (#[trigger] chars_list@[k])@
                                        == s@.subrange(j, j + size as int);
                                assert(chars_list@[k]@ == w);
                            }
                        }
                        lemma_wcf_prefix_free(s@, w, i as int);
                        assert(window_count_from(s@, w, i as int) == 1 + window_count_from(
                            s@,
                            w,
                            i as int + 1,
                        ));
                        lemma_wcf_nonneg(s@, w, i as int + 1);
                        assert forall|k2: int|
                            0 <= k2 < chars_list@.len() && (#[trigger] chars_list@[k2])@.len()
                                == size implies counts@[k2] + window_count_from(
                            s@,
                            chars_list@[k2]@,
                            i as int + 1,
                        ) == window_count(s@, chars_list@[k2]@) by {
                            assert(s@.subrange(i as int, i as int + size as int)
                                != chars_list@[k2]@);
                            assert(window_count_from(s@, chars_list@[k2]@, i as int)
                                == window_count_from(s@, chars_list@[k2]@, i as int + 1));
                        }
                    }
                    let ghost old_list = chars_list@;
                    let wv = copy_range(s, i, size);
                    chars_list.push(wv);
                    counts.push(1);
                    proof {
                        assert(chars_list@[chars_list@.len() - 1]@ == w);
                        assert(is_window(s@, w));
                        assert forall|w2: Seq<u8>|
                            is_window(s@, w2) && size < w2.len() <= s@.len() as int
                                / 3 implies #[trigger] holds_seq(chars_list@, w2) by {
                            lemma_holds_seq_push(old_list, chars_list[chars_list.len() - 1], w2);
                        }
                        assert forall|j: int|
                            0 <= j < i + 1 && j + size <= n implies holds_seq(
                            chars_list@,
                            #[trigger] s@.subrange(j, j + size as int),
                        ) by {
                            if j < i {
                                lemma_holds_seq_push(
                                    old_list,
                                    chars_list[chars_list.len() - 1],
                                    s@.subrange(j, j + size as int),
                                );
                            } else {
                                assert(holds_seq(chars_list@, w));
                            }
                        }
                    }
                },
            }
            i += 1;
        }
        proof {
            assert forall|k: int|
                0 <= k < chars_list@.len() && (#[trigger] chars_list@[k])@.len()
                    == size implies counts@[k] == window_count(s@, chars_list@[k]@) by {
                assert(window_count_from(s@, chars_list@[k]@, i as int) == 0);
            }
            assert forall|w: Seq<u8>|
                is_window(s@, w) && size as int - 1 < w.len() <= s@.len() as int
                    / 3 implies #[trigger] holds_seq(chars_list@, w) by {
                if w.len() == size {
                    let j = choose|j: int|
                        0 <= j && j + w.len() <= s@.len() && #[trigger] s@.subrange(
                            j,
                            j + w.len() as int,
                        ) == w;
                    assert(j < i);
                    assert(holds_seq(chars_list@, s@.subrange(j, j + size as int)));
                }
            }
        }
        size -= 1;
    }
    let mut r: Vec<Pattern> = Vec::new();
    let ghost final_chars = chars_list@;
    let ghost final_counts = counts@;
    while chars_list.len() > 0
        invariant
            counts@.len() == chars_list@.len(),
            chars_list@.len() + r@.len() == final_chars.len(),
            final_counts.len() == final_chars.len(),
            forall|k: int|
                0 <= k < chars_list@.len() ==> chars_list@[k] == final_chars[k] && counts@[k]
                    == final_counts[k],
            forall|k: int|
                0 <= k < r@.len() ==> (#[trigger] r@[k]).chars@ == final_chars[final_chars.len()
                    - 1 - k]@ && r@[k].count == final_counts[final_chars.len() - 1 - k],
            forall|k: int|
                0 <= k < final_chars.len() ==> {
                    &&& alias_len < (#[trigger] final_chars[k])@.len()
                    &&& final_chars[k]@.len() <= s@.len() as int / 3
                    &&& is_window(s@, final_chars[k]@)
                    &&& final_counts[k] == window_count(s@, final_chars[k]@)
                },
            forall|k1: int, k2: int|
                0 <= k1 < k2 < final_chars.len() ==> final_chars[k1]@ != final_chars[k2]@,
        decreases chars_list@.len(),
    {
        let c = chars_list.pop().unwrap();
        let cnt = counts.pop().unwrap();
        r.push(Pattern::new(c, cnt));
    }
    proof {
        assert forall|w: Seq<u8>|
            is_window(s@, w) && alias_len < w.len() <= s@.len() as int / 3 implies exists|k: int|
            0 <= k < r@.len() && (#[trigger] r@[k]).chars@ == w by {
            assert(holds_seq(final_chars, w));
            let k = choose|k: int|
                0 <= k < final_chars.len() && (#[trigger] final_chars[k])@ == w;
            assert(r@[final_chars.len() - 1 - k].chars@ == w);
        }
    }
    r
}

/// Compares a stored sequence with the window of `s` at `[i, i + size)`.
fn eq_range(a: &Vec<u8>, s: &Vec<u8>, i: usize, size: usize) -> (r: bool)
    requires
        i + size <= s@.len(),
        s@.len() <= 0x4000_0000,
    ensures
        r == (a@ == s@.subrange(i as int, i as int + size as int)),
{
    if a.len() != size {
        return false;
    }
    let mut j: usize = 0;
    while j < size
        invariant
            j <= size,
            a@.len() == size,
            i + size <= s@.len(),
            s@.len() <= 0x4000_0000,
            forall|l: int| 0 <= l < j ==> a@[l] == s@[i + l],
        decreases size - j,
    {
        if a[j] != s[i + j] {
            proof {
                assert(s@.subrange(i as int, i as int + size as int)[j as int] == s@[i as int
                    + j]);
            }
            return false;
        }
        j += 1;
    }
    proof {
        assert forall|l: int| 0 <= l < size implies a@[l] == s@.subrange(
            i as int,
            i as int + size as int,
        )[l] by {
            assert(s@.subrange(i as int, i as int + size as int)[l] == s@[i + l]);
        }
        assert(a@ =~= s@.subrange(i as int, i as int + size as int));
    }
    true
}

/// Finds the list entry equal to the window of `s` at `[i, i + size)`.
fn find_entry(chars_list: &Vec<Vec<u8>>, s: &Vec<u8>, i: usize, size: usize) -> (r: Option<usize>)
    requires
        i + size <= s@.len(),
        s@.len() <= 0x4000_0000,
    ensures
        match r {
            Some(k) => k < chars_list@.len() && chars_list@[k as int]@ == s@.subrange(
                i as int,
                i as int + size as int,
            ),
            None => forall|k: int|
                0 <= k < chars_list@.len() ==> (#[trigger] chars_list@[k])@ != s@.subrange(
                    i as int,
                    i as int + size as int,
                ),
        },
{
    let mut k: usize = 0;
    while k < chars_list.len()
        invariant
            k <= chars_list@.len(),
            i + size <= s@.len(),
            s@.len() <= 0x4000_0000,
            forall|l: int|
                0 <= l < k ==> (#[trigger] chars_list@[l])@ != s@.subrange(
                    i as int,
                    i as int + size as int,
                ),
        decreases chars_list@.len() - k,
    {
        if eq_range(&chars_list[k], s, i, size) {
            return Some(k);
        }
        k += 1;
    }
    None
}

/// The stored sequences, each seen as its mathematical view.
pub open spec fn deep_view(list: Seq<Vec<u8>>) -> Seq<Seq<u8>> {
    Seq::new(list.len(), |i: int| list[i]@)
}

/// The alias entries, each seen as its mathematical view.
pub open spec fn pairs_view(es: Seq<(Vec<u8>, u8)>) -> Seq<(Seq<u8>, u8)> {
    Seq::new(es.len(), |i: int| (es[i].0@, es[i].1))
}

/// Lexicographic comparison of two byte vectors.
fn seq_less(a: &Vec<u8>, b: &Vec<u8>) -> (r: bool)
    ensures
        r == lex_less(a@, b@),
{
    let mut j: usize = 0;
    proof {
        assert(a@.skip(0) =~= a@);
        assert(b@.skip(0) =~= b@);
    }
    while j < a.len() && j < b.len()
        invariant
            j <= a@.len(),
            j <= b@.len(),
            lex_less(a@, b@) == lex_less(a@.skip(j as int), b@.skip(j as int)),
        decreases a@.len() - j,
    {
        proof {
            assert(a@.skip(j as int)[0] == a@[j as int]);
            assert(b@.skip(j as int)[0] == b@[j as int]);
            assert(a@.skip(j as int).skip(1) =~= a@.skip(j as int + 1));
            assert(b@.skip(j as int).skip(1) =~= b@.skip(j as int + 1));
        }
        if a[j] < b[j] {
            return true;
        }
        if a[j] > b[j] {
            return false;
        }
        j += 1;
    }
    proof {
        assert(a@.skip(j as int).len() == a@.len() - j);
        assert(b@.skip(j as int).len() == b@.len() - j);
    }
    j < b.len()
}

/// Whether `a` is processed before `b`: longer first, ties lexicographically.
fn proc_first(a: &Vec<u8>, b: &Vec<u8>) -> (r: bool)
    ensures
        r == proc_before(a@, b@),
{
    if a.len() > b.len() {
        true
    } else if a.len() == b.len() {
        seq_less(a, b)
    } else {
        false
    }
}

/// Inserts a sequence into an ordered list, keeping the processing order.
fn insert_sorted(dst: &mut Vec<Vec<u8>>, v: Vec<u8>)
    requires
        proc_sorted(deep_view(old(dst)@)),
        forall|k: int| 0 <= k < old(dst)@.len() ==> (#[trigger] old(dst)@[k])@ != v@,
    ensures
        proc_sorted(deep_view(final(dst)@)),
        final(dst)@.len() == old(dst)@.len() + 1,
        forall|w: Seq<u8>|
            #[trigger] deep_view(final(dst)@).contains(w) <==> (deep_view(old(dst)@).contains(w)
                || w == v@),
{
    let ghost dq = deep_view(old(dst)@);
    let mut p: usize = 0;
    while p < dst.len() && proc_first(&dst[p], &v)
        invariant
            p <= dst@.len(),
            dst@ == old(dst)@,
            forall|l: int| 0 <= l < p ==> proc_before((#[trigger] dst@[l])@, v@),
        decreases dst@.len() - p,
    {
        p += 1;
    }
    proof {
        if p < dst@.len() {
            lemma_proc_total(dst@[p as int]@, v@);
        }
        assert forall|l: int| p <= l < dst@.len() implies proc_before(
            v@,
            (#[trigger] dst@[l])@,
        ) by {
            assert(dq[p as int] == dst@[p as int]@);
            assert(dq[l] == dst@[l]@);
            if l > p {
                assert(proc_before(dq[p as int], dq[l]));
                lemma_proc_trans(v@, dst@[p as int]@, dst@[l]@);
            }
        }
    }
    let ghost old_view = dst@;
    dst.insert(p, v);
    proof {
        let nd = deep_view(dst@);
        assert(dst@.len() == old_view.len() + 1);
        assert forall|l: int| 0 <= l < nd.len() implies nd[l] == (if l < p {
            old_view[l]@
        } else if l == p {
            v@
        } else {
            old_view[l - 1]@
        }) by {
            assert(nd[l] == dst@[l]@);
        }
        assert forall|i: int, j: int| 0 <= i < j < nd.len() implies proc_before(
            nd[i],
            nd[j],
        ) by {
            assert(dq[i] == old_view[i]@ || true);
            if i < p && j < p {
                assert(dq[i] == old_view[i]@ && dq[j] == old_view[j]@);
            } else if i < p && j == p {
                assert(dq[i] == old_view[i]@);
            } else if i < p && j > p {
                assert(dq[i] == old_view[i]@ && dq[j - 1] == old_view[j - 1]@);
            } else if i == p {
                assert(dq[j - 1] == old_view[j - 1]@);
            } else {
                assert(dq[i - 1] == old_view[i - 1]@ && dq[j - 1] == old_view[j - 1]@);
            }
        }
        assert forall|w: Seq<u8>|
            #[trigger] deep_view(dst@).contains(w) <==> (dq.contains(w) || w == v@) by {
            if deep_view(dst@).contains(w) {
                let l = choose|l: int| 0 <= l < nd.len() && nd[l] == w;
                if l < p {
                    assert(dq[l] == w);
                } else if l > p {
                    assert(dq[l - 1] == old_view[l - 1]@ && nd[l] == old_view[l - 1]@);
                }
            }
            if dq.contains(w) {
                let l = choose|l: int| 0 <= l < dq.len() && dq[l] == w;
                if l < p {
                    assert(nd[l] == w);
                } else {
                    assert(nd[l + 1] == w);
                }
            }
            if w == v@ {
                assert(nd[p as int] == w);
            }
        }
    }
}

/// Counts non-overlapping left-to-right matches of `c` in `s`.
fn count_matches(s: &Vec<u8>, c: &Vec<u8>) -> (r: usize)
    requires
        0 < c@.len() <= 0x4000_0000,
        s@.len() <= 0x4000_0000,
    ensures
        r == count_matches_from(s@, c@, 0),
        r <= s@.len(),
{
    let mut cnt: usize = 0;
    let mut bi: usize = 0;
    while bi < s.len()
        invariant
            cnt <= bi,
            bi <= s@.len(),
            0 < c@.len() <= 0x4000_0000,
            s@.len() <= 0x4000_0000,
            count_matches_from(s@, c@, 0) == cnt + count_matches_from(s@, c@, bi as int),
        decreases s@.len() - bi,
    {
        if bi + c.len() <= s.len() && eq_range(c, s, bi, c.len()) {
            cnt += 1;
            bi += c.len();
        } else {
            bi += 1;
        }
    }
    proof {
        assert(count_matches_from(s@, c@, bi as int) == 0);
    }
    cnt
}

/// Rewrites every non-overlapping left-to-right match of `c` in `s` with the
/// token `t` followed by fill bytes.
fn substitute(s: &mut Vec<u8>, c: &Vec<u8>, t: u8)
    requires
        0 < c@.len() <= 0x4000_0000,
        old(s)@.len() <= 0x4000_0000,
    ensures
        final(s)@ == substitute_from(old(s)@, c@, t, 0),
        final(s)@.len() == old(s)@.len(),
{
    let n = s.len();
    let mut bi: usize = 0;
    while bi < n
        invariant
            bi <= n,
            n == s@.len(),
            n <= 0x4000_0000,
            0 < c@.len() <= 0x4000_0000,
            substitute_from(s@, c@, t, bi as int) == substitute_from(old(s)@, c@, t, 0),
        decreases n - bi,
    {
        if bi + c.len() <= n && eq_range(c, s, bi, c.len()) {
            let ghost entry = s@;
            let len = c.len();
            s.set(bi, t);
            let mut j: usize = bi + 1;
            while j < bi + len
                invariant
                    bi + 1 <= j <= bi + len,
                    bi + len <= n,
                    n == s@.len(),
                    forall|l: int| 0 <= l < bi ==> s@[l] == entry[l],
                    s@[bi as int] == t,
                    forall|l: int| bi < l < j ==> s@[l] == FILL_BYTE,
                    forall|l: int| j <= l < n ==> s@[l] == entry[l],
                decreases bi + len - j,
            {
                s.set(j, FILL_BYTE);
                j += 1;
            }
            proof {
                lemma_overwrite_at_index(entry, bi as int, t, len as int);
                assert(s@ =~= overwrite_at(entry, bi as int, t, len as int));
                assert(substitute_from(entry, c@, t, bi as int) == substitute_from(
                    s@,
                    c@,
                    t,
                    bi as int + len as int,
                ));
            }
            bi += len;
        } else {
            bi += 1;
        }
    }
    proof {
        assert(substitute_from(s@, c@, t, bi as int) == s@);
    }
}

/// One in-place flattening pass of the header encoder: every match of the
/// written entry bytes `w` is overwritten with its token plus fill bytes,
/// the scan advancing one position at a time.
fn flatten_pass_exec(a: &mut Vec<u8>, w: &Vec<u8>, t: u8)
    requires
        0 < w@.len() <= 0x4000_0000,
        old(a)@.len() <= 0x4000_0000,
    ensures
        final(a)@ == flatten_pass(old(a)@, w@, t, 0),
        final(a)@.len() == old(a)@.len(),
{
    let n = a.len();
    let mut bi: usize = 0;
    while bi < n
        invariant
            bi <= n,
            n == a@.len(),
            n <= 0x4000_0000,
            0 < w@.len() <= 0x4000_0000,
            flatten_pass(a@, w@, t, bi as int) == flatten_pass(old(a)@, w@, t, 0),
        decreases n - bi,
    {
        if bi + w.len() <= n && eq_range(w, a, bi, w.len()) {
            let ghost entry = a@;
            let len = w.len();
            a.set(bi, t);
            let mut j: usize = bi + 1;
            while j < bi + len
                invariant
                    bi + 1 <= j <= bi + len,
                    bi + len <= n,
                    n == a@.len(),
                    forall|l: int| 0 <= l < bi ==> a@[l] == entry[l],
                    a@[bi as int] == t,
                    forall|l: int| bi < l < j ==> a@[l] == FILL_BYTE,
                    forall|l: int| j <= l < n ==> a@[l] == entry[l],
                decreases bi + len - j,
            {
                a.set(j, FILL_BYTE);
                j += 1;
            }
            proof {
                lemma_overwrite_at_index(entry, bi as int, t, len as int);
                assert(a@ =~= overwrite_at(entry, bi as int, t, len as int));
                assert(flatten_pass(entry, w@, t, bi as int) == flatten_pass(
                    a@,
                    w@,
                    t,
                    bi as int + 1,
                ));
            }
        }
        bi += 1;
    }
    proof {
        assert(flatten_pass(a@, w@, t, bi as int) == a@);
    }
}

/// Appends `a` to `out` with every fill byte dropped.
fn append_stripped(out: &mut Vec<u8>, a: &Vec<u8>)
    ensures
        final(out)@ == old(out)@ + strip_fill(a@),
{
    let mut j: usize = 0;
    proof {
        assert(a@.subrange(0, 0) =~= Seq::<u8>::empty());
        assert(old(out)@ + strip_fill(a@.subrange(0, 0)) =~= old(out)@);
    }
    while j < a.len()
        invariant
            j <= a@.len(),
            out@ == old(out)@ + strip_fill(a@.subrange(0, j as int)),
        decreases a@.len() - j,
    {
        proof {
            assert(a@.subrange(0, j as int + 1) =~= a@.subrange(0, j as int).push(a@[j as int]));
            lemma_strip_fill_snoc(a@.subrange(0, j as int), a@[j as int]);
        }
        let b = a[j];
        if b != FILL_BYTE {
            out.push(b);
            proof {
                assert(out@ =~= old(out)@ + strip_fill(a@.subrange(0, j as int + 1)));
            }
        } else {
            proof {
                assert(out@ =~= old(out)@ + strip_fill(a@.subrange(0, j as int + 1)));
            }
        }
        j += 1;
    }
    proof {
        assert(a@.subrange(0, a@.len() as int) =~= a@);
    }
}

/// The exec result seen as the model's result.
pub open spec fn compress_result_view(r: Result<Vec<u8>, CompressError>) -> Result<
    Seq<u8>,
    CompressError,
> {
    match r {
        Ok(v) => Ok(v@),
        Err(e) => Err(e),
    }
}

/// Compresses a buffer by replacing repeated sequences with reserved tokens
/// and emitting a self-describing header.
///
/// The result is exactly what the model's pipeline yields on the input: the
/// candidates in processing order feed the substitution loop, the header is
/// emitted shortest entry first, and the output must be strictly smaller
/// than the input.  The input must not contain the terminator byte; its
/// length is capped so that the savings arithmetic fits.
pub fn compress(s: Vec<u8>) -> (r: Result<Vec<u8>, CompressError>)
    requires
        s@.len() <= 0x4000_0000,
        forall|i: int| 0 <= i < s@.len() ==> s@[i] != 0,
    ensures
        compress_result_view(r) == compress_spec(s@),
        r is Ok ==> r->Ok_0@.len() < s@.len(),
        token_range_clean(s@) && r is Ok ==> crate::model::decode_spec(r->Ok_0@) == Ok::<
            Seq<u8>,
            crate::DecompressError,
        >(s@),
{
    let ghost x = s@;
    let n = s.len();
    let mut buf = s;
    let mut pool = find_alias_bytes(&buf);
    let ghost pool0 = pool@;
    let mut patterns = find_patterns(&buf, 1);
    let ghost pats = patterns@;
    let mut cands: Vec<Vec<u8>> = Vec::new();
    proof {
        assert(deep_view(cands@).len() == 0);
    }
    while patterns.len() > 0
        invariant
            patterns@.len() <= pats.len(),
            forall|k: int| 0 <= k < patterns@.len() ==> patterns@[k] == pats[k],
            forall|k: int|
                0 <= k < pats.len() ==> {
                    &&& 1 < (#[trigger] pats[k]).chars@.len()
                    &&& pats[k].chars@.len() <= x.len() as int / 3
                    &&& is_window(x, pats[k].chars@)
                    &&& pats[k].count == window_count(x, pats[k].chars@)
                },
            forall|k1: int, k2: int| 0 <= k1 < k2 < pats.len() ==> pats[k1].chars@ != pats[k2].chars@,
            x.len() <= 0x4000_0000,
            proc_sorted(deep_view(cands@)),
            forall|w: Seq<u8>|
                #[trigger] deep_view(cands@).contains(w) <==> (is_candidate(x, w) && exists|k: int|
                    patterns@.len() <= k < pats.len() && (#[trigger] pats[k]).chars@ == w),
        decreases patterns@.len(),
    {
        let p = patterns.pop().unwrap();
        let ghost idx = patterns@.len() as int;
        proof {
            assert(p == pats[idx]);
            lemma_wcf_upper(x, p.chars@, 0);
            lemma_wcf_nonneg(x, p.chars@, 0);
        }
        let ghost old_cands = cands@;
        let sv = p.savings(1);
        if sv > 0 {
            proof {
                assert(is_candidate(x, p.chars@));
                assert forall|k: int| 0 <= k < cands@.len() implies (#[trigger] cands@[k])@
                    != p.chars@ by {
                    if cands@[k]@ == p.chars@ {
                        assert(deep_view(cands@)[k] == p.chars@);
                        assert(deep_view(cands@).contains(p.chars@));
                        let k2 = choose|k2: int|
                            idx + 1 <= k2 < pats.len() && (#[trigger] pats[k2]).chars@ == p.chars@;
                        assert(pats[idx].chars@ != pats[k2].chars@);
                    }
                }
            }
            insert_sorted(&mut cands, p.chars);
            proof {
                assert forall|w: Seq<u8>|
                    #[trigger] deep_view(cands@).contains(w) <==> (is_candidate(x, w) && exists|
                        k: int,
                    | idx <= k < pats.len() && (#[trigger] pats[k]).chars@ == w) by {
                    if deep_view(cands@).contains(w) {
                        if w == pats[idx].chars@ {
                            assert(idx <= idx < pats.len() && pats[idx].chars@ == w);
                        }
                    }
                    if is_candidate(x, w) && exists|k: int|
                        idx <= k < pats.len() && (#[trigger] pats[k]).chars@ == w {
                        let k = choose|k: int|
                            idx <= k < pats.len() && (#[trigger] pats[k]).chars@ == w;
                        if k == idx {
                            assert(deep_view(cands@).contains(w));
                        } else {
                            assert(deep_view(old_cands).contains(w));
                        }
                    }
                }
            }
        } else {
            proof {
                assert(!is_candidate(x, p.chars@));
                assert forall|w: Seq<u8>|
                    #[trigger] deep_view(cands@).contains(w) <==> (is_candidate(x, w) && exists|
                        k: int,
                    | idx <= k < pats.len() && (#[trigger] pats[k]).chars@ == w) by {
                    if is_candidate(x, w) && exists|k: int|
                        idx <= k < pats.len() && (#[trigger] pats[k]).chars@ == w {
                        let k = choose|k: int|
                            idx <= k < pats.len() && (#[trigger] pats[k]).chars@ == w;
                        assert(k != idx);
                        assert(idx + 1 <= k < pats.len() && pats[k].chars@ == w);
                    }
                }
            }
        }
    }
    let ghost dc = deep_view(cands@);
    proof {
        lemma_candidate_list_props(x);
        assert forall|w: Seq<u8>| dc.contains(w) <==> #[trigger] candidate_list(x).contains(
            w,
        ) by {
            if is_candidate(x, w) {
                assert(exists|k: int| 0 <= k < pats.len() && (#[trigger] pats[k]).chars@ == w);
            }
        }
        lemma_proc_sorted_unique(dc, candidate_list(x));
        assert(dc == candidate_list(x));
    }
    if cands.len() == 0 {
        return Err(CompressError::NoBeneficialPattern);
    }
    if pool.len() == 0 {
        return Err(CompressError::TokenPoolExhausted);
    }
    let ghost st0 = CoreState { buf: x, pool: pool0, aliases: Seq::empty() };
    let ghost fstate = run_loop(dc, st0);
    let mut aliases: Vec<(Vec<u8>, u8)> = Vec::new();
    let mut ci: usize = 0;
    let mut stopped = false;
    proof {
        assert(dc.skip(0) =~= dc);
        assert(pairs_view(aliases@) =~= Seq::<(Seq<u8>, u8)>::empty());
        assert forall|k: int| 0 <= k < cands@.len() implies is_candidate(
            x,
            (#[trigger] cands@[k])@,
        ) by {
            assert(dc[k] == cands@[k]@);
            assert(candidate_list(x).contains(dc[k]));
        }
    }
    while ci < cands.len() && !stopped
        invariant
            ci <= cands@.len(),
            n == x.len(),
            n <= 0x4000_0000,
            buf@.len() == n,
            dc == deep_view(cands@),
            forall|k: int|
                0 <= k < cands@.len() ==> is_candidate(x, (#[trigger] cands@[k])@),
            forall|k: int|
                0 <= k < aliases@.len() ==> 2 <= (#[trigger] aliases@[k]).0@.len() <= x.len() as int
                    / 3,
            !stopped ==> run_loop(
                dc.skip(ci as int),
                (CoreState { buf: buf@, pool: pool@, aliases: pairs_view(aliases@) }),
            ) == fstate,
            stopped ==> (CoreState { buf: buf@, pool: pool@, aliases: pairs_view(aliases@) })
                == fstate,
        decreases cands@.len() - ci + (if stopped { 0int } else { 1int }),
    {
        proof {
            assert(deep_view(cands@)[ci as int] == cands@[ci as int]@);
            assert(deep_view(cands@).contains(cands@[ci as int]@));
            assert(is_candidate(x, cands@[ci as int]@));
            assert(dc.skip(ci as int)[0] == dc[ci as int]);
            assert(dc.skip(ci as int).skip(1) =~= dc.skip(ci as int + 1));
        }
        let c = &cands[ci];
        let cnt = count_matches(&buf, c);
        let sv = savings_calc(c.len(), cnt, 1);
        if sv <= 0 {
            ci += 1;
        } else {
            match pool.pop() {
                None => {
                    stopped = true;
                },
                Some(t) => {
                    let ghost buf_before = buf@;
                    let ghost aliases_before = aliases@;
                    substitute(&mut buf, c, t);
                    let held = copy_range(c, 0, c.len());
                    proof {
                        assert(c@.subrange(0, c@.len() as int) =~= c@);
                    }
                    aliases.push((held, t));
                    proof {
                        assert(pairs_view(aliases@) =~= pairs_view(aliases_before).push(
                            (cands@[ci as int]@, t),
                        ));
                    }
                    ci += 1;
                },
            }
        }
    }
    proof {
        if !stopped {
            assert(dc.skip(ci as int).len() == 0);
        }
        assert(CoreState { buf: buf@, pool: pool@, aliases: pairs_view(aliases@) } == fstate);
        assert(pairs_view(aliases@) == fstate.aliases);
    }
    let ghost header_target = emit_header(fstate.aliases.reverse(), Seq::empty(), Seq::empty());
    let mut out: Vec<u8> = Vec::new();
    let mut written: Vec<(Vec<u8>, u8)> = Vec::new();
    proof {
        assert(pairs_view(written@) =~= Seq::<(Seq<u8>, u8)>::empty());
        assert(pairs_view(aliases@).reverse() =~= fstate.aliases.reverse());
        assert(out@ =~= Seq::<u8>::empty());
    }
    while aliases.len() > 0
        invariant
            n <= 0x4000_0000,
            x.len() == n,
            forall|k: int|
                0 <= k < aliases@.len() ==> 2 <= (#[trigger] aliases@[k]).0@.len() <= x.len() as int
                    / 3,
            forall|k: int|
                0 <= k < written@.len() ==> 1 <= (#[trigger] written@[k]).0@.len()
                    <= 0x4000_0000,
            emit_header(pairs_view(aliases@).reverse(), pairs_view(written@), out@)
                == header_target,
        decreases aliases@.len(),
    {
        let ghost old_pairs = pairs_view(aliases@);
        let ghost rv = old_pairs.reverse();
        let ghost pw = pairs_view(written@);
        let popped = aliases.pop().unwrap();
        let mut a = popped.0;
        let t = popped.1;
        proof {
            assert(rv[0] == old_pairs[old_pairs.len() - 1]);
            assert(rv[0] == (a@, t));
            assert(rv.skip(1) =~= pairs_view(aliases@).reverse());
        }
        let ghost a_start = a@;
        let mut wi: usize = 0;
        proof {
            assert(pw.skip(0) =~= pw);
        }
        while wi < written.len()
            invariant
                wi <= written@.len(),
                pw == pairs_view(written@),
                a@.len() == a_start.len(),
                a_start.len() <= 0x4000_0000,
                forall|k: int|
                    0 <= k < written@.len() ==> 1 <= (#[trigger] written@[k]).0@.len()
                        <= 0x4000_0000,
                flatten_entries(pw, a_start) == flatten_entries(
                    pw.skip(wi as int),
                    a@,
                ),
            decreases written@.len() - wi,
        {
            proof {
                assert(pw.skip(wi as int)[0] == pw[wi as int]);
                assert(pw[wi as int] == (written@[wi as int].0@, written@[wi as int].1));
                assert(pw.skip(wi as int).skip(1) =~= pw.skip(wi as int + 1));
            }
            let entry = &written[wi];
            flatten_pass_exec(&mut a, &entry.0, entry.1);
            wi += 1;
        }
        proof {
            assert(pw.skip(wi as int).len() == 0);
            assert(a@ == flatten_entries(pw, a_start));
        }
        let ghost out_before = out@;
        append_stripped(&mut out, &a);
        out.push(t);
        proof {
            assert(out@ =~= (out_before + strip_fill(a@)) + seq![t]);
        }
        written.push((a, t));
        proof {
            assert(pairs_view(written@) =~= pw.push(
                (flatten_entries(pw, a_start), t),
            ));
        }
    }
    proof {
        assert(pairs_view(aliases@).reverse().len() == 0);
        assert(out@ == header_target);
    }
    let ghost header_bytes = out@;
    out.push(FILL_BYTE);
    let ghost with_term = out@;
    append_stripped(&mut out, &buf);
    proof {
        assert(with_term =~= header_bytes + seq![FILL_BYTE]);
        assert(out@ =~= (header_bytes + seq![FILL_BYTE]) + strip_fill(buf@));
        assert(out@ =~= header_target + seq![FILL_BYTE] + strip_fill(fstate.buf));
    }
    if out.len() >= n {
        return Err(CompressError::NoSizeReduction);
    }
    proof {
        if token_range_clean(x) {
            crate::laws::lemma_round_trip(x, out@);
        }
    }
    Ok(out)
}

/// Copies the window of `s` at `[i, i + size)`.
fn copy_range(s: &Vec<u8>, i: usize, size: usize) -> (r: Vec<u8>)
    requires
        i + size <= s@.len(),
        s@.len() <= 0x4000_0000,
    ensures
        r@ == s@.subrange(i as int, i as int + size as int),
{
    let mut r: Vec<u8> = Vec::new();
    let mut j: usize = 0;
    while j < size
        invariant
            j <= size,
            i + size <= s@.len(),
            s@.len() <= 0x4000_0000,
            r@ == s@.subrange(i as int, i as int + j as int),
        decreases size - j,
    {
        r.push(s[i + j]);
        proof {
            assert(r@ =~= s@.subrange(i as int, i as int + j as int + 1));
        }
        j += 1;
    }
    proof {
        assert(r@ =~= s@.subrange(i as int, i as int + size as int));
    }
    r
}

} // verus!

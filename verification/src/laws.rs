//! The codec's laws: what the compressor's output decodes to.
//!
//! The central result is the round trip: on token-range-clean input, every
//! buffer the compressor accepts decodes back to the original bytes.  The
//! proofs walk the model's pipeline with one invariant: expanding the
//! stripped buffer under the alias table always restores the input.

use vstd::prelude::*;

use crate::model::{
    body_bound, candidate_list, compress_spec, count_matches_from, decode_spec, emit_header,
    expand, fill_run, flatten_entries, flatten_pass, is_candidate, is_token_byte, is_window,
    map_of, no_fill, overwrite_at, parse_header, pool_from, run_loop, savings_of, strip_fill,
    substitute_from, token_range_clean, token_pool, CoreState, FILL_BYTE, TOKEN_LIMIT,
};
use crate::lemmas::lemma_overwrite_at_index;
use crate::order::lemma_candidate_list_props;
use crate::CompressError;
use crate::DecompressError;

verus! {

/// Stripping distributes over concatenation.
pub proof fn lemma_strip_concat(a: Seq<u8>, b: Seq<u8>)
    ensures
        strip_fill(a + b) == strip_fill(a) + strip_fill(b),
    decreases a.len(),
{
    if a.len() == 0 {
        assert(a + b =~= b);
        assert(strip_fill(a) + strip_fill(b) =~= strip_fill(b));
    } else {
        assert((a + b)[0] == a[0]);
        assert((a + b).skip(1) =~= a.skip(1) + b);
        lemma_strip_concat(a.skip(1), b);
        if a[0] != FILL_BYTE {
            assert(seq![a[0]] + (strip_fill(a.skip(1)) + strip_fill(b)) =~= (seq![a[0]]
                + strip_fill(a.skip(1))) + strip_fill(b));
        }
    }
}

/// Expansion distributes over concatenation.
pub proof fn lemma_expand_concat(m: Map<u8, Seq<u8>>, a: Seq<u8>, b: Seq<u8>)
    ensures
        expand(m, a + b) == expand(m, a) + expand(m, b),
    decreases a.len(),
{
    if a.len() == 0 {
        assert(a + b =~= b);
        assert(expand(m, a) + expand(m, b) =~= expand(m, b));
    } else {
        assert((a + b)[0] == a[0]);
        assert((a + b).skip(1) =~= a.skip(1) + b);
        lemma_expand_concat(m, a.skip(1), b);
        if m.dom().contains(a[0]) {
            assert(m[a[0]] + (expand(m, a.skip(1)) + expand(m, b)) =~= (m[a[0]] + expand(
                m,
                a.skip(1),
            )) + expand(m, b));
        } else {
            assert(seq![a[0]] + (expand(m, a.skip(1)) + expand(m, b)) =~= (seq![a[0]] + expand(
                m,
                a.skip(1),
            )) + expand(m, b));
        }
    }
}

/// A run of fill bytes strips to nothing.
pub proof fn lemma_strip_fill_run(n: int)
    requires
        n >= 0,
    ensures
        strip_fill(fill_run(n)) == Seq::<u8>::empty(),
    decreases n,
{
    if n == 0 {
        assert(fill_run(n).len() == 0);
    } else {
        assert(fill_run(n)[0] == FILL_BYTE);
        assert(fill_run(n).skip(1) =~= fill_run(n - 1));
        lemma_strip_fill_run(n - 1);
    }
}

/// A sequence with no fill byte strips to itself.
pub proof fn lemma_strip_identity(s: Seq<u8>)
    requires
        no_fill(s),
    ensures
        strip_fill(s) == s,
    decreases s.len(),
{
    if s.len() > 0 {
        assert(no_fill(s.skip(1))) by {
            assert(forall|i: int| 0 <= i < s.skip(1).len() ==> s.skip(1)[i] == s[i + 1]);
        }
        lemma_strip_identity(s.skip(1));
        assert(seq![s[0]] + s.skip(1) =~= s);
    }
}

/// A sequence with no bound byte expands to itself.
pub proof fn lemma_expand_literals(m: Map<u8, Seq<u8>>, s: Seq<u8>)
    requires
        forall|i: int| 0 <= i < s.len() ==> !m.dom().contains(s[i]),
    ensures
        expand(m, s) == s,
    decreases s.len(),
{
    if s.len() > 0 {
        assert(forall|i: int| 0 <= i < s.skip(1).len() ==> s.skip(1)[i] == s[i + 1]);
        lemma_expand_literals(m, s.skip(1));
        assert(seq![s[0]] + s.skip(1) =~= s);
    }
}

/// Two alias tables that agree on every byte of a sequence expand it alike.
pub proof fn lemma_expand_agree(m1: Map<u8, Seq<u8>>, m2: Map<u8, Seq<u8>>, s: Seq<u8>)
    requires
        forall|i: int|
            0 <= i < s.len() ==> (m1.dom().contains(s[i]) <==> m2.dom().contains(s[i])),
        forall|i: int|
            0 <= i < s.len() && m1.dom().contains(s[i]) ==> m1[s[i]] == m2[s[i]],
    ensures
        expand(m1, s) == expand(m2, s),
    decreases s.len(),
{
    if s.len() > 0 {
        assert(forall|i: int| 0 <= i < s.skip(1).len() ==> s.skip(1)[i] == s[i + 1]);
        lemma_expand_agree(m1, m2, s.skip(1));
    }
}

/// Every byte of a stripped sequence is a non-fill byte of the original.
pub proof fn lemma_strip_bytes(s: Seq<u8>)
    ensures
        forall|i: int|
            0 <= i < strip_fill(s).len() ==> (#[trigger] strip_fill(s)[i]) != FILL_BYTE
                && s.contains(strip_fill(s)[i]),
    decreases s.len(),
{
    if s.len() > 0 {
        lemma_strip_bytes(s.skip(1));
        assert forall|i: int|
            0 <= i < strip_fill(s).len() implies (#[trigger] strip_fill(s)[i]) != FILL_BYTE
            && s.contains(strip_fill(s)[i]) by {
            if s[0] == FILL_BYTE {
                let b = strip_fill(s)[i];
                assert(strip_fill(s.skip(1))[i] == b);
                let j = choose|j: int| 0 <= j < s.skip(1).len() && s.skip(1)[j] == b;
                assert(s[j + 1] == b);
            } else {
                if i == 0 {
                    assert(strip_fill(s)[0] == s[0]);
                } else {
                    let b = strip_fill(s)[i];
                    assert(strip_fill(s.skip(1))[i - 1] == b);
                    let j = choose|j: int| 0 <= j < s.skip(1).len() && s.skip(1)[j] == b;
                    assert(s[j + 1] == b);
                }
            }
        }
    }
}

/// Overwriting a span whose stripped expansion equals the token's binding
/// leaves the stripped expansion of the whole buffer unchanged.
pub proof fn lemma_overwrite_preserves(
    m: Map<u8, Seq<u8>>,
    s: Seq<u8>,
    i: int,
    t: u8,
    len: int,
)
    requires
        0 <= i,
        1 <= len,
        i + len <= s.len(),
        t != FILL_BYTE,
        m.dom().contains(t),
        expand(m, strip_fill(s.subrange(i, i + len))) == m[t],
    ensures
        expand(m, strip_fill(overwrite_at(s, i, t, len))) == expand(m, strip_fill(s)),
{
    let pre = s.subrange(0, i);
    let mid = s.subrange(i, i + len);
    let post = s.subrange(i + len, s.len() as int);
    assert(s =~= pre + mid + post);
    let o = overwrite_at(s, i, t, len);
    lemma_strip_concat(pre + mid, post);
    lemma_strip_concat(pre, mid);
    lemma_expand_concat(m, strip_fill(pre) + strip_fill(mid), strip_fill(post));
    lemma_expand_concat(m, strip_fill(pre), strip_fill(mid));
    assert(strip_fill(s) == (strip_fill(pre) + strip_fill(mid)) + strip_fill(post)) by {
        assert(strip_fill(pre + mid + post) == strip_fill(pre + mid) + strip_fill(post));
        assert((pre + mid) + post =~= pre + mid + post);
    }
    let tok = seq![t] + fill_run(len - 1);
    assert(o =~= pre + tok + post);
    lemma_strip_concat(pre + tok, post);
    lemma_strip_concat(pre, tok);
    assert((pre + tok) + post =~= pre + tok + post);
    lemma_expand_concat(m, strip_fill(pre) + strip_fill(tok), strip_fill(post));
    lemma_expand_concat(m, strip_fill(pre), strip_fill(tok));
    assert(strip_fill(tok) =~= seq![t]) by {
        assert(tok[0] == t);
        assert(tok.skip(1) =~= fill_run(len - 1));
        lemma_strip_fill_run(len - 1);
    }
    assert(expand(m, seq![t]) =~= m[t]) by {
        reveal_with_fuel(expand, 2);
        assert(seq![t][0] == t);
        assert(seq![t].skip(1).len() == 0);
        assert(m[t] + expand(m, seq![t].skip(1)) =~= m[t]);
    }
}

/// Substituting a sequence whose expansion equals the token's binding
/// preserves the stripped expansion of the buffer.
pub proof fn lemma_subst_preserves(m: Map<u8, Seq<u8>>, s: Seq<u8>, c: Seq<u8>, t: u8, i: int)
    requires
        t != FILL_BYTE,
        m.dom().contains(t),
        expand(m, strip_fill(c)) == m[t],
    ensures
        expand(m, strip_fill(substitute_from(s, c, t, i))) == expand(m, strip_fill(s)),
    decreases s.len() - i,
{
    if 0 <= i && i < s.len() {
        if i + c.len() <= s.len() && c.len() > 0 && s.subrange(i, i + c.len() as int) == c {
            let o = overwrite_at(s, i, t, c.len() as int);
            lemma_overwrite_preserves(m, s, i, t, c.len() as int);
            lemma_overwrite_at_index(s, i, t, c.len() as int);
            lemma_subst_preserves(m, o, c, t, i + c.len() as int);
        } else {
            lemma_subst_preserves(m, s, c, t, i + 1);
        }
    }
}

/// One flattening pass preserves the stripped expansion of the entry.
pub proof fn lemma_flatten_pass_preserves(
    m: Map<u8, Seq<u8>>,
    a: Seq<u8>,
    w: Seq<u8>,
    t: u8,
    i: int,
)
    requires
        t != FILL_BYTE,
        m.dom().contains(t),
        expand(m, strip_fill(w)) == m[t],
    ensures
        expand(m, strip_fill(flatten_pass(a, w, t, i))) == expand(m, strip_fill(a)),
    decreases a.len() - i,
{
    if 0 <= i && i < a.len() {
        if i + w.len() <= a.len() && w.len() > 0 && a.subrange(i, i + w.len() as int) == w {
            let o = overwrite_at(a, i, t, w.len() as int);
            lemma_overwrite_preserves(m, a, i, t, w.len() as int);
            lemma_overwrite_at_index(a, i, t, w.len() as int);
            lemma_flatten_pass_preserves(m, o, w, t, i + 1);
        } else {
            lemma_flatten_pass_preserves(m, a, w, t, i + 1);
        }
    }
}

/// The alias table binds every written entry's token to the stripped
/// expansion of its stored bytes.
pub open spec fn entries_consistent(m: Map<u8, Seq<u8>>, written: Seq<(Seq<u8>, u8)>) -> bool {
    forall|k: int|
        0 <= k < written.len() ==> m.dom().contains((#[trigger] written[k]).1)
            && m[written[k].1] == expand(m, strip_fill(written[k].0))
}

/// Flattening against consistent entries preserves the stripped expansion.
pub proof fn lemma_flatten_entries_preserves(
    m: Map<u8, Seq<u8>>,
    written: Seq<(Seq<u8>, u8)>,
    a: Seq<u8>,
)
    requires
        entries_consistent(m, written),
        forall|b: u8| #[trigger] m.dom().contains(b) ==> is_token_byte(b),
    ensures
        expand(m, strip_fill(flatten_entries(written, a))) == expand(m, strip_fill(a)),
    decreases written.len(),
{
    if written.len() > 0 {
        let t = written[0].1;
        assert(m.dom().contains(t));
        lemma_flatten_pass_preserves(m, a, written[0].0, t, 0);
        assert(entries_consistent(m, written.skip(1))) by {
            assert(forall|k: int|
                0 <= k < written.skip(1).len() ==> written.skip(1)[k] == written[k + 1]);
        }
        lemma_flatten_entries_preserves(m, written.skip(1), flatten_pass(a, written[0].0, t, 0));
    }
}

/// Substitution only writes the token and fill bytes, position by position.
pub proof fn lemma_subst_bytes(s: Seq<u8>, c: Seq<u8>, t: u8, i: int)
    ensures
        substitute_from(s, c, t, i).len() == s.len(),
        forall|l: int|
            0 <= l < s.len() ==> (#[trigger] substitute_from(s, c, t, i)[l]) == s[l]
                || substitute_from(s, c, t, i)[l] == t || substitute_from(s, c, t, i)[l]
                == FILL_BYTE,
    decreases s.len() - i,
{
    if 0 <= i && i < s.len() {
        if i + c.len() <= s.len() && c.len() > 0 && s.subrange(i, i + c.len() as int) == c {
            let o = overwrite_at(s, i, t, c.len() as int);
            lemma_overwrite_at_index(s, i, t, c.len() as int);
            lemma_subst_bytes(o, c, t, i + c.len() as int);
        } else {
            lemma_subst_bytes(s, c, t, i + 1);
        }
    }
}

/// One flattening pass only writes the token and fill bytes.
pub proof fn lemma_flatten_pass_bytes(a: Seq<u8>, w: Seq<u8>, t: u8, i: int)
    ensures
        flatten_pass(a, w, t, i).len() == a.len(),
        forall|l: int|
            0 <= l < a.len() ==> (#[trigger] flatten_pass(a, w, t, i)[l]) == a[l] || flatten_pass(
                a,
                w,
                t,
                i,
            )[l] == t || flatten_pass(a, w, t, i)[l] == FILL_BYTE,
    decreases a.len() - i,
{
    if 0 <= i && i < a.len() {
        if i + w.len() <= a.len() && w.len() > 0 && a.subrange(i, i + w.len() as int) == w {
            let o = overwrite_at(a, i, t, w.len() as int);
            lemma_overwrite_at_index(a, i, t, w.len() as int);
            lemma_flatten_pass_bytes(o, w, t, i + 1);
        } else {
            lemma_flatten_pass_bytes(a, w, t, i + 1);
        }
    }
}

/// Every byte the flattening writes is a byte of the entry, a fill byte, or
/// a token of the alias table.
pub proof fn lemma_flatten_entries_bytes(
    m: Map<u8, Seq<u8>>,
    written: Seq<(Seq<u8>, u8)>,
    a: Seq<u8>,
)
    requires
        entries_consistent(m, written),
    ensures
        flatten_entries(written, a).len() == a.len(),
        forall|l: int|
            0 <= l < a.len() ==> (#[trigger] flatten_entries(written, a)[l]) == a[l]
                || flatten_entries(written, a)[l] == FILL_BYTE || m.dom().contains(
                flatten_entries(written, a)[l],
            ),
    decreases written.len(),
{
    if written.len() > 0 {
        let fp = flatten_pass(a, written[0].0, written[0].1, 0);
        lemma_flatten_pass_bytes(a, written[0].0, written[0].1, 0);
        assert(entries_consistent(m, written.skip(1))) by {
            assert(forall|k: int|
                0 <= k < written.skip(1).len() ==> written.skip(1)[k] == written[k + 1]);
        }
        lemma_flatten_entries_bytes(m, written.skip(1), fp);
        assert(m.dom().contains(written[0].1));
    }
}

/// Header bytes that are all literals or bound tokens accumulate their
/// expansion in the pending buffer.
pub proof fn lemma_parse_literals(s: Seq<u8>, rest: Seq<u8>, m: Map<u8, Seq<u8>>, p: Seq<u8>)
    requires
        forall|i: int| 0 <= i < s.len() ==> (#[trigger] s[i]) != FILL_BYTE,
        forall|i: int|
            0 <= i < s.len() && is_token_byte(#[trigger] s[i]) ==> m.dom().contains(s[i]),
        forall|b: u8| #[trigger] m.dom().contains(b) ==> is_token_byte(b),
    ensures
        parse_header(s + rest, m, p) == parse_header(rest, m, p + expand(m, s)),
    decreases s.len(),
{
    if s.len() == 0 {
        assert(s + rest =~= rest);
        assert(p + expand(m, s) =~= p);
    } else {
        let b = s[0];
        assert((s + rest)[0] == b);
        assert((s + rest).skip(1) =~= s.skip(1) + rest);
        assert(forall|i: int| 0 <= i < s.skip(1).len() ==> s.skip(1)[i] == s[i + 1]);
        if m.dom().contains(b) {
            lemma_parse_literals(s.skip(1), rest, m, p + m[b]);
            assert((p + m[b]) + expand(m, s.skip(1)) =~= p + (m[b] + expand(m, s.skip(1))));
        } else {
            assert(!is_token_byte(b));
            lemma_parse_literals(s.skip(1), rest, m, p.push(b));
            assert(p.push(b) + expand(m, s.skip(1)) =~= p + (seq![b] + expand(m, s.skip(1))));
        }
    }
}

/// Parsing a fresh reserved byte binds the pending buffer to it.
pub proof fn lemma_parse_bind(t: u8, rest: Seq<u8>, m: Map<u8, Seq<u8>>, p: Seq<u8>)
    requires
        is_token_byte(t),
        !m.dom().contains(t),
    ensures
        parse_header(seq![t] + rest, m, p) == parse_header(rest, m.insert(t, p), Seq::empty()),
{
    assert((seq![t] + rest)[0] == t);
    assert((seq![t] + rest).skip(1) =~= rest);
}

/// With pairwise distinct tokens, the alias table of an entry list binds
/// each entry's token to its sequence.
pub proof fn lemma_map_of_entry(aliases: Seq<(Seq<u8>, u8)>, k: int)
    requires
        0 <= k < aliases.len(),
        forall|k1: int, k2: int| 0 <= k1 < k2 < aliases.len() ==> aliases[k1].1 != aliases[k2].1,
    ensures
        map_of(aliases).dom().contains(aliases[k].1),
        map_of(aliases)[aliases[k].1] == aliases[k].0,
    decreases aliases.len(),
{
    if k < aliases.len() - 1 {
        assert(aliases.drop_last()[k] == aliases[k]);
        assert(forall|k1: int, k2: int|
            0 <= k1 < k2 < aliases.drop_last().len() ==> aliases.drop_last()[k1]
                == aliases[k1] && aliases.drop_last()[k2] == aliases[k2]);
        lemma_map_of_entry(aliases.drop_last(), k);
        assert(aliases.last().1 != aliases[k].1);
    }
}

/// Every bound token of the alias table is some entry's.
pub proof fn lemma_map_of_dom(aliases: Seq<(Seq<u8>, u8)>, b: u8)
    requires
        map_of(aliases).dom().contains(b),
    ensures
        exists|k: int| 0 <= k < aliases.len() && (#[trigger] aliases[k]).1 == b,
    decreases aliases.len(),
{
    if aliases.len() > 0 && aliases.last().1 != b {
        lemma_map_of_dom(aliases.drop_last(), b);
        let k = choose|k: int|
            0 <= k < aliases.drop_last().len() && (#[trigger] aliases.drop_last()[k]).1 == b;
        assert(aliases[k].1 == b);
    }
}

/// The alias table the decoder accumulates: entries inserted front to back.
pub open spec fn fold_insert(m: Map<u8, Seq<u8>>, entries: Seq<(Seq<u8>, u8)>) -> Map<
    u8,
    Seq<u8>,
>
    decreases entries.len(),
{
    if entries.len() == 0 {
        m
    } else {
        fold_insert(m.insert(entries[0].1, entries[0].0), entries.skip(1))
    }
}

/// A key no entry binds keeps its prior binding through the fold.
pub proof fn lemma_fold_insert_untouched(m: Map<u8, Seq<u8>>, entries: Seq<(Seq<u8>, u8)>, b: u8)
    requires
        forall|k: int| 0 <= k < entries.len() ==> (#[trigger] entries[k]).1 != b,
    ensures
        fold_insert(m, entries).dom().contains(b) == m.dom().contains(b),
        m.dom().contains(b) ==> fold_insert(m, entries)[b] == m[b],
    decreases entries.len(),
{
    if entries.len() > 0 {
        assert(forall|k: int|
            0 <= k < entries.skip(1).len() ==> entries.skip(1)[k] == entries[k + 1]);
        lemma_fold_insert_untouched(m.insert(entries[0].1, entries[0].0), entries.skip(1), b);
        assert(entries[0].1 != b);
    }
}

/// With pairwise distinct tokens the fold binds each entry's token to its
/// sequence.
pub proof fn lemma_fold_insert_entry(m: Map<u8, Seq<u8>>, entries: Seq<(Seq<u8>, u8)>, k: int)
    requires
        0 <= k < entries.len(),
        forall|k1: int, k2: int| 0 <= k1 < k2 < entries.len() ==> entries[k1].1 != entries[k2].1,
    ensures
        fold_insert(m, entries).dom().contains(entries[k].1),
        fold_insert(m, entries)[entries[k].1] == entries[k].0,
    decreases entries.len(),
{
    assert(forall|k2: int|
        0 <= k2 < entries.skip(1).len() ==> entries.skip(1)[k2] == entries[k2 + 1]);
    if k == 0 {
        lemma_fold_insert_untouched(
            m.insert(entries[0].1, entries[0].0),
            entries.skip(1),
            entries[0].1,
        );
    } else {
        lemma_fold_insert_entry(m.insert(entries[0].1, entries[0].0), entries.skip(1), k - 1);
    }
}

/// Every key of the fold comes from the prior table or some entry.
pub proof fn lemma_fold_insert_dom(m: Map<u8, Seq<u8>>, entries: Seq<(Seq<u8>, u8)>, b: u8)
    requires
        fold_insert(m, entries).dom().contains(b),
    ensures
        m.dom().contains(b) || exists|k: int|
            0 <= k < entries.len() && (#[trigger] entries[k]).1 == b,
    decreases entries.len(),
{
    if entries.len() > 0 {
        lemma_fold_insert_dom(m.insert(entries[0].1, entries[0].0), entries.skip(1), b);
        if !m.dom().contains(b) {
            if m.insert(entries[0].1, entries[0].0).dom().contains(b) {
                assert(entries[0].1 == b);
            } else {
                let k = choose|k: int|
                    0 <= k < entries.skip(1).len() && (#[trigger] entries.skip(1)[k]).1 == b;
                assert(entries[k + 1].1 == b);
            }
        }
    }
}

/// The tally of non-overlapping matches never goes negative.
pub proof fn lemma_cmf_nonneg(s: Seq<u8>, c: Seq<u8>, i: int)
    ensures
        count_matches_from(s, c, i) >= 0,
    decreases s.len() - i,
{
    if 0 <= i && i < s.len() {
        if i + c.len() <= s.len() && c.len() > 0 && s.subrange(i, i + c.len() as int) == c {
            lemma_cmf_nonneg(s, c, i + c.len() as int);
        } else {
            lemma_cmf_nonneg(s, c, i + 1);
        }
    }
}

/// The token pool holds distinct reserved bytes absent from the input, in
/// descending order.
pub proof fn lemma_pool_from_props(s: Seq<u8>, k: int)
    requires
        k <= 31,
    ensures
        forall|j: int|
            0 <= j < pool_from(s, k).len() ==> 1 <= (#[trigger] pool_from(s, k)[j]) <= k
                && !s.contains(pool_from(s, k)[j]),
        forall|j1: int, j2: int|
            0 <= j1 < j2 < pool_from(s, k).len() ==> pool_from(s, k)[j1] > pool_from(s, k)[j2],
    decreases k,
{
    if k > 0 {
        lemma_pool_from_props(s, k - 1);
        let q = pool_from(s, k);
        let tail = pool_from(s, k - 1);
        assert forall|j: int| 0 <= j < q.len() implies 1 <= (#[trigger] q[j]) <= k && !s.contains(
            q[j],
        ) by {
            if s.contains(k as u8) {
                assert(q[j] == tail[j]);
            } else if j > 0 {
                assert(q[j] == tail[j - 1]);
            } else {
                assert(q[0] == k as u8);
            }
        }
        assert forall|j1: int, j2: int| 0 <= j1 < j2 < q.len() implies q[j1] > q[j2] by {
            if s.contains(k as u8) {
                assert(q[j1] == tail[j1] && q[j2] == tail[j2]);
            } else {
                assert(q[j2] == tail[j2 - 1]);
                assert(1 <= tail[j2 - 1] <= k - 1);
                if j1 == 0 {
                    assert(q[0] == k as u8);
                } else {
                    assert(q[j1] == tail[j1 - 1]);
                }
            }
        }
    } else {
        assert(pool_from(s, k).len() == 0);
    }
}

/// The output accumulator of the header emitter factors out.
pub proof fn lemma_emit_out(entries: Seq<(Seq<u8>, u8)>, written: Seq<(Seq<u8>, u8)>, out: Seq<u8>)
    ensures
        emit_header(entries, written, out) == out + emit_header(entries, written, Seq::empty()),
    decreases entries.len(),
{
    if entries.len() == 0 {
        assert(out + emit_header(entries, written, Seq::empty()) =~= out);
    } else {
        let flat = flatten_entries(written, entries[0].0);
        let chunk = strip_fill(flat) + seq![entries[0].1];
        let w2 = written.push((flat, entries[0].1));
        let e = emit_header(entries.skip(1), w2, Seq::empty());
        assert(out + chunk =~= out + strip_fill(flat) + seq![entries[0].1]);
        assert(Seq::<u8>::empty() + chunk =~= Seq::<u8>::empty() + strip_fill(flat) + seq![
            entries[0].1,
        ]);
        lemma_emit_out(entries.skip(1), w2, out + chunk);
        lemma_emit_out(entries.skip(1), w2, Seq::<u8>::empty() + chunk);
        assert((out + chunk) + e =~= out + ((Seq::<u8>::empty() + chunk) + e));
    }
}

/// Parsing an emitted header binds, entry by entry, each token to its
/// defining sequence: flattening preserved each entry's stripped expansion,
/// so the pending buffer reassembles exactly the original sequence.
pub proof fn lemma_emit_decodes(
    entries: Seq<(Seq<u8>, u8)>,
    written: Seq<(Seq<u8>, u8)>,
    m: Map<u8, Seq<u8>>,
    body: Seq<u8>,
)
    requires
        entries_consistent(m, written),
        forall|b: u8| #[trigger] m.dom().contains(b) ==> is_token_byte(b),
        forall|k: int, l: int|
            0 <= k < written.len() && 0 <= l < written[k].0.len() ==> (#[trigger] written[k].0[l]) >= 32 || written[k].0[l] == FILL_BYTE || m.dom().contains(written[k].0[l]),
        forall|k: int|
            0 <= k < entries.len() ==> is_token_byte((#[trigger] entries[k]).1)
                && !m.dom().contains(entries[k].1),
        forall|k1: int, k2: int| 0 <= k1 < k2 < entries.len() ==> entries[k1].1 != entries[k2].1,
        forall|k: int, l: int|
            0 <= k < entries.len() && 0 <= l < entries[k].0.len() ==> (#[trigger] entries[k].0[l]) >= 32,
    ensures
        parse_header(
            emit_header(entries, written, Seq::empty()) + seq![FILL_BYTE] + body,
            m,
            Seq::empty(),
        ) == Some((fold_insert(m, entries), body)),
    decreases entries.len(),
{
    if entries.len() == 0 {
        let x = emit_header(entries, written, Seq::empty()) + seq![FILL_BYTE] + body;
        assert(x =~= seq![FILL_BYTE] + body);
        assert(x[0] == FILL_BYTE);
        assert(x.skip(1) =~= body);
    } else {
        let sq = entries[0].0;
        let t = entries[0].1;
        let flat = flatten_entries(written, sq);
        let e1 = strip_fill(flat);
        let w2 = written.push((flat, t));
        let emit_rest = emit_header(entries.skip(1), w2, Seq::empty());
        assert(Seq::<u8>::empty() + e1 + seq![t] =~= e1 + seq![t]);
        lemma_emit_out(entries.skip(1), w2, e1 + seq![t]);
        let x = emit_header(entries, written, Seq::empty()) + seq![FILL_BYTE] + body;
        let r = emit_rest + seq![FILL_BYTE] + body;
        assert(x =~= e1 + (seq![t] + r));
        lemma_flatten_entries_bytes(m, written, sq);
        lemma_strip_bytes(flat);
        assert(flat.len() == sq.len());
        assert forall|i: int|
            0 <= i < e1.len() implies (#[trigger] e1[i]) != FILL_BYTE && (is_token_byte(e1[i])
            ==> m.dom().contains(e1[i])) by {
            let b = e1[i];
            assert(flat.contains(b));
            let j = choose|j: int| 0 <= j < flat.len() && flat[j] == b;
            assert(flat[j] == sq[j] || flat[j] == FILL_BYTE || m.dom().contains(flat[j]));
        }
        lemma_parse_literals(e1, seq![t] + r, m, Seq::empty());
        lemma_flatten_entries_preserves(m, written, sq);
        assert(no_fill(sq));
        lemma_strip_identity(sq);
        assert(forall|l: int| 0 <= l < sq.len() ==> !m.dom().contains(sq[l]));
        lemma_expand_literals(m, sq);
        assert(expand(m, e1) == sq);
        assert(Seq::<u8>::empty() + sq =~= sq);
        lemma_parse_bind(t, r, m, sq);
        let m2 = m.insert(t, sq);
        assert(m2[t] == sq);
        // The grown table still agrees with every stored entry: the fresh
        // token occurs in none of them.
        assert forall|k: int|
            0 <= k < w2.len() implies m2.dom().contains((#[trigger] w2[k]).1) && m2[w2[k].1]
            == expand(m2, strip_fill(w2[k].0)) by {
            if k < written.len() {
                assert(w2[k] == written[k]);
                assert(m.dom().contains(written[k].1));
                assert(written[k].1 != t);
                let sw = strip_fill(written[k].0);
                lemma_strip_bytes(written[k].0);
                assert forall|i: int|
                    0 <= i < sw.len() implies (m.dom().contains(#[trigger] sw[i])
                    <==> m2.dom().contains(sw[i])) && (m.dom().contains(sw[i]) ==> m[sw[i]]
                    == m2[sw[i]]) by {
                    let b = sw[i];
                    assert(written[k].0.contains(b));
                    let j = choose|j: int|
                        0 <= j < written[k].0.len() && written[k].0[j] == b;
                    assert(written[k].0[j] >= 32 || written[k].0[j] == FILL_BYTE
                        || m.dom().contains(written[k].0[j]));
                    if b >= 32 {
                        assert(!m.dom().contains(b));
                        assert(!m2.dom().contains(b));
                    }
                }
                lemma_expand_agree(m, m2, sw);
            } else {
                assert(w2[k] == (flat, t));
                let sf = strip_fill(flat);
                assert forall|i: int|
                    0 <= i < sf.len() implies (m.dom().contains(#[trigger] sf[i])
                    <==> m2.dom().contains(sf[i])) && (m.dom().contains(sf[i]) ==> m[sf[i]]
                    == m2[sf[i]]) by {
                    let b = sf[i];
                    assert(flat.contains(b));
                    let j = choose|j: int| 0 <= j < flat.len() && flat[j] == b;
                    assert(flat[j] == sq[j] || flat[j] == FILL_BYTE || m.dom().contains(
                        flat[j],
                    ));
                    if b >= 32 {
                        assert(!m.dom().contains(b));
                        assert(!m2.dom().contains(b));
                    }
                }
                lemma_expand_agree(m, m2, sf);
            }
        }
        assert forall|k: int, l: int|
            0 <= k < w2.len() && 0 <= l < w2[k].0.len() implies (#[trigger] w2[k].0[l]) >= 32
            || w2[k].0[l] == FILL_BYTE || m2.dom().contains(w2[k].0[l]) by {
            if k < written.len() {
                assert(w2[k] == written[k]);
                assert(written[k].0[l] >= 32 || written[k].0[l] == FILL_BYTE
                    || m.dom().contains(written[k].0[l]));
            } else {
                assert(w2[k] == (flat, t));
                assert(flat[l] == sq[l] || flat[l] == FILL_BYTE || m.dom().contains(flat[l]));
            }
        }
        assert(forall|k: int|
            0 <= k < entries.skip(1).len() ==> entries.skip(1)[k] == entries[k + 1]);
        assert forall|k: int, l: int|
            0 <= k < entries.skip(1).len() && 0 <= l < entries.skip(1)[k].0.len() implies (
            #[trigger] entries.skip(1)[k].0[l]) >= 32 by {
            assert(entries[k + 1].0[l] >= 32);
        }
        lemma_emit_decodes(entries.skip(1), w2, m2, body);
    }
}

/// The predicates the substitution loop maintains: expanding the stripped
/// buffer under the alias table restores the input; every buffer byte is a
/// literal, a fill byte, or a bound token; tokens are distinct reserved
/// bytes; pool bytes are distinct, unbound, and absent from the buffer.
pub open spec fn loop_state_ok(x: Seq<u8>, st: CoreState) -> bool {
    &&& expand(map_of(st.aliases), strip_fill(st.buf)) == x
    &&& forall|i: int|
        0 <= i < st.buf.len() ==> (#[trigger] st.buf[i]) >= 32 || st.buf[i] == FILL_BYTE
            || map_of(st.aliases).dom().contains(st.buf[i])
    &&& forall|k1: int, k2: int|
        0 <= k1 < k2 < st.aliases.len() ==> st.aliases[k1].1 != st.aliases[k2].1
    &&& forall|k: int| 0 <= k < st.aliases.len() ==> is_token_byte((#[trigger] st.aliases[k]).1)
    &&& forall|k: int, l: int|
        0 <= k < st.aliases.len() && 0 <= l < st.aliases[k].0.len() ==> (#[trigger] st.aliases[k].0[l]) >= 32
    &&& forall|j: int| 0 <= j < st.pool.len() ==> is_token_byte((#[trigger] st.pool[j]))
    &&& forall|j1: int, j2: int| 0 <= j1 < j2 < st.pool.len() ==> st.pool[j1] != st.pool[j2]
    &&& forall|j: int|
        0 <= j < st.pool.len() ==> !map_of(st.aliases).dom().contains((#[trigger] st.pool[j]))
    &&& forall|j: int, i: int|
        #![trigger st.pool[j], st.buf[i]]
        0 <= j < st.pool.len() && 0 <= i < st.buf.len() ==> st.pool[j] != st.buf[i]
}

/// Every step of the substitution loop keeps the loop predicates.
pub proof fn lemma_run_loop_preserves(x: Seq<u8>, cands: Seq<Seq<u8>>, st: CoreState)
    requires
        loop_state_ok(x, st),
        forall|k: int, l: int|
            0 <= k < cands.len() && 0 <= l < cands[k].len() ==> (#[trigger] cands[k][l]) >= 32,
    ensures
        loop_state_ok(x, run_loop(cands, st)),
    decreases cands.len(),
{
    if cands.len() > 0 {
        let c = cands[0];
        let cnt = count_matches_from(st.buf, c, 0);
        assert(forall|k: int| 0 <= k < cands.skip(1).len() ==> cands.skip(1)[k] == cands[k + 1]);
        assert forall|k: int, l: int|
            0 <= k < cands.skip(1).len() && 0 <= l < cands.skip(1)[k].len() implies (
            #[trigger] cands.skip(1)[k][l]) >= 32 by {
            assert(cands[k + 1][l] >= 32);
        }
        if savings_of(c.len() as int, cnt, 1) <= 0 {
            lemma_run_loop_preserves(x, cands.skip(1), st);
        } else if st.pool.len() == 0 {
        } else {
            let t = st.pool.last();
            let m = map_of(st.aliases);
            let al2 = st.aliases.push((c, t));
            let m2 = map_of(al2);
            assert(al2.drop_last() =~= st.aliases);
            assert(al2.last() == (c, t));
            assert(m2 == m.insert(t, c));
            lemma_cmf_nonneg(st.buf, c, 0);
            assert(c.len() >= 1) by {
                if c.len() == 0 {
                    assert(savings_of(0, cnt, 1) == 0 * cnt - (cnt + 1) * 1 - 0);
                }
            }
            assert(is_token_byte(t));
            assert(!m.dom().contains(t));
            assert forall|b: u8| #[trigger] m2.dom().contains(b) implies is_token_byte(b) by {
                if b != t {
                    lemma_map_of_dom(st.aliases, b);
                    let k = choose|k: int|
                        0 <= k < st.aliases.len() && (#[trigger] st.aliases[k]).1 == b;
                }
            }
            let sb = strip_fill(st.buf);
            lemma_strip_bytes(st.buf);
            assert forall|i: int|
                0 <= i < sb.len() implies (m.dom().contains(#[trigger] sb[i])
                <==> m2.dom().contains(sb[i])) && (m.dom().contains(sb[i]) ==> m[sb[i]]
                == m2[sb[i]]) by {
                let b = sb[i];
                assert(st.buf.contains(b));
                let j = choose|j: int| 0 <= j < st.buf.len() && st.buf[j] == b;
                assert(st.pool[st.pool.len() - 1] != st.buf[j]);
            }
            lemma_expand_agree(m, m2, sb);
            assert(no_fill(c)) by {
                assert(forall|l: int| 0 <= l < c.len() ==> cands[0][l] >= 32);
            }
            lemma_strip_identity(c);
            assert(forall|l: int| 0 <= l < c.len() ==> !m2.dom().contains(c[l]));
            lemma_expand_literals(m2, c);
            assert(expand(m2, strip_fill(c)) == m2[t]);
            lemma_subst_preserves(m2, st.buf, c, t, 0);
            let buf2 = substitute_from(st.buf, c, t, 0);
            lemma_subst_bytes(st.buf, c, t, 0);
            let pool2 = st.pool.drop_last();
            let st2 = CoreState { buf: buf2, pool: pool2, aliases: al2 };
            assert(expand(m2, strip_fill(buf2)) == x);
            assert forall|i: int|
                0 <= i < buf2.len() implies (#[trigger] buf2[i]) >= 32 || buf2[i] == FILL_BYTE
                || m2.dom().contains(buf2[i]) by {
                assert(buf2[i] == st.buf[i] || buf2[i] == t || buf2[i] == FILL_BYTE);
            }
            assert forall|k1: int, k2: int|
                0 <= k1 < k2 < al2.len() implies al2[k1].1 != al2[k2].1 by {
                if k2 == al2.len() - 1 {
                    assert(al2[k1] == st.aliases[k1]);
                    if st.aliases[k1].1 == t {
                        lemma_map_of_entry(st.aliases, k1);
                    }
                } else {
                    assert(al2[k1] == st.aliases[k1] && al2[k2] == st.aliases[k2]);
                }
            }
            assert forall|k: int|
                0 <= k < al2.len() implies is_token_byte((#[trigger] al2[k]).1) by {
                if k < st.aliases.len() {
                    assert(al2[k] == st.aliases[k]);
                }
            }
            assert forall|k: int, l: int|
                0 <= k < al2.len() && 0 <= l < al2[k].0.len() implies (#[trigger] al2[k].0[l])
                >= 32 by {
                if k < st.aliases.len() {
                    assert(al2[k] == st.aliases[k]);
                    assert(st.aliases[k].0[l] >= 32);
                } else {
                    assert(al2[k].0 == c);
                    assert(cands[0][l] >= 32);
                }
            }
            assert forall|j: int|
                0 <= j < pool2.len() implies is_token_byte((#[trigger] pool2[j])) by {
                assert(pool2[j] == st.pool[j]);
            }
            assert forall|j1: int, j2: int|
                0 <= j1 < j2 < pool2.len() implies pool2[j1] != pool2[j2] by {
                assert(pool2[j1] == st.pool[j1] && pool2[j2] == st.pool[j2]);
            }
            assert forall|j: int|
                0 <= j < pool2.len() implies !m2.dom().contains((#[trigger] pool2[j])) by {
                assert(pool2[j] == st.pool[j]);
                assert(st.pool[j] != st.pool[st.pool.len() - 1]);
                assert(!m.dom().contains(st.pool[j]));
            }
            assert forall|j: int, i: int|
                #![trigger pool2[j], buf2[i]]
                0 <= j < pool2.len() && 0 <= i < buf2.len() implies pool2[j] != buf2[i] by {
                assert(pool2[j] == st.pool[j]);
                assert(buf2[i] == st.buf[i] || buf2[i] == t || buf2[i] == FILL_BYTE);
                assert(st.pool[j] != st.buf[i]);
                assert(st.pool[j] != st.pool[st.pool.len() - 1]);
                assert(is_token_byte(st.pool[j]));
            }
            assert(loop_state_ok(x, st2));
            lemma_run_loop_preserves(x, cands.skip(1), st2);
        }
    }
}

/// Every byte of a window of token-range-clean input is an ordinary byte.
pub proof fn lemma_window_bytes(x: Seq<u8>, w: Seq<u8>)
    requires
        token_range_clean(x),
        is_window(x, w),
    ensures
        forall|l: int| 0 <= l < w.len() ==> (#[trigger] w[l]) >= 32,
{
    let j = choose|j: int|
        0 <= j && j + w.len() <= x.len() && #[trigger] x.subrange(j, j + w.len() as int) == w;
    assert forall|l: int| 0 <= l < w.len() implies (#[trigger] w[l]) >= 32 by {
        assert(x.subrange(j, j + w.len() as int)[l] == x[j + l]);
    }
}

/// Round trip: on token-range-clean input, every buffer the compressor
/// accepts decodes back to the original bytes.
pub proof fn lemma_round_trip(x: Seq<u8>, y: Seq<u8>)
    requires
        token_range_clean(x),
        compress_spec(x) == Ok::<Seq<u8>, CompressError>(y),
    ensures
        decode_spec(y) == Ok::<Seq<u8>, DecompressError>(x),
{
    let cands = candidate_list(x);
    let pool = token_pool(x);
    let st0 = CoreState { buf: x, pool: pool, aliases: Seq::empty() };
    let st = run_loop(cands, st0);
    // The starting state satisfies the loop predicates.
    assert(map_of(st0.aliases) =~= Map::<u8, Seq<u8>>::empty());
    assert(no_fill(x));
    lemma_strip_identity(x);
    lemma_expand_literals(Map::empty(), x);
    lemma_pool_from_props(x, TOKEN_LIMIT - 1);
    assert forall|j: int, i: int|
        #![trigger st0.pool[j], st0.buf[i]]
        0 <= j < st0.pool.len() && 0 <= i < st0.buf.len() implies st0.pool[j] != st0.buf[i] by {
        if st0.pool[j] == x[i] {
            assert(x.contains(x[i]));
        }
    }
    assert(loop_state_ok(x, st0));
    lemma_candidate_list_props(x);
    assert forall|k: int, l: int|
        0 <= k < cands.len() && 0 <= l < cands[k].len() implies (#[trigger] cands[k][l])
        >= 32 by {
        assert(cands.contains(cands[k]));
        assert(candidate_list(x).contains(cands[k]));
        assert(is_candidate(x, cands[k]));
        lemma_window_bytes(x, cands[k]);
    }
    lemma_run_loop_preserves(x, cands, st0);
    let m = map_of(st.aliases);
    let rev = st.aliases.reverse();
    assert(forall|k: int| 0 <= k < rev.len() ==> rev[k] == st.aliases[rev.len() - 1 - k]);
    assert forall|k: int|
        0 <= k < rev.len() implies is_token_byte((#[trigger] rev[k]).1) && !Map::<u8,
            Seq<u8>,
        >::empty().dom().contains(rev[k].1) by {
        assert(rev[k] == st.aliases[rev.len() - 1 - k]);
        assert(is_token_byte(st.aliases[rev.len() - 1 - k].1));
    }
    assert forall|k1: int, k2: int|
        0 <= k1 < k2 < rev.len() implies rev[k1].1 != rev[k2].1 by {
        assert(rev[k1] == st.aliases[rev.len() - 1 - k1]);
        assert(rev[k2] == st.aliases[rev.len() - 1 - k2]);
        assert(st.aliases[rev.len() - 1 - k2].1 != st.aliases[rev.len() - 1 - k1].1);
    }
    assert forall|k: int, l: int|
        0 <= k < rev.len() && 0 <= l < rev[k].0.len() implies (#[trigger] rev[k].0[l]) >= 32 by {
        assert(rev[k] == st.aliases[rev.len() - 1 - k]);
        assert(st.aliases[rev.len() - 1 - k].0[l] >= 32);
    }
    let body = strip_fill(st.buf);
    lemma_emit_decodes(rev, Seq::empty(), Map::empty(), body);
    let mf = fold_insert(Map::empty(), rev);
    // The decoder's table equals the loop's alias table.
    assert forall|b: u8| mf.dom().contains(b) <==> #[trigger] m.dom().contains(b) by {
        if mf.dom().contains(b) {
            lemma_fold_insert_dom(Map::empty(), rev, b);
            let k = choose|k: int| 0 <= k < rev.len() && (#[trigger] rev[k]).1 == b;
            assert(st.aliases[rev.len() - 1 - k].1 == b);
            lemma_map_of_entry(st.aliases, rev.len() - 1 - k);
        }
        if m.dom().contains(b) {
            lemma_map_of_dom(st.aliases, b);
            let k = choose|k: int|
                0 <= k < st.aliases.len() && (#[trigger] st.aliases[k]).1 == b;
            assert(rev[rev.len() - 1 - k] == st.aliases[k]);
            lemma_fold_insert_entry(Map::empty(), rev, rev.len() - 1 - k);
        }
    }
    assert forall|b: u8| #[trigger] m.dom().contains(b) implies mf[b] == m[b] by {
        lemma_map_of_dom(st.aliases, b);
        let k = choose|k: int| 0 <= k < st.aliases.len() && (#[trigger] st.aliases[k]).1 == b;
        lemma_map_of_entry(st.aliases, k);
        assert(rev[rev.len() - 1 - k] == st.aliases[k]);
        lemma_fold_insert_entry(Map::empty(), rev, rev.len() - 1 - k);
    }
    assert(mf =~~= m);
    // The body decodes to the input.
    lemma_strip_bytes(st.buf);
    assert forall|i: int|
        0 <= i < body.len() && is_token_byte(body[i]) implies m.dom().contains(body[i]) by {
        let b = body[i];
        assert(st.buf.contains(b));
        let j = choose|j: int| 0 <= j < st.buf.len() && st.buf[j] == b;
        assert(st.buf[j] >= 32 || st.buf[j] == FILL_BYTE || m.dom().contains(st.buf[j]));
    }
    assert(body_bound(m, body));
    assert(expand(m, body) == x);
    assert(y == emit_header(rev, Seq::empty(), Seq::empty()) + seq![FILL_BYTE] + body);
    assert(parse_header(y, Map::empty(), Seq::empty()) == Some((m, body)));
}

/// Size contract: whatever the compressor accepts is strictly smaller than
/// the input.
pub proof fn lemma_size_contract(x: Seq<u8>, y: Seq<u8>)
    requires
        compress_spec(x) == Ok::<Seq<u8>, CompressError>(y),
    ensures
        y.len() < x.len(),
{
}

/// Determinism: the compressor's contract pins its output to a function of
/// the input alone, so two calls on identical input return identical bytes.
pub proof fn lemma_compress_deterministic(
    x: Seq<u8>,
    r1: Result<Seq<u8>, CompressError>,
    r2: Result<Seq<u8>, CompressError>,
)
    requires
        r1 == compress_spec(x),
        r2 == compress_spec(x),
    ensures
        r1 == r2,
{
}

/// Header closure: every reserved-range byte in the body of an accepted
/// compression is bound by that same output's header.
pub proof fn lemma_header_closure(x: Seq<u8>, y: Seq<u8>, m: Map<u8, Seq<u8>>, body: Seq<u8>)
    requires
        token_range_clean(x),
        compress_spec(x) == Ok::<Seq<u8>, CompressError>(y),
        parse_header(y, Map::empty(), Seq::empty()) == Some((m, body)),
    ensures
        body_bound(m, body),
{
    lemma_round_trip(x, y);
    if !body_bound(m, body) {
        assert(decode_spec(y) == Err::<Seq<u8>, DecompressError>(DecompressError::UnboundToken));
    }
}

} // verus!

//! The mathematical model of the codec.
//!
//! Every executable function of the crate is specified against the spec
//! functions here: byte classes, the header/body decoder, and the whole
//! compression pipeline as a deterministic function of the input.

use vstd::prelude::*;

use crate::CompressError;
use crate::DecompressError;

verus! {

/// Byte that ends the header and marks consumed span bytes.
pub const FILL_BYTE: u8 = 0;

/// One past the largest reserved token value; tokens are `1..TOKEN_LIMIT`.
pub const TOKEN_LIMIT: u8 = 32;

/// A reserved control byte eligible to serve as a token.
pub open spec fn is_token_byte(b: u8) -> bool {
    1 <= b && b < 32
}

/// The input contains neither the terminator nor any reserved-range byte.
pub open spec fn token_range_clean(s: Seq<u8>) -> bool {
    forall|i: int| 0 <= i < s.len() ==> s[i] >= 32
}

/// The input contains no terminator byte.
pub open spec fn no_fill(s: Seq<u8>) -> bool {
    forall|i: int| 0 <= i < s.len() ==> s[i] != 0
}

/// The sequence with every fill byte removed.
pub open spec fn strip_fill(s: Seq<u8>) -> Seq<u8>
    decreases s.len(),
{
    if s.len() == 0 {
        Seq::empty()
    } else if s[0] == FILL_BYTE {
        strip_fill(s.skip(1))
    } else {
        seq![s[0]] + strip_fill(s.skip(1))
    }
}

/// Byte-wise expansion: every byte bound in `m` is replaced by its binding,
/// every other byte is kept verbatim.
pub open spec fn expand(m: Map<u8, Seq<u8>>, s: Seq<u8>) -> Seq<u8>
    decreases s.len(),
{
    if s.len() == 0 {
        Seq::empty()
    } else if m.dom().contains(s[0]) {
        m[s[0]] + expand(m, s.skip(1))
    } else {
        seq![s[0]] + expand(m, s.skip(1))
    }
}

/// Every reserved-range byte of the body has a header binding.
pub open spec fn body_bound(m: Map<u8, Seq<u8>>, s: Seq<u8>) -> bool {
    forall|i: int| 0 <= i < s.len() && is_token_byte(s[i]) ==> m.dom().contains(s[i])
}

/// The header state machine.  Walks `s` byte by byte, keeping the alias map
/// `m` and a pending buffer: the terminator closes the header and hands the
/// rest of the input back as the body; a bound token appends its resolved
/// expansion to the pending buffer; an unbound reserved byte is bound to the
/// pending buffer; any other byte joins the pending buffer verbatim.
/// `None` means the terminator never appears.
pub open spec fn parse_header(
    s: Seq<u8>,
    m: Map<u8, Seq<u8>>,
    pending: Seq<u8>,
) -> Option<(Map<u8, Seq<u8>>, Seq<u8>)>
    decreases s.len(),
{
    if s.len() == 0 {
        None
    } else if s[0] == FILL_BYTE {
        Some((m, s.skip(1)))
    } else if is_token_byte(s[0]) {
        if m.dom().contains(s[0]) {
            parse_header(s.skip(1), m, pending + m[s[0]])
        } else {
            parse_header(s.skip(1), m.insert(s[0], pending), Seq::empty())
        }
    } else {
        parse_header(s.skip(1), m, pending.push(s[0]))
    }
}

/// Net byte reduction of replacing `count` occurrences of a sequence of
/// length `len` with an alias of length `alias_len`: the shrunk occurrences
/// pay for one header entry (the sequence plus its alias).
pub open spec fn savings_of(len: int, count: int, alias_len: int) -> int {
    len * count - (count + 1) * alias_len - len
}

/// Number of windows of `s` equal to `w`, counting overlapping occurrences,
/// starting at position `i`.
pub open spec fn window_count_from(s: Seq<u8>, w: Seq<u8>, i: int) -> int
    decreases s.len() - i,
{
    if !(0 <= i && i + w.len() <= s.len() && w.len() > 0) {
        0
    } else if s.subrange(i, i + w.len() as int) == w {
        1 + window_count_from(s, w, i + 1)
    } else {
        window_count_from(s, w, i + 1)
    }
}

/// Number of windows of `s` equal to `w`, counting overlapping occurrences.
pub open spec fn window_count(s: Seq<u8>, w: Seq<u8>) -> int {
    window_count_from(s, w, 0)
}

/// `w` occurs somewhere in `s`.
pub open spec fn is_window(s: Seq<u8>, w: Seq<u8>) -> bool {
    exists|i: int|
        0 <= i && i + w.len() <= s.len() && #[trigger] s.subrange(i, i + w.len() as int) == w
}

/// A sequence the compressor considers for substitution: window lengths run
/// from a third of the input down to 2, and the raw occurrence tally must
/// promise a positive net reduction.
pub open spec fn is_candidate(x: Seq<u8>, w: Seq<u8>) -> bool {
    &&& 2 <= w.len()
    &&& w.len() <= x.len() as int / 3
    &&& is_window(x, w)
    &&& savings_of(w.len() as int, window_count(x, w), 1) > 0
}

/// Strict lexicographic order on byte sequences.
pub open spec fn lex_less(a: Seq<u8>, b: Seq<u8>) -> bool
    decreases a.len(),
{
    if b.len() == 0 {
        false
    } else if a.len() == 0 {
        true
    } else if a[0] < b[0] {
        true
    } else if a[0] > b[0] {
        false
    } else {
        lex_less(a.skip(1), b.skip(1))
    }
}

/// The substitution loop's processing order: longer sequences first, equal
/// lengths lexicographically smallest first.  A deterministic tie-break.
pub open spec fn proc_before(a: Seq<u8>, b: Seq<u8>) -> bool {
    a.len() > b.len() || (a.len() == b.len() && lex_less(a, b))
}

/// Strictly ordered by processing order; in particular duplicate-free.
pub open spec fn proc_sorted(q: Seq<Seq<u8>>) -> bool {
    forall|i: int, j: int| 0 <= i < j < q.len() ==> proc_before(q[i], q[j])
}

/// Inserts `w` into an ordered sequence, keeping order and dropping
/// duplicates.
pub open spec fn insert_into(q: Seq<Seq<u8>>, w: Seq<u8>) -> Seq<Seq<u8>>
    decreases q.len(),
{
    if q.len() == 0 {
        seq![w]
    } else if w == q[0] {
        q
    } else if proc_before(w, q[0]) {
        seq![w] + q
    } else {
        seq![q[0]] + insert_into(q.skip(1), w)
    }
}

/// Orders a collection of sequences by processing order, dropping duplicates.
pub open spec fn sort_all(items: Seq<Seq<u8>>) -> Seq<Seq<u8>>
    decreases items.len(),
{
    if items.len() == 0 {
        Seq::empty()
    } else {
        insert_into(sort_all(items.skip(1)), items[0])
    }
}

/// All windows of `x` of length `len`, from position `i` on.
pub open spec fn windows_at(x: Seq<u8>, len: int, i: int) -> Seq<Seq<u8>>
    decreases x.len() - i,
{
    if !(0 <= i && i + len <= x.len() && len > 0) {
        Seq::empty()
    } else {
        seq![x.subrange(i, i + len)] + windows_at(x, len, i + 1)
    }
}

/// All windows of `x` of every length from `size` down to 2.
pub open spec fn windows_sizes(x: Seq<u8>, size: int) -> Seq<Seq<u8>>
    decreases size,
{
    if size < 2 {
        Seq::empty()
    } else {
        windows_at(x, size, 0) + windows_sizes(x, size - 1)
    }
}

/// Keeps the candidate windows.
pub open spec fn cand_filter(items: Seq<Seq<u8>>, x: Seq<u8>) -> Seq<Seq<u8>>
    decreases items.len(),
{
    if items.len() == 0 {
        Seq::empty()
    } else if is_candidate(x, items[0]) {
        seq![items[0]] + cand_filter(items.skip(1), x)
    } else {
        cand_filter(items.skip(1), x)
    }
}

/// The candidate sequences of `x` in processing order: the unique
/// duplicate-free sequence, ordered by `proc_before`, that holds exactly the
/// candidates.
pub open spec fn candidate_list(x: Seq<u8>) -> Seq<Seq<u8>> {
    sort_all(cand_filter(windows_sizes(x, x.len() as int / 3), x))
}

/// Non-overlapping occurrence count: a left-to-right scan where each match
/// consumes its span.
pub open spec fn count_matches_from(s: Seq<u8>, c: Seq<u8>, i: int) -> int
    decreases s.len() - i,
{
    if !(0 <= i && i < s.len()) {
        0
    } else if i + c.len() <= s.len() && c.len() > 0 && s.subrange(i, i + c.len() as int) == c {
        1 + count_matches_from(s, c, i + c.len() as int)
    } else {
        count_matches_from(s, c, i + 1)
    }
}

/// A run of `n` fill bytes.
pub open spec fn fill_run(n: int) -> Seq<u8> {
    Seq::new(n as nat, |j: int| FILL_BYTE)
}

/// Overwrites the span `[i, i + len)` of `s` with the token `t` followed by
/// fill bytes.
pub open spec fn overwrite_at(s: Seq<u8>, i: int, t: u8, len: int) -> Seq<u8> {
    s.subrange(0, i) + seq![t] + fill_run(len - 1) + s.subrange(i + len, s.len() as int)
}

/// Replaces every non-overlapping left-to-right match of `c` with the token
/// `t` plus fill bytes, scanning from position `i`.
pub open spec fn substitute_from(s: Seq<u8>, c: Seq<u8>, t: u8, i: int) -> Seq<u8>
    decreases s.len() - i,
{
    if !(0 <= i && i < s.len()) {
        s
    } else if i + c.len() <= s.len() && c.len() > 0 && s.subrange(i, i + c.len() as int) == c {
        substitute_from(overwrite_at(s, i, t, c.len() as int), c, t, i + c.len() as int)
    } else {
        substitute_from(s, c, t, i + 1)
    }
}

/// One header-flattening pass: every match of the already-written entry
/// bytes `w` inside `a` is overwritten with that entry's token plus fill
/// bytes; the scan advances one position at a time.
pub open spec fn flatten_pass(a: Seq<u8>, w: Seq<u8>, t: u8, i: int) -> Seq<u8>
    decreases a.len() - i,
{
    if !(0 <= i && i < a.len()) {
        a
    } else if i + w.len() <= a.len() && w.len() > 0 && a.subrange(i, i + w.len() as int) == w {
        flatten_pass(overwrite_at(a, i, t, w.len() as int), w, t, i + 1)
    } else {
        flatten_pass(a, w, t, i + 1)
    }
}

/// Flattens `a` against every already-written entry, oldest first.
pub open spec fn flatten_entries(written: Seq<(Seq<u8>, u8)>, a: Seq<u8>) -> Seq<u8>
    decreases written.len(),
{
    if written.len() == 0 {
        a
    } else {
        flatten_entries(written.skip(1), flatten_pass(a, written[0].0, written[0].1, 0))
    }
}

/// Serializes the alias entries: each defining sequence is flattened against
/// the entries already written, stripped of fill bytes, and emitted followed
/// by its token.
pub open spec fn emit_header(
    entries: Seq<(Seq<u8>, u8)>,
    written: Seq<(Seq<u8>, u8)>,
    out: Seq<u8>,
) -> Seq<u8>
    decreases entries.len(),
{
    if entries.len() == 0 {
        out
    } else {
        let flat = flatten_entries(written, entries[0].0);
        emit_header(
            entries.skip(1),
            written.push((flat, entries[0].1)),
            out + strip_fill(flat) + seq![entries[0].1],
        )
    }
}

/// The reserved bytes absent from `s`, from `k` down to 1, in descending
/// order.  The pool is consumed from its tail, so smaller values are drawn
/// first.
pub open spec fn pool_from(s: Seq<u8>, k: int) -> Seq<u8>
    decreases k,
{
    if k <= 0 {
        Seq::empty()
    } else if s.contains(k as u8) {
        pool_from(s, k - 1)
    } else {
        seq![k as u8] + pool_from(s, k - 1)
    }
}

/// The token pool of input `s`: every reserved byte that never occurs in it.
pub open spec fn token_pool(s: Seq<u8>) -> Seq<u8> {
    pool_from(s, TOKEN_LIMIT - 1)
}

/// The alias table as a map, token to defining sequence.
pub open spec fn map_of(aliases: Seq<(Seq<u8>, u8)>) -> Map<u8, Seq<u8>>
    decreases aliases.len(),
{
    if aliases.len() == 0 {
        Map::empty()
    } else {
        map_of(aliases.drop_last()).insert(aliases.last().1, aliases.last().0)
    }
}

/// State of the substitution loop: the buffer being rewritten, the unused
/// token pool, and the accepted aliases in acceptance order.
pub ghost struct CoreState {
    pub buf: Seq<u8>,
    pub pool: Seq<u8>,
    pub aliases: Seq<(Seq<u8>, u8)>,
}

/// The substitution loop: for each candidate in processing order, recount
/// its non-overlapping occurrences in the current buffer; discard it if the
/// recounted savings are gone; otherwise draw a token (stopping the whole
/// loop if the pool is empty) and rewrite every match.
pub open spec fn run_loop(cands: Seq<Seq<u8>>, st: CoreState) -> CoreState
    decreases cands.len(),
{
    if cands.len() == 0 {
        st
    } else {
        let c = cands[0];
        let cnt = count_matches_from(st.buf, c, 0);
        if savings_of(c.len() as int, cnt, 1) <= 0 {
            run_loop(cands.skip(1), st)
        } else if st.pool.len() == 0 {
            st
        } else {
            let t = st.pool.last();
            run_loop(
                cands.skip(1),
                CoreState {
                    buf: substitute_from(st.buf, c, t, 0),
                    pool: st.pool.drop_last(),
                    aliases: st.aliases.push((c, t)),
                },
            )
        }
    }
}

/// What compression returns, for every input the codec accepts: candidates
/// in processing order feed the substitution loop; the header is emitted
/// shortest defining sequence first (the reverse of acceptance order), then
/// the terminator, then the rewritten buffer with fill bytes dropped; the
/// result must be strictly smaller than the input.
pub open spec fn compress_spec(x: Seq<u8>) -> Result<Seq<u8>, CompressError> {
    let cands = candidate_list(x);
    let pool = token_pool(x);
    if cands.len() == 0 {
        Err(CompressError::NoBeneficialPattern)
    } else if pool.len() == 0 {
        Err(CompressError::TokenPoolExhausted)
    } else {
        let st = run_loop(cands, CoreState { buf: x, pool: pool, aliases: Seq::empty() });
        let out = emit_header(st.aliases.reverse(), Seq::empty(), Seq::empty()) + seq![FILL_BYTE]
            + strip_fill(st.buf);
        if out.len() >= x.len() {
            Err(CompressError::NoSizeReduction)
        } else {
            Ok(out)
        }
    }
}

/// What decompression returns, for every input buffer.
pub open spec fn decode_spec(s: Seq<u8>) -> Result<Seq<u8>, DecompressError> {
    match parse_header(s, Map::empty(), Seq::empty()) {
        None => Err(DecompressError::MalformedHeader),
        Some((m, body)) => if body_bound(m, body) {
            Ok(expand(m, body))
        } else {
            Err(DecompressError::UnboundToken)
        },
    }
}

} // verus!

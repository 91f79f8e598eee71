//! The decompressor: parses the self-describing header into an alias table,
//! then expands the body token by token.

use vstd::prelude::*;

use crate::model::{
    body_bound, decode_spec, expand, is_token_byte, parse_header, FILL_BYTE, TOKEN_LIMIT,
};
use crate::DecompressError;

verus! {

/// The alias table a decoder builds: token bytes paired with their fully
/// resolved expansions, in binding order.
pub open spec fn assoc_map(es: Seq<(u8, Vec<u8>)>) -> Map<u8, Seq<u8>>
    decreases es.len(),
{
    if es.len() == 0 {
        Map::empty()
    } else {
        assoc_map(es.drop_last()).insert(es.last().0, es.last().1@)
    }
}

/// The exec result seen as the model's result.
pub open spec fn decode_result_view(r: Result<Vec<u8>, DecompressError>) -> Result<
    Seq<u8>,
    DecompressError,
> {
    match r {
        Ok(v) => Ok(v@),
        Err(e) => Err(e),
    }
}

/// A binding's token is in the map, and with pairwise distinct tokens its
/// binding is the stored expansion.
proof fn lemma_assoc_map_entry(es: Seq<(u8, Vec<u8>)>, i: int)
    requires
        0 <= i < es.len(),
        forall|j: int, k: int| 0 <= j < k < es.len() ==> es[j].0 != es[k].0,
    ensures
        assoc_map(es).dom().contains(es[i].0),
        assoc_map(es)[es[i].0] == es[i].1@,
    decreases es.len(),
{
    if i < es.len() - 1 {
        assert(es.drop_last()[i] == es[i]);
        lemma_assoc_map_entry(es.drop_last(), i);
        assert(es.last().0 != es[i].0);
    }
}

/// Every key of the alias table comes from some binding.
proof fn lemma_assoc_map_dom(es: Seq<(u8, Vec<u8>)>, b: u8)
    requires
        assoc_map(es).dom().contains(b),
    ensures
        exists|i: int| 0 <= i < es.len() && es[i].0 == b,
    decreases es.len(),
{
    if es.len() > 0 && es.last().0 != b {
        lemma_assoc_map_dom(es.drop_last(), b);
        let i = choose|i: int| 0 <= i < es.drop_last().len() && es.drop_last()[i].0 == b;
        assert(es[i].0 == b);
    }
}

/// Finds the binding of token `b` in the alias table, if any.
fn lookup(es: &Vec<(u8, Vec<u8>)>, b: u8) -> (r: Option<usize>)
    requires
        forall|j: int, k: int| 0 <= j < k < es@.len() ==> es@[j].0 != es@[k].0,
    ensures
        match r {
            Some(i) => i < es@.len() && es@[i as int].0 == b && assoc_map(es@).dom().contains(b)
                && assoc_map(es@)[b] == es@[i as int].1@,
            None => !assoc_map(es@).dom().contains(b),
        },
{
    let mut i: usize = 0;
    while i < es.len()
        invariant
            i <= es@.len(),
            forall|j: int, k: int| 0 <= j < k < es@.len() ==> es@[j].0 != es@[k].0,
            forall|j: int| 0 <= j < i ==> es@[j].0 != b,
        decreases es@.len() - i,
    {
        if es[i].0 == b {
            proof {
                lemma_assoc_map_entry(es@, i as int);
            }
            return Some(i);
        }
        i += 1;
    }
    proof {
        if assoc_map(es@).dom().contains(b) {
            lemma_assoc_map_dom(es@, b);
        }
    }
    None
}

/// Appends all of `src` to `dst`.
fn append_bytes(dst: &mut Vec<u8>, src: &Vec<u8>)
    ensures
        final(dst)@ == old(dst)@ + src@,
{
    let mut j: usize = 0;
    while j < src.len()
        invariant
            j <= src@.len(),
            dst@ == old(dst)@ + src@.subrange(0, j as int),
        decreases src@.len() - j,
    {
        dst.push(src[j]);
        proof {
            assert(dst@ =~= old(dst)@ + src@.subrange(0, j as int + 1));
        }
        j += 1;
    }
    proof {
        assert(src@.subrange(0, src@.len() as int) =~= src@);
    }
}

/// Decompresses a buffer produced by the codec.
///
/// The result is exactly what the decoder state machine of the model yields:
/// the header bytes up to the terminator build the alias table, the rest is
/// the body, and every reserved-range body byte must be bound.
pub fn decompress(s: Vec<u8>) -> (r: Result<Vec<u8>, DecompressError>)
    ensures
        decode_result_view(r) == decode_spec(s@),
{
    let n = s.len();
    let mut entries: Vec<(u8, Vec<u8>)> = Vec::new();
    let mut pending: Vec<u8> = Vec::new();
    let mut bi: usize = 0;
    let mut term_found = false;
    proof {
        assert(s@.skip(0) =~= s@);
        assert(pending@ =~= Seq::<u8>::empty());
    }
    while bi < n && !term_found
        invariant
            n == s@.len(),
            bi <= n,
            forall|j: int, k: int| 0 <= j < k < entries@.len() ==> entries@[j].0 != entries@[k].0,
            forall|j: int| 0 <= j < entries@.len() ==> is_token_byte(#[trigger] entries@[j].0),
            !term_found ==> parse_header(s@, Map::empty(), Seq::empty()) == parse_header(
                s@.skip(bi as int),
                assoc_map(entries@),
                pending@,
            ),
            term_found ==> parse_header(s@, Map::empty(), Seq::empty()) == Some(
                (assoc_map(entries@), s@.skip(bi as int)),
            ),
        decreases n - bi,
    {
        let b = s[bi];
        proof {
            assert(s@.skip(bi as int)[0] == s@[bi as int]);
            assert(s@.skip(bi as int).skip(1) =~= s@.skip(bi as int + 1));
        }
        if b == FILL_BYTE {
            term_found = true;
            bi += 1;
        } else if b < TOKEN_LIMIT {
            match lookup(&entries, b) {
                Some(i) => {
                    let expansion = &entries[i].1;
                    append_bytes(&mut pending, expansion);
                },
                None => {
                    let ghost old_entries = entries@;
                    let ghost old_pending = pending@;
                    proof {
                        assert forall|j: int| 0 <= j < old_entries.len() implies old_entries[j].0
                            != b by {
                            lemma_assoc_map_entry(old_entries, j);
                        }
                    }
                    entries.push((b, pending));
                    pending = Vec::new();
                    proof {
                        assert(entries@.drop_last() =~= old_entries);
                        assert(assoc_map(entries@) == assoc_map(old_entries).insert(
                            b,
                            old_pending,
                        ));
                    }
                },
            }
            bi += 1;
        } else {
            pending.push(b);
            bi += 1;
        }
    }
    if !term_found {
        proof {
            assert(s@.skip(bi as int).len() == 0);
        }
        return Err(DecompressError::MalformedHeader);
    }
    let ghost m = assoc_map(entries@);
    let ghost body = s@.skip(bi as int);
    let ghost body_start = bi as int;
    let mut out: Vec<u8> = Vec::new();
    while bi < n
        invariant
            n == s@.len(),
            0 <= body_start <= bi <= n,
            m == assoc_map(entries@),
            body == s@.skip(body_start),
            forall|j: int, k: int| 0 <= j < k < entries@.len() ==> entries@[j].0 != entries@[k].0,
            forall|j: int| 0 <= j < entries@.len() ==> is_token_byte(#[trigger] entries@[j].0),
            forall|j: int| body_start <= j < bi && is_token_byte(s@[j]) ==> m.dom().contains(
                s@[j],
            ),
            expand(m, body) == out@ + expand(m, s@.skip(bi as int)),
            parse_header(s@, Map::empty(), Seq::empty()) == Some((m, body)),
        decreases n - bi,
    {
        let b = s[bi];
        let ghost old_out = out@;
        proof {
            assert(s@.skip(bi as int)[0] == s@[bi as int]);
            assert(s@.skip(bi as int).skip(1) =~= s@.skip(bi as int + 1));
        }
        if b >= 1 && b < TOKEN_LIMIT {
            match lookup(&entries, b) {
                Some(i) => {
                    let expansion = &entries[i].1;
                    append_bytes(&mut out, expansion);
                    proof {
                        assert(expand(m, s@.skip(bi as int)) == m[b] + expand(
                            m,
                            s@.skip(bi as int + 1),
                        ));
                        assert(old_out + (m[b] + expand(m, s@.skip(bi as int + 1))) =~= (old_out
                            + m[b]) + expand(m, s@.skip(bi as int + 1)));
                    }
                },
                None => {
                    proof {
                        assert(s@.skip(body_start).len() == n - body_start);
                        assert(0 <= bi as int - body_start < body.len());
                        assert(s@.skip(body_start)[bi as int - body_start] == s@[bi as int]);
                        assert(body[bi as int - body_start] == s@[bi as int]);
                        assert(is_token_byte(body[bi as int - body_start]) && !m.dom().contains(
                            body[bi as int - body_start],
                        ));
                        assert(!body_bound(m, body));
                    }
                    return Err(DecompressError::UnboundToken);
                },
            }
            bi += 1;
        } else {
            proof {
                if m.dom().contains(b) {
                    lemma_assoc_map_dom(entries@, b);
                }
                assert(!m.dom().contains(b));
                assert(expand(m, s@.skip(bi as int)) == seq![b] + expand(
                    m,
                    s@.skip(bi as int + 1),
                ));
                assert(old_out.push(b) =~= old_out + seq![b]);
                assert(old_out + (seq![b] + expand(m, s@.skip(bi as int + 1))) =~= (old_out
                    + seq![b]) + expand(m, s@.skip(bi as int + 1)));
            }
            out.push(b);
            bi += 1;
        }
    }
    proof {
        assert(s@.skip(bi as int).len() == 0);
        assert(out@ =~= out@ + expand(m, s@.skip(bi as int)));
        assert forall|j: int| 0 <= j < body.len() && is_token_byte(body[j]) implies m.dom()
            .contains(body[j]) by {
            assert(body[j] == s@[body_start + j]);
        }
        assert(body_bound(m, body));
    }
    Ok(out)
}

} // verus!

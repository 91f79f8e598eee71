//! Small facts about the model's sequence operations, shared by the
//! executable proofs and the codec laws.

use vstd::prelude::*;

use crate::model::{fill_run, overwrite_at, strip_fill, FILL_BYTE};

verus! {

/// Stripping a sequence extended by one byte.
pub proof fn lemma_strip_fill_snoc(p: Seq<u8>, b: u8)
    ensures
        strip_fill(p.push(b)) == strip_fill(p) + (if b == FILL_BYTE {
            Seq::<u8>::empty()
        } else {
            seq![b]
        }),
    decreases p.len(),
{
    reveal_with_fuel(strip_fill, 3);
    let tail: Seq<u8> = if b == FILL_BYTE {
        Seq::empty()
    } else {
        seq![b]
    };
    if p.len() == 0 {
        assert(p.push(b)[0] == b);
        assert(p.push(b).skip(1) =~= Seq::<u8>::empty());
        if b == FILL_BYTE {
            assert(strip_fill(p.push(b)) =~= strip_fill(p) + tail);
        } else {
            assert(strip_fill(p.push(b)) =~= strip_fill(p) + tail);
        }
    } else {
        assert(p.push(b)[0] == p[0]);
        assert(p.push(b).skip(1) =~= p.skip(1).push(b));
        lemma_strip_fill_snoc(p.skip(1), b);
        if p[0] == FILL_BYTE {
            assert(strip_fill(p.push(b)) == strip_fill(p.skip(1).push(b)));
        } else {
            assert(strip_fill(p.push(b)) == seq![p[0]] + strip_fill(p.skip(1).push(b)));
            assert(seq![p[0]] + (strip_fill(p.skip(1)) + tail) =~= (seq![p[0]] + strip_fill(
                p.skip(1),
            )) + tail);
        }
    }
}

/// What each position of an overwritten buffer holds.
pub proof fn lemma_overwrite_at_index(s: Seq<u8>, i: int, t: u8, len: int)
    requires
        0 <= i,
        len >= 1,
        i + len <= s.len(),
    ensures
        overwrite_at(s, i, t, len).len() == s.len(),
        forall|l: int|
            0 <= l < s.len() ==> #[trigger] overwrite_at(s, i, t, len)[l] == (if l < i {
                s[l]
            } else if l == i {
                t
            } else if l < i + len {
                FILL_BYTE
            } else {
                s[l]
            }),
{
    let o = overwrite_at(s, i, t, len);
    assert(fill_run(len - 1).len() == len - 1);
    assert(o.len() == s.len());
    assert forall|l: int| 0 <= l < s.len() implies #[trigger] o[l] == (if l < i {
        s[l]
    } else if l == i {
        t
    } else if l < i + len {
        FILL_BYTE
    } else {
        s[l]
    }) by {
        if l < i {
            assert(o[l] == s.subrange(0, i)[l]);
        } else if l == i {
        } else if l < i + len {
            assert(o[l] == fill_run(len - 1)[l - i - 1]);
        } else {
            assert(o[l] == s.subrange(i + len, s.len() as int)[l - i - len]);
        }
    }
}

} // verus!

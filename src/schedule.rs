//! The block-boundary rule: how a piece of a given size is cut into blocks.
use vstd::arithmetic::div_mod::{lemma_mod_add_multiples_vanish, lemma_small_mod};
use vstd::prelude::*;

verus! {

/// Size of the block that starts at `offset`: a whole block while more than
/// `block_len` bytes remain, otherwise the rest of the piece.
pub open spec fn block_size_at(piece_size: nat, block_len: nat, offset: nat) -> nat {
    if piece_size - offset > block_len {
        block_len
    } else {
        (piece_size - offset) as nat
    }
}

/// The `(offset, size)` pairs that the boundary rule emits, in order, when it
/// is run from `offset` until no unscheduled bytes remain.
pub open spec fn schedule(piece_size: nat, block_len: nat, offset: nat) -> Seq<(nat, nat)>
    decreases piece_size - offset,
{
    if block_len == 0 || offset >= piece_size {
        Seq::empty()
    } else {
        let size = block_size_at(piece_size, block_len, offset);
        seq![(offset, size)] + schedule(piece_size, block_len, offset + size)
    }
}

/// Sum of the sizes of a sequence of `(offset, size)` pairs.
pub open spec fn total_size(s: Seq<(nat, nat)>) -> nat
    decreases s.len(),
{
    if s.len() == 0 {
        0
    } else {
        s[0].1 + total_size(s.drop_first())
    }
}

/// The pairs of `s` lie end to end, every one but the last is `block_len`
/// long, and none is empty.
pub open spec fn contiguous_blocks(s: Seq<(nat, nat)>, block_len: nat) -> bool {
    &&& forall|i: int| 0 <= i < s.len() ==> #[trigger] s[i].1 > 0
    &&& forall|i: int|
        0 <= i < s.len() - 1 ==> #[trigger] s[i + 1].0 == s[i].0 + s[i].1 && s[i].1 == block_len
}

proof fn lemma_schedule_from(piece_size: nat, block_len: nat, offset: nat)
    requires
        block_len > 0,
        offset <= piece_size,
    ensures
        ({
            let s = schedule(piece_size, block_len, offset);
            &&& total_size(s) == piece_size - offset
            &&& (s.len() == 0 <==> offset == piece_size)
            &&& s.len() > 0 ==> s[0].0 == offset
            &&& contiguous_blocks(s, block_len)
            &&& s.len() > 0 ==> s.last().0 + s.last().1 == piece_size
            &&& s.len() > 0 ==> s.last().1 == if (piece_size - offset) % (block_len as int) != 0 {
                ((piece_size - offset) % (block_len as int)) as nat
            } else {
                block_len
            }
        }),
    decreases piece_size - offset,
{
    let s = schedule(piece_size, block_len, offset);
    if offset < piece_size {
        let size = block_size_at(piece_size, block_len, offset);
        let rest = schedule(piece_size, block_len, offset + size);
        lemma_schedule_from(piece_size, block_len, offset + size);
        assert(s == seq![(offset, size)] + rest);
        assert(s.drop_first() == rest);
        assert forall|i: int| 0 <= i < s.len() implies #[trigger] s[i].1 > 0 by {
            if i > 0 {
                assert(s[i] == rest[i - 1]);
            }
        }
        assert forall|i: int| 0 <= i < s.len() - 1 implies #[trigger] s[i + 1].0 == s[i].0
            + s[i].1 && s[i].1 == block_len by {
            assert(s[i + 1] == rest[i]);
            if i > 0 {
                assert(s[i] == rest[i - 1]);
            }
        }
        if rest.len() == 0 {
            assert(s.last() == (offset, size));
            if size < block_len {
                lemma_small_mod(size, block_len);
            }
        } else {
            assert(s.last() == rest.last());
            lemma_mod_add_multiples_vanish(piece_size - offset - block_len, block_len as int);
        }
    }
}

/// Running the boundary rule from the start of a piece until it stops tiles
/// the piece: the blocks start at 0, each starts where the previous one ends,
/// the last ends at the piece's size, their sizes add up to it, every block
/// but the last is a whole block, and the last one is `piece_size % block_len`
/// long when that is nonzero and a whole block otherwise.
pub proof fn lemma_schedule_tiles(piece_size: nat, block_len: nat)
    requires
        block_len > 0,
    ensures
        ({
            let s = schedule(piece_size, block_len, 0);
            &&& total_size(s) == piece_size
            &&& (s.len() == 0 <==> piece_size == 0)
            &&& s.len() > 0 ==> s[0].0 == 0
            &&& contiguous_blocks(s, block_len)
            &&& s.len() > 0 ==> s.last().0 + s.last().1 == piece_size
            &&& s.len() > 0 ==> s.last().1 == if piece_size % block_len != 0 {
                piece_size % block_len
            } else {
                block_len
            }
        }),
{
    lemma_schedule_from(piece_size, block_len, 0);
}

} // verus!

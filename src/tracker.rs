//! The per-piece download state: the request window and the completion ledger.
use crate::block::{distinct_offsets, CompletedBlockRequest, PendingBlockRequest};
use crate::schedule::{block_size_at, schedule};
use vstd::prelude::*;

verus! {

/// Identifier of a piece within a torrent.
pub type PieceId = u32;

/// Length of a whole block, in bytes.
pub const BLOCK_LEN: u32 = 16384;

/// Capacity of the window of outstanding block requests of one piece.
pub const MAX_PENDING_REQUESTS: usize = 5;

/// Errors reported to the session that drives a piece download.
#[derive(Clone, Copy, Debug, PartialEq, Eq, Structural)]
pub enum PeerErr {
    /// A completed block matched no outstanding request.
    InvalidBlock,
}

/// Tracks download progress of the current piece.
pub struct PieceTracker {
    /// ID of the piece
    pub pid: PieceId,
    /// Size of the piece in bytes
    pub piece_size: u32,
    /// Number of bytes of the piece that have been scheduled for request
    pub offset: u32,
    /// Outstanding block requests
    pub pending_requests: Vec<PendingBlockRequest>,
    /// Received blocks
    pub completed_requests: Vec<CompletedBlockRequest>,
    /// Piece size minus the length of the received blocks
    pub remaining_bytes: u32,
}

/// Sum of the sizes of outstanding requests.
pub open spec fn pending_sizes(s: Seq<PendingBlockRequest>) -> nat
    decreases s.len(),
{
    if s.len() == 0 {
        0
    } else {
        pending_sizes(s.drop_last()) + s.last().size as nat
    }
}

/// Sum of the sizes of received blocks.
pub open spec fn completed_sizes(s: Seq<CompletedBlockRequest>) -> nat
    decreases s.len(),
{
    if s.len() == 0 {
        0
    } else {
        completed_sizes(s.drop_last()) + s.last().size as nat
    }
}

/// The `(offset, size)` pairs of a sequence of requests.
pub open spec fn request_pairs(s: Seq<PendingBlockRequest>) -> Seq<(nat, nat)> {
    s.map_values(|p: PendingBlockRequest| (p.offset as nat, p.size as nat))
}

proof fn lemma_pending_sizes_remove(s: Seq<PendingBlockRequest>, i: int)
    requires
        0 <= i < s.len(),
    ensures
        pending_sizes(s.remove(i)) + s[i].size == pending_sizes(s),
    decreases s.len(),
{
    if i == s.len() - 1 {
        assert(s.remove(i) == s.drop_last());
    } else {
        lemma_pending_sizes_remove(s.drop_last(), i);
        assert(s.remove(i).drop_last() == s.drop_last().remove(i));
    }
}

proof fn lemma_pending_sizes_zero(s: Seq<PendingBlockRequest>)
    requires
        forall|i: int| 0 <= i < s.len() ==> #[trigger] s[i].size > 0,
    ensures
        pending_sizes(s) == 0 <==> s.len() == 0,
{
    if s.len() > 0 {
        assert(s[s.len() - 1].size > 0);
    }
}

impl PieceTracker {
    /// The block `(offset, size)` is one that the boundary rule emitted
    /// before the cursor reached its current position.
    pub open spec fn scheduled_block(&self, offset: u32, size: u32) -> bool {
        &&& offset < self.offset
        &&& offset % BLOCK_LEN == 0
        &&& size as nat == block_size_at(self.piece_size as nat, BLOCK_LEN as nat, offset as nat)
    }

    /// The scheduling cursor lies within the piece, on a block boundary or at
    /// its end.
    pub open spec fn cursor_ok(&self) -> bool {
        &&& self.offset <= self.piece_size
        &&& self.offset == self.piece_size || self.offset % BLOCK_LEN == 0
    }

    /// The blocks still to be scheduled, as the boundary rule emits them.
    pub open spec fn unscheduled(&self) -> Seq<(nat, nat)> {
        schedule(self.piece_size as nat, BLOCK_LEN as nat, self.offset as nat)
    }

    /// Well-formedness: every outstanding or received block was scheduled,
    /// no byte range is held twice, the window is within its capacity, and
    /// the byte counts agree with the blocks held.
    pub open spec fn wf(&self) -> bool {
        let p = self.pending_requests@;
        let c = self.completed_requests@;
        &&& self.cursor_ok()
        &&& p.len() <= MAX_PENDING_REQUESTS
        &&& forall|i: int| 0 <= i < p.len() ==> #[trigger] self.scheduled_block(p[i].offset, p[i].size)
        &&& forall|i: int| 0 <= i < c.len() ==> #[trigger] self.scheduled_block(c[i].offset, c[i].size)
        &&& forall|i: int, j: int|
            #![trigger p[i], p[j]]
            0 <= i < p.len() && 0 <= j < p.len() && i != j ==> p[i].offset != p[j].offset
        &&& distinct_offsets(c)
        &&& forall|i: int, j: int|
            #![trigger p[i], c[j]]
            0 <= i < p.len() && 0 <= j < c.len() ==> p[i].offset != c[j].offset
        &&& pending_sizes(p) + completed_sizes(c) == self.offset
        &&& self.remaining_bytes + completed_sizes(c) == self.piece_size
    }

    pub fn new(piece_id: PieceId, piece_size: u32) -> (r: Self)
        ensures
            r.wf(),
            r.pid == piece_id,
            r.piece_size == piece_size,
            r.offset == 0,
            r.pending_requests@.len() == 0,
            r.completed_requests@.len() == 0,
            r.remaining_bytes == piece_size,
    {
        let pending_requests = Vec::with_capacity(MAX_PENDING_REQUESTS);
        let completed_requests = Vec::with_capacity((piece_size / BLOCK_LEN) as usize);
        Self {
            pid: piece_id,
            piece_size,
            offset: 0,
            pending_requests,
            completed_requests,
            remaining_bytes: piece_size,
        }
    }

    /// Calculates the offset and size of the next block and moves the cursor
    /// past it; `None` once the whole piece has been scheduled.
    pub fn next_pending_request(&mut self) -> (r: Option<PendingBlockRequest>)
        requires
            old(self).cursor_ok(),
        ensures
            final(self).cursor_ok(),
            final(self).pid == old(self).pid,
            final(self).piece_size == old(self).piece_size,
            final(self).pending_requests == old(self).pending_requests,
            final(self).completed_requests == old(self).completed_requests,
            final(self).remaining_bytes == old(self).remaining_bytes,
            r is None <==> old(self).offset == old(self).piece_size,
            r is None ==> final(self).offset == old(self).offset && old(self).unscheduled().len()
                == 0,
            r matches Some(p) ==> {
                &&& p.offset == old(self).offset
                &&& p.size as nat == block_size_at(
                    old(self).piece_size as nat,
                    BLOCK_LEN as nat,
                    old(self).offset as nat,
                )
                &&& final(self).offset == old(self).offset + p.size
                &&& old(self).unscheduled() == seq![(p.offset as nat, p.size as nat)]
                    + final(self).unscheduled()
            },
    {
        let old_offset = self.offset;
        let remaining = self.piece_size - self.offset;
        if remaining > BLOCK_LEN {
            self.offset = self.offset + BLOCK_LEN;
            return Some(PendingBlockRequest::new(old_offset, BLOCK_LEN));
        }
        if remaining > 0 {
            self.offset = self.offset + remaining;
            Some(PendingBlockRequest::new(old_offset, remaining))
        } else {
            None
        }
    }
}

impl PieceTracker {
    /// Refills the window of outstanding requests up to its capacity and
    /// returns the requests added by this call, in order.
    pub fn next_requests(&mut self) -> (r: Vec<PendingBlockRequest>)
        requires
            old(self).wf(),
        ensures
            final(self).wf(),
            final(self).pid == old(self).pid,
            final(self).piece_size == old(self).piece_size,
            final(self).completed_requests == old(self).completed_requests,
            final(self).remaining_bytes == old(self).remaining_bytes,
            final(self).pending_requests@ == old(self).pending_requests@ + r@,
            old(self).unscheduled() == request_pairs(r@) + final(self).unscheduled(),
            final(self).pending_requests@.len() == MAX_PENDING_REQUESTS || final(self).offset
                == final(self).piece_size,
            final(self).pending_requests@.len() <= MAX_PENDING_REQUESTS,
    {
        let ghost start = *self;
        let current = self.pending_requests.len();
        let mut batch: Vec<PendingBlockRequest> = Vec::new();
        if current < MAX_PENDING_REQUESTS {
            let new_requests = MAX_PENDING_REQUESTS - current;
            let mut queued: usize = 0;
            let mut exhausted = false;
            while queued < new_requests && !exhausted
                invariant
                    self.wf(),
                    self.pid == start.pid,
                    self.piece_size == start.piece_size,
                    self.completed_requests == start.completed_requests,
                    self.remaining_bytes == start.remaining_bytes,
                    self.pending_requests@ == start.pending_requests@ + batch@,
                    batch@.len() == queued,
                    start.wf(),
                    queued <= new_requests,
                    new_requests == MAX_PENDING_REQUESTS - current,
                    current == start.pending_requests@.len(),
                    start.unscheduled() == request_pairs(batch@) + self.unscheduled(),
                    exhausted ==> self.offset == self.piece_size,
                decreases new_requests - queued + if exhausted {
                    0int
                } else {
                    1int
                },
            {
                let ghost before = *self;
                match self.next_pending_request() {
                    Some(pr) => {
                        self.pending_requests.push(pr);
                        batch.push(pr);
                        proof {
                            let p = self.pending_requests@;
                            let c = self.completed_requests@;
                            assert(p == before.pending_requests@.push(pr));
                            assert forall|i: int| 0 <= i < p.len() implies #[trigger] self.scheduled_block(
                                p[i].offset,
                                p[i].size,
                            ) by {
                                if i < p.len() - 1 {
                                    assert(before.scheduled_block(p[i].offset, p[i].size));
                                }
                            }
                            assert forall|i: int| 0 <= i < c.len() implies #[trigger] self.scheduled_block(
                                c[i].offset,
                                c[i].size,
                            ) by {
                                assert(before.scheduled_block(c[i].offset, c[i].size));
                            }
                            assert forall|i: int, j: int|
                                0 <= i < p.len() && 0 <= j < p.len() && i != j implies #[trigger] p[i].offset
                                != #[trigger] p[j].offset by {
                                if i < p.len() - 1 {
                                    assert(before.scheduled_block(p[i].offset, p[i].size));
                                }
                                if j < p.len() - 1 {
                                    assert(before.scheduled_block(p[j].offset, p[j].size));
                                }
                            }
                            assert forall|i: int, j: int|
                                0 <= i < p.len() && 0 <= j < c.len() implies #[trigger] p[i].offset
                                != #[trigger] c[j].offset by {
                                assert(before.scheduled_block(c[j].offset, c[j].size));
                            }
                            assert(p.drop_last() == before.pending_requests@);
                            assert(request_pairs(batch@) == request_pairs(
                                batch@.drop_last(),
                            ).push((pr.offset as nat, pr.size as nat)));
                            assert(start.unscheduled() == request_pairs(batch@)
                                + self.unscheduled());
                        }
                        queued = queued + 1;
                    },
                    None => {
                        exhausted = true;
                    },
                }
            }
        }
        proof {
            if batch@.len() == 0 {
                assert(request_pairs(batch@) == Seq::<(nat, nat)>::empty());
                assert(start.unscheduled() == request_pairs(batch@) + self.unscheduled());
                assert(self.pending_requests@ == start.pending_requests@);
            }
        }
        batch
    }

    /// Records a received block. Fails with `InvalidBlock`, changing nothing,
    /// unless an outstanding request has exactly its offset and size;
    /// otherwise moves that request to the received blocks and returns
    /// whether the whole piece has now been received.
    pub fn request_completed(&mut self, req: CompletedBlockRequest) -> (r: Result<bool, PeerErr>)
        requires
            old(self).wf(),
        ensures
            final(self).wf(),
            (r is Err) <==> !(exists|i: int|
                0 <= i < old(self).pending_requests@.len()
                    && #[trigger] old(self).pending_requests@[i].offset == req.offset
                    && old(self).pending_requests@[i].size == req.size),
            r is Err ==> r == Err::<bool, PeerErr>(PeerErr::InvalidBlock) && *final(self) == *old(
                self,
            ),
            r is Ok ==> {
                &&& exists|i: int|
                    0 <= i < old(self).pending_requests@.len()
                        && #[trigger] old(self).pending_requests@[i].offset == req.offset
                        && old(self).pending_requests@[i].size == req.size
                        && final(self).pending_requests@ == old(self).pending_requests@.remove(i)
                &&& final(self).completed_requests@ == old(self).completed_requests@.push(req)
                &&& final(self).remaining_bytes == old(self).remaining_bytes - req.size
                &&& final(self).pid == old(self).pid
                &&& final(self).piece_size == old(self).piece_size
                &&& final(self).offset == old(self).offset
                &&& r == Ok::<bool, PeerErr>(final(self).remaining_bytes == 0)
                &&& r == Ok::<bool, PeerErr>(
                    final(self).offset == final(self).piece_size
                        && final(self).pending_requests@.len() == 0,
                )
            },
    {
        let ghost start = *self;
        let n = self.pending_requests.len();
        let mut index: usize = 0;
        while index < n && !(self.pending_requests[index].offset == req.offset
            && self.pending_requests[index].size == req.size)
            invariant
                *self == start,
                start.wf(),
                n == self.pending_requests@.len(),
                index <= n,
                forall|k: int|
                    0 <= k < index ==> !(#[trigger] self.pending_requests@[k].offset == req.offset
                        && self.pending_requests@[k].size == req.size),
            decreases n - index,
        {
            index = index + 1;
        }
        if index == n {
            return Err(PeerErr::InvalidBlock);
        }
        let ghost i = index as int;
        let ghost p0 = self.pending_requests@;
        let ghost c0 = self.completed_requests@;
        proof {
            lemma_pending_sizes_remove(p0, i);
        }
        self.pending_requests.remove(index);
        self.remaining_bytes = self.remaining_bytes - req.size;
        self.completed_requests.push(req);
        proof {
            let p = self.pending_requests@;
            let c = self.completed_requests@;
            assert(c.drop_last() == c0);
            assert(start.scheduled_block(p0[i].offset, p0[i].size));
            assert forall|a: int| 0 <= a < p.len() implies #[trigger] self.scheduled_block(
                p[a].offset,
                p[a].size,
            ) by {
                if a < i {
                    assert(p[a] == p0[a]);
                    assert(start.scheduled_block(p0[a].offset, p0[a].size));
                } else {
                    assert(p[a] == p0[a + 1]);
                    assert(start.scheduled_block(p0[a + 1].offset, p0[a + 1].size));
                }
            }
            assert forall|a: int| 0 <= a < c.len() implies #[trigger] self.scheduled_block(
                c[a].offset,
                c[a].size,
            ) by {
                if a < c.len() - 1 {
                    assert(start.scheduled_block(c0[a].offset, c0[a].size));
                }
            }
            assert forall|a: int, b: int|
                0 <= a < p.len() && 0 <= b < p.len() && a != b implies #[trigger] p[a].offset
                != #[trigger] p[b].offset by {
                let a0 = if a < i { a } else { a + 1 };
                let b0 = if b < i { b } else { b + 1 };
                assert(p[a] == p0[a0]);
                assert(p[b] == p0[b0]);
                assert(p0[a0].offset != p0[b0].offset);
            }
            assert forall|a: int, b: int|
                0 <= a < c.len() && 0 <= b < c.len() && a != b implies #[trigger] c[a].offset
                != #[trigger] c[b].offset by {
                if a < c.len() - 1 && b < c.len() - 1 {
                    assert(c0[a].offset != c0[b].offset);
                } else if a < c.len() - 1 {
                    assert(p0[i].offset != c0[a].offset);
                } else {
                    assert(p0[i].offset != c0[b].offset);
                }
            }
            assert forall|a: int, b: int|
                0 <= a < p.len() && 0 <= b < c.len() implies #[trigger] p[a].offset
                != #[trigger] c[b].offset by {
                let a0 = if a < i { a } else { a + 1 };
                assert(p[a] == p0[a0]);
                if b < c.len() - 1 {
                    assert(p0[a0].offset != c0[b].offset);
                } else {
                    assert(p0[a0].offset != p0[i].offset);
                }
            }
            assert(self.wf());
            lemma_done_iff_all_delivered(self);
        }
        Ok(self.remaining_bytes == 0)
    }
}

/// A block that the boundary rule never emitted matches no outstanding
/// request of a well-formed tracker, so completing it is rejected with
/// `InvalidBlock` and leaves the tracker unchanged.
pub proof fn lemma_unscheduled_block_unmatched(t: &PieceTracker, offset: u32, size: u32)
    requires
        t.wf(),
        !t.scheduled_block(offset, size),
    ensures
        !(exists|i: int|
            0 <= i < t.pending_requests@.len() && #[trigger] t.pending_requests@[i].offset
                == offset && t.pending_requests@[i].size == size),
{
    assert forall|i: int| 0 <= i < t.pending_requests@.len() implies !(
    #[trigger] t.pending_requests@[i].offset == offset && t.pending_requests@[i].size == size) by {
        assert(t.scheduled_block(t.pending_requests@[i].offset, t.pending_requests@[i].size));
    }
}

/// A well-formed tracker has no bytes left to receive exactly when the whole
/// piece has been scheduled and no request is outstanding; so the last
/// outstanding block to arrive is the one whose completion reports the piece
/// as received, and no earlier one does.
pub proof fn lemma_done_iff_all_delivered(t: &PieceTracker)
    requires
        t.wf(),
    ensures
        t.remaining_bytes == 0 <==> (t.offset == t.piece_size && t.pending_requests@.len() == 0),
{
    let p = t.pending_requests@;
    assert forall|i: int| 0 <= i < p.len() implies #[trigger] p[i].size > 0 by {
        assert(t.scheduled_block(p[i].offset, p[i].size));
    }
    lemma_pending_sizes_zero(p);
}

} // verus!

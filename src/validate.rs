//! Reassembly of a received piece and its check against the expected digest.
use crate::block::{buffer_slice, distinct_offsets, CompletedBlockRequest};
use crate::tracker::{PeerErr, PieceId, PieceTracker};
use sha1::{Digest, Sha1};
use vstd::multiset::Multiset;
use vstd::prelude::*;
use vstd::seq_lib::group_to_multiset_ensures;

verus! {

/// The torrent metadata that validation consults: the expected digest of
/// each piece, indexed by piece ID.
pub struct Metainfo {
    pub piece_hashes: Vec<Vec<u8>>,
}

/// A piece whose blocks, sorted by offset, hash to the expected digest.
#[derive(Debug)]
pub struct ValidatedPiece {
    /// ID of the piece
    pub pid: PieceId,
    /// Received blocks, in ascending order of offset
    pub blocks: Vec<CompletedBlockRequest>,
}

/// The SHA-1 digest of a byte string.
pub uninterp spec fn sha1_of(data: Seq<u8>) -> Seq<u8>;

/// Relies on `Digest::digest` as implemented for `sha1::Sha1`: the SHA-1
/// digest of `data`, which depends on `data` alone and is 20 bytes long.
#[verifier::external_body]
fn sha1_digest(data: &[u8]) -> (r: Vec<u8>)
    ensures
        r@ == sha1_of(data@),
        r@.len() == 20,
{
    Sha1::digest(data).to_vec()
}

/// The offsets of `s` strictly increase.
pub open spec fn ascending_offsets(s: Seq<CompletedBlockRequest>) -> bool {
    forall|i: int, j: int|
        #![trigger s[i], s[j]]
        0 <= i < j < s.len() ==> s[i].offset < s[j].offset
}

/// The payloads of `s`, concatenated in sequence order.
pub open spec fn payload_concat(s: Seq<CompletedBlockRequest>) -> Seq<u8>
    decreases s.len(),
{
    if s.len() == 0 {
        Seq::empty()
    } else {
        payload_concat(s.drop_last()) + s.last().payload()
    }
}

/// Arranges blocks with distinct offsets in ascending order of offset.
pub fn sort_by_offset(blocks: Vec<CompletedBlockRequest>) -> (r: Vec<CompletedBlockRequest>)
    requires
        distinct_offsets(blocks@),
    ensures
        ascending_offsets(r@),
        r@.to_multiset() == blocks@.to_multiset(),
{
    broadcast use group_to_multiset_ensures;

    let ghost orig = blocks@;
    let mut rest = blocks;
    let mut sorted: Vec<CompletedBlockRequest> = Vec::new();
    proof {
        assert(sorted@.to_multiset() =~= Multiset::empty());
        assert(sorted@.to_multiset().add(rest@.to_multiset()) =~= orig.to_multiset());
    }
    while rest.len() > 0
        invariant
            ascending_offsets(sorted@),
            distinct_offsets(rest@),
            forall|a: int, b: int|
                #![trigger sorted@[a], rest@[b]]
                0 <= a < sorted@.len() && 0 <= b < rest@.len() ==> sorted@[a].offset
                    < rest@[b].offset,
            sorted@.to_multiset().add(rest@.to_multiset()) == orig.to_multiset(),
        decreases rest@.len(),
    {
        let mut m: usize = 0;
        let mut k: usize = 1;
        while k < rest.len()
            invariant
                m < rest@.len(),
                1 <= k <= rest@.len(),
                forall|j: int| 0 <= j < k ==> rest@[m as int].offset <= #[trigger] rest@[j].offset,
            decreases rest@.len() - k,
        {
            if rest[k].offset < rest[m].offset {
                m = k;
            }
            k = k + 1;
        }
        let ghost rest0 = rest@;
        let ghost sorted0 = sorted@;
        let x = rest.remove(m);
        sorted.push(x);
        proof {
            broadcast use group_to_multiset_ensures;

            let mi = m as int;
            assert(x == rest0[mi]);
            assert(rest@ == rest0.remove(mi));
            assert(sorted@ == sorted0.push(x));
            assert forall|j: int| 0 <= j < rest0.len() && j != mi implies x.offset
                < #[trigger] rest0[j].offset by {
                assert(rest0[mi].offset != rest0[j].offset);
            }
            assert forall|i: int, j: int|
                0 <= i < j < sorted@.len() implies #[trigger] sorted@[i].offset
                < #[trigger] sorted@[j].offset by {
                if j == sorted@.len() - 1 {
                    assert(sorted0[i].offset < rest0[mi].offset);
                }
            }
            assert forall|a: int, b: int|
                0 <= a < sorted@.len() && 0 <= b < rest@.len() implies #[trigger] sorted@[a].offset
                < #[trigger] rest@[b].offset by {
                let b0 = if b < mi { b } else { b + 1 };
                assert(rest@[b] == rest0[b0]);
                if a < sorted@.len() - 1 {
                    assert(sorted0[a].offset < rest0[b0].offset);
                }
            }
            assert forall|a: int, b: int|
                0 <= a < rest@.len() && 0 <= b < rest@.len() && a != b implies #[trigger] rest@[a].offset
                != #[trigger] rest@[b].offset by {
                let a0 = if a < mi { a } else { a + 1 };
                let b0 = if b < mi { b } else { b + 1 };
                assert(rest@[a] == rest0[a0]);
                assert(rest@[b] == rest0[b0]);
                assert(rest0[a0].offset != rest0[b0].offset);
            }
            assert(rest0.contains(x));
            assert(rest0.to_multiset().count(x) > 0);
            assert(rest0.remove(mi).to_multiset() == rest0.to_multiset().remove(x));
            assert(sorted0.push(x).to_multiset() == sorted0.to_multiset().insert(x));
            assert(sorted@.to_multiset().add(rest@.to_multiset()) =~= orig.to_multiset());
        }
    }
    sorted
}

/// Concatenates the payloads of `blocks` in sequence order.
pub fn concat_payloads(blocks: &Vec<CompletedBlockRequest>) -> (r: Vec<u8>)
    ensures
        r@ == payload_concat(blocks@),
{
    let mut data: Vec<u8> = Vec::new();
    let mut i: usize = 0;
    while i < blocks.len()
        invariant
            i <= blocks@.len(),
            data@ == payload_concat(blocks@.subrange(0, i as int)),
        decreases blocks@.len() - i,
    {
        let slice = buffer_slice(&blocks[i].bytes);
        let ghost base = data@;
        let mut j: usize = 0;
        while j < slice.len()
            invariant
                j <= slice@.len(),
                data@ == base + slice@.subrange(0, j as int),
            decreases slice@.len() - j,
        {
            data.push(slice[j]);
            proof {
                assert(slice@.subrange(0, j + 1) == slice@.subrange(0, j as int).push(slice@[j as int]));
            }
            j = j + 1;
        }
        proof {
            let prefix = blocks@.subrange(0, i + 1);
            assert(prefix.drop_last() == blocks@.subrange(0, i as int));
            assert(slice@.subrange(0, j as int) == slice@);
        }
        i = i + 1;
    }
    proof {
        assert(blocks@.subrange(0, blocks@.len() as int) == blocks@);
    }
    data
}

/// Accepts `blocks` as the validated piece `pid` exactly when the computed
/// digest equals the expected one.
pub fn validated_if_match(
    pid: PieceId,
    blocks: Vec<CompletedBlockRequest>,
    digest: &[u8],
    expected: &[u8],
) -> (r: Option<ValidatedPiece>)
    ensures
        r is Some <==> digest@ == expected@,
        r matches Some(v) ==> v.pid == pid && v.blocks@ == blocks@,
{
    if digest.len() != expected.len() {
        return None;
    }
    let mut i: usize = 0;
    while i < digest.len()
        invariant
            digest@.len() == expected@.len(),
            i <= digest@.len(),
            digest@.subrange(0, i as int) == expected@.subrange(0, i as int),
        decreases digest@.len() - i,
    {
        if digest[i] != expected[i] {
            return None;
        }
        proof {
            assert(digest@.subrange(0, i + 1) == digest@.subrange(0, i as int).push(digest@[i as int]));
            assert(expected@.subrange(0, i + 1) == expected@.subrange(0, i as int).push(
                expected@[i as int],
            ));
        }
        i = i + 1;
    }
    proof {
        assert(digest@ == digest@.subrange(0, i as int));
        assert(expected@ == expected@.subrange(0, i as int));
    }
    Some(ValidatedPiece { pid, blocks })
}

/// Two arrangements of the same blocks in strictly ascending order of offset
/// are the same sequence.
pub proof fn lemma_ascending_arrangement_unique(
    r1: Seq<CompletedBlockRequest>,
    r2: Seq<CompletedBlockRequest>,
)
    requires
        ascending_offsets(r1),
        ascending_offsets(r2),
        r1.to_multiset() == r2.to_multiset(),
    ensures
        r1 == r2,
    decreases r1.len(),
{
    broadcast use group_to_multiset_ensures;

    assert(r1.to_multiset().len() == r1.len());
    assert(r2.to_multiset().len() == r2.len());
    if r1.len() == 0 {
        assert(r1 =~= r2);
    } else {
        assert(r1.contains(r1[0]));
        assert(r1.to_multiset().count(r1[0]) > 0);
        assert(r2.to_multiset().count(r1[0]) > 0);
        assert(r2.contains(r1[0]));
        let k = choose|k: int| 0 <= k < r2.len() && r2[k] == r1[0];
        assert(r2.contains(r2[0]));
        assert(r2.to_multiset().count(r2[0]) > 0);
        assert(r1.to_multiset().count(r2[0]) > 0);
        assert(r1.contains(r2[0]));
        let k2 = choose|k2: int| 0 <= k2 < r1.len() && r1[k2] == r2[0];
        if k > 0 {
            assert(r2[0].offset < r2[k].offset);
        }
        if k2 > 0 {
            assert(r1[0].offset < r1[k2].offset);
        }
        assert(k2 == 0);
        assert(r1[0] == r2[0]);
        let t1 = r1.remove(0);
        let t2 = r2.remove(0);
        assert(t1.to_multiset() == r1.to_multiset().remove(r1[0]));
        assert(t2.to_multiset() == r2.to_multiset().remove(r2[0]));
        assert forall|i: int, j: int| 0 <= i < j < t1.len() implies #[trigger] t1[i].offset
            < #[trigger] t1[j].offset by {
            assert(r1[i + 1].offset < r1[j + 1].offset);
        }
        assert forall|i: int, j: int| 0 <= i < j < t2.len() implies #[trigger] t2[i].offset
            < #[trigger] t2[j].offset by {
            assert(r2[i + 1].offset < r2[j + 1].offset);
        }
        lemma_ascending_arrangement_unique(t1, t2);
        assert forall|i: int| 0 <= i < r1.len() implies r1[i] == r2[i] by {
            if i > 0 {
                assert(r1[i] == t1[i - 1]);
                assert(r2[i] == t2[i - 1]);
            }
        }
        assert(r1 =~= r2);
    }
}

/// Validation does not depend on the order in which blocks were completed:
/// for two trackers holding the same received blocks, in whatever order,
/// the ascending arrangements that validation may produce are the same
/// sequence, so the same bytes are hashed and the same piece is returned.
pub proof fn lemma_validation_order_independent(
    t1: &PieceTracker,
    t2: &PieceTracker,
    b1: Seq<CompletedBlockRequest>,
    b2: Seq<CompletedBlockRequest>,
)
    requires
        t1.completed_requests@.to_multiset() == t2.completed_requests@.to_multiset(),
        ascending_offsets(b1),
        ascending_offsets(b2),
        b1.to_multiset() == t1.completed_requests@.to_multiset(),
        b2.to_multiset() == t2.completed_requests@.to_multiset(),
    ensures
        b1 == b2,
        payload_concat(b1) == payload_concat(b2),
{
    lemma_ascending_arrangement_unique(b1, b2);
}

impl PieceTracker {
    /// Sorts the received blocks by offset, hashes their concatenated
    /// payloads, and compares the digest with the expected digest of this
    /// piece. Consumes the tracker. Returns the validated piece on a match and
    /// `None` on a mismatch.
    pub fn validate_piece(self, metainfo: &Metainfo) -> (r: Result<Option<ValidatedPiece>, PeerErr>)
        requires
            self.wf(),
            (self.pid as int) < metainfo.piece_hashes@.len(),
        ensures
            r is Ok,
            r matches Ok(Some(v)) ==> {
                &&& v.pid == self.pid
                &&& ascending_offsets(v.blocks@)
                &&& v.blocks@.to_multiset() == self.completed_requests@.to_multiset()
                &&& sha1_of(payload_concat(v.blocks@)) == metainfo.piece_hashes@[self.pid as int]@
            },
            r matches Ok(None) ==> forall|s: Seq<CompletedBlockRequest>|
                #![trigger payload_concat(s)]
                ascending_offsets(s) && s.to_multiset() == self.completed_requests@.to_multiset()
                    ==> sha1_of(payload_concat(s)) != metainfo.piece_hashes@[self.pid as int]@,
    {
        let pid = self.pid;
        let ghost received = self.completed_requests@;
        let blocks = sort_by_offset(self.completed_requests);
        let data = concat_payloads(&blocks);
        let digest = sha1_digest(data.as_slice());
        let expected = &metainfo.piece_hashes[pid as usize];
        let ghost sorted = blocks@;
        let outcome = validated_if_match(pid, blocks, digest.as_slice(), expected.as_slice());
        proof {
            if outcome is None {
                assert forall|s: Seq<CompletedBlockRequest>|
                    ascending_offsets(s) && s.to_multiset() == received.to_multiset() implies sha1_of(
                    #[trigger] payload_concat(s),
                ) != metainfo.piece_hashes@[pid as int]@ by {
                    lemma_ascending_arrangement_unique(s, sorted);
                }
            }
        }
        Ok(outcome)
    }
}

} // verus!

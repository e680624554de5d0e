use bytes::BytesMut;
use piece_tracker::block::{CompletedBlockRequest, PendingBlockRequest};
use piece_tracker::tracker::{PeerErr, PieceTracker, BLOCK_LEN, MAX_PENDING_REQUESTS};
use piece_tracker::validate::{
    concat_payloads, sort_by_offset, validated_if_match, Metainfo, ValidatedPiece,
};
use sha1::{Digest, Sha1};

fn pairs(reqs: &[PendingBlockRequest]) -> Vec<(u32, u32)> {
    reqs.iter().map(|r| (r.offset, r.size)).collect()
}

fn block(offset: u32, size: u32, fill: u8) -> CompletedBlockRequest {
    CompletedBlockRequest::new(offset, size, BytesMut::from(&vec![fill; size as usize][..]))
}

fn drain(piece_size: u32) -> Vec<(u32, u32)> {
    let mut t = PieceTracker::new(0, piece_size);
    let mut out = Vec::new();
    while let Some(p) = t.next_pending_request() {
        out.push((p.offset, p.size));
    }
    out
}

fn sha1_bytes(data: &[u8]) -> Vec<u8> {
    Sha1::digest(data).to_vec()
}

fn metainfo_with(pid: usize, hash: Vec<u8>) -> Metainfo {
    let mut piece_hashes = vec![vec![0u8; 20]; pid + 1];
    piece_hashes[pid] = hash;
    Metainfo { piece_hashes }
}

fn offsets(v: &ValidatedPiece) -> Vec<u32> {
    v.blocks.iter().map(|b| b.offset).collect()
}

#[test]
fn pending_block_request_new_keeps_fields() {
    let p = PendingBlockRequest::new(16384, 3616);
    assert_eq!(p.offset, 16384);
    assert_eq!(p.size, 3616);
}

#[test]
fn completed_block_request_new_keeps_fields() {
    let c = CompletedBlockRequest::new(32, 3, BytesMut::from(&b"abc"[..]));
    assert_eq!(c.offset, 32);
    assert_eq!(c.size, 3);
    assert_eq!(&c.bytes[..], b"abc");
}

#[test]
fn new_tracker_starts_empty() {
    let t = PieceTracker::new(7, 40000);
    assert_eq!(t.pid, 7);
    assert_eq!(t.piece_size, 40000);
    assert_eq!(t.offset, 0);
    assert_eq!(t.remaining_bytes, 40000);
    assert!(t.pending_requests.is_empty());
    assert!(t.completed_requests.is_empty());
}

#[test]
fn drain_tiles_uneven_piece() {
    let s: u32 = 5 * BLOCK_LEN + 123;
    let blocks = drain(s);
    assert_eq!(blocks.len(), 6);
    let mut next = 0;
    for (i, (off, size)) in blocks.iter().enumerate() {
        assert_eq!(*off, next);
        if i + 1 < blocks.len() {
            assert_eq!(*size, BLOCK_LEN);
        }
        next = off + size;
    }
    assert_eq!(next, s);
    assert_eq!(blocks.last().unwrap().1, s % BLOCK_LEN);
}

#[test]
fn drain_tiles_even_piece_with_whole_last_block() {
    let blocks = drain(3 * BLOCK_LEN);
    assert_eq!(blocks, vec![(0, 16384), (16384, 16384), (32768, 16384)]);
}

#[test]
fn drain_of_empty_piece_yields_nothing() {
    assert!(drain(0).is_empty());
}

#[test]
fn drain_of_small_piece_yields_one_short_block() {
    assert_eq!(drain(1), vec![(0, 1)]);
}

#[test]
fn two_block_piece_scenario() {
    let mut t = PieceTracker::new(2, 32768);
    let reqs = t.next_requests();
    assert_eq!(pairs(&reqs), vec![(0, 16384), (16384, 16384)]);
    assert!(t.next_requests().is_empty());

    let first = block(0, 16384, 1);
    let second = block(16384, 16384, 2);
    let mut data = vec![1u8; 16384];
    data.extend(vec![2u8; 16384]);

    assert_eq!(t.request_completed(second), Ok(false));
    assert_eq!(t.request_completed(first), Ok(true));
    assert_eq!(t.remaining_bytes, 0);

    let meta = metainfo_with(2, sha1_bytes(&data));
    let v = t.validate_piece(&meta).unwrap().expect("digest matches");
    assert_eq!(v.pid, 2);
    assert_eq!(offsets(&v), vec![0, 16384]);
    assert_eq!(&v.blocks[0].bytes[..], &vec![1u8; 16384][..]);
}

#[test]
fn two_block_piece_in_request_order_completes_on_second() {
    let mut t = PieceTracker::new(0, 32768);
    t.next_requests();
    assert_eq!(t.request_completed(block(0, 16384, 0)), Ok(false));
    assert_eq!(t.request_completed(block(16384, 16384, 0)), Ok(true));
}

#[test]
fn uneven_piece_scenario() {
    let mut t = PieceTracker::new(0, 20000);
    let reqs = t.next_requests();
    assert_eq!(pairs(&reqs), vec![(0, 16384), (16384, 3616)]);
    let total: u32 = reqs.iter().map(|r| r.size).sum();
    assert_eq!(total, 20000);
    assert_eq!(t.offset, 20000);
}

#[test]
fn duplicate_completion_is_rejected() {
    let mut t = PieceTracker::new(0, 32768);
    t.next_requests();
    assert_eq!(t.request_completed(block(0, 16384, 9)), Ok(false));
    assert_eq!(t.request_completed(block(0, 16384, 9)), Err(PeerErr::InvalidBlock));
    assert_eq!(t.remaining_bytes, 16384);
    assert_eq!(pairs(&t.pending_requests), vec![(16384, 16384)]);
}

#[test]
fn unscheduled_block_is_rejected_and_changes_nothing() {
    let mut t = PieceTracker::new(0, 100000);
    t.next_requests();
    let before = pairs(&t.pending_requests);
    assert_eq!(t.request_completed(block(0, 100, 0)), Err(PeerErr::InvalidBlock));
    assert_eq!(t.request_completed(block(5 * 16384, 16384, 0)), Err(PeerErr::InvalidBlock));
    assert_eq!(t.request_completed(block(8, 16384, 0)), Err(PeerErr::InvalidBlock));
    assert_eq!(pairs(&t.pending_requests), before);
    assert_eq!(t.remaining_bytes, 100000);
    assert!(t.completed_requests.is_empty());
}

#[test]
fn window_never_exceeds_capacity() {
    let mut t = PieceTracker::new(0, 20 * BLOCK_LEN);
    let first = t.next_requests();
    assert_eq!(first.len(), MAX_PENDING_REQUESTS);
    assert_eq!(t.pending_requests.len(), MAX_PENDING_REQUESTS);
    assert!(t.next_requests().is_empty());
    assert_eq!(t.request_completed(block(16384, 16384, 0)), Ok(false));
    assert_eq!(t.request_completed(block(0, 16384, 0)), Ok(false));
    let refill = t.next_requests();
    assert_eq!(pairs(&refill), vec![(5 * 16384, 16384), (6 * 16384, 16384)]);
    assert_eq!(t.pending_requests.len(), MAX_PENDING_REQUESTS);
}

#[test]
fn refill_returns_only_new_requests_when_generator_runs_out() {
    let mut t = PieceTracker::new(0, 6 * BLOCK_LEN + 10);
    t.next_requests();
    assert_eq!(t.request_completed(block(0, 16384, 0)), Ok(false));
    assert_eq!(t.request_completed(block(16384, 16384, 0)), Ok(false));
    assert_eq!(t.request_completed(block(32768, 16384, 0)), Ok(false));
    let refill = t.next_requests();
    assert_eq!(pairs(&refill), vec![(5 * 16384, 16384), (6 * 16384, 10)]);
    assert_eq!(t.pending_requests.len(), 4);
}

#[test]
fn completing_all_blocks_signals_only_on_last() {
    let size = 7 * BLOCK_LEN + 5;
    let mut t = PieceTracker::new(0, size);
    let mut signals = Vec::new();
    loop {
        let batch = t.next_requests();
        if batch.is_empty() && t.pending_requests.is_empty() {
            break;
        }
        let pending: Vec<(u32, u32)> = pairs(&t.pending_requests);
        for (off, len) in pending.into_iter().rev() {
            signals.push(t.request_completed(block(off, len, 0)).unwrap());
        }
    }
    assert_eq!(signals.len(), 8);
    assert_eq!(signals.iter().filter(|s| **s).count(), 1);
    assert!(*signals.last().unwrap());
    assert_eq!(t.remaining_bytes, 0);
}

#[test]
fn empty_piece_validates_against_digest_of_nothing() {
    let mut t = PieceTracker::new(0, 0);
    assert!(t.next_requests().is_empty());
    let meta = metainfo_with(0, sha1_bytes(b""));
    let v = t.validate_piece(&meta).unwrap().expect("empty digest matches");
    assert!(v.blocks.is_empty());
}

fn deliver_in_order(order: &[usize]) -> Option<ValidatedPiece> {
    let size = 3 * BLOCK_LEN + 100;
    let mut t = PieceTracker::new(1, size);
    let reqs = t.next_requests();
    let mut data = Vec::new();
    for (i, r) in reqs.iter().enumerate() {
        data.extend(vec![i as u8 + 10; r.size as usize]);
    }
    for &i in order {
        let r = reqs[i];
        t.request_completed(block(r.offset, r.size, i as u8 + 10)).unwrap();
    }
    let meta = metainfo_with(1, sha1_bytes(&data));
    t.validate_piece(&meta).unwrap()
}

#[test]
fn validation_is_independent_of_completion_order() {
    let a = deliver_in_order(&[0, 1, 2, 3]).expect("valid");
    let b = deliver_in_order(&[3, 1, 0, 2]).expect("valid");
    let c = deliver_in_order(&[2, 3, 1, 0]).expect("valid");
    assert_eq!(offsets(&a), vec![0, 16384, 32768, 49152]);
    assert_eq!(offsets(&a), offsets(&b));
    assert_eq!(offsets(&a), offsets(&c));
    assert_eq!(concat_payloads(&a.blocks), concat_payloads(&b.blocks));
    assert_eq!(concat_payloads(&a.blocks), concat_payloads(&c.blocks));
}

#[test]
fn corrupted_piece_is_not_validated() {
    let mut t = PieceTracker::new(0, 32768);
    t.next_requests();
    t.request_completed(block(0, 16384, 1)).unwrap();
    t.request_completed(block(16384, 16384, 3)).unwrap();
    let mut data = vec![1u8; 16384];
    data.extend(vec![2u8; 16384]);
    let meta = metainfo_with(0, sha1_bytes(&data));
    assert!(t.validate_piece(&meta).unwrap().is_none());
}

#[test]
fn blocks_hashed_out_of_order_do_not_validate() {
    let mut t = PieceTracker::new(0, 32768);
    t.next_requests();
    t.request_completed(block(16384, 16384, 2)).unwrap();
    t.request_completed(block(0, 16384, 1)).unwrap();
    let mut arrival_order = vec![2u8; 16384];
    arrival_order.extend(vec![1u8; 16384]);
    let meta = metainfo_with(0, sha1_bytes(&arrival_order));
    assert!(t.validate_piece(&meta).unwrap().is_none());
}

#[test]
fn sort_by_offset_orders_blocks() {
    let blocks = vec![block(32768, 4, 3), block(0, 4, 1), block(16384, 4, 2)];
    let sorted = sort_by_offset(blocks);
    let offs: Vec<u32> = sorted.iter().map(|b| b.offset).collect();
    assert_eq!(offs, vec![0, 16384, 32768]);
    assert_eq!(&sorted[2].bytes[..], &[3u8; 4][..]);
}

#[test]
fn concat_payloads_joins_in_sequence_order() {
    let blocks = vec![
        CompletedBlockRequest::new(0, 2, BytesMut::from(&b"ab"[..])),
        CompletedBlockRequest::new(2, 3, BytesMut::from(&b"cde"[..])),
    ];
    assert_eq!(concat_payloads(&blocks), b"abcde".to_vec());
    assert!(concat_payloads(&Vec::new()).is_empty());
}

#[test]
fn validated_if_match_compares_digests() {
    let d = sha1_bytes(b"abc");
    assert_eq!(
        d,
        vec![
            0xa9, 0x99, 0x3e, 0x36, 0x47, 0x06, 0x81, 0x6a, 0xba, 0x3e, 0x25, 0x71, 0x78, 0x50,
            0xc2, 0x6c, 0x9c, 0xd0, 0xd8, 0x9d
        ]
    );
    let ok = validated_if_match(4, vec![block(0, 1, 0)], &d, &d).expect("equal digests");
    assert_eq!(ok.pid, 4);
    assert_eq!(ok.blocks.len(), 1);
    let mut other = d.clone();
    other[19] ^= 1;
    assert!(validated_if_match(4, Vec::new(), &d, &other).is_none());
    assert!(validated_if_match(4, Vec::new(), &d, &d[..19]).is_none());
}

#[test]
fn validation_hashes_the_payload_not_an_empty_input() {
    let mut t = PieceTracker::new(0, 3);
    t.next_requests();
    t.request_completed(CompletedBlockRequest::new(0, 3, BytesMut::from(&b"abc"[..])))
        .unwrap();
    let meta = metainfo_with(0, sha1_bytes(b"abc"));
    let v = t.validate_piece(&meta).unwrap().expect("digest of abc");
    assert_eq!(&v.blocks[0].bytes[..], b"abc");
}

use leech::error::{ApplicationError, Fault};
use leech::manager::{Outcome, PieceManager, Progress};
use leech::piece::{BlockRef, BlockState, PieceStatus};
use leech::torrent::{Info, Torrent};
use sha1::{Digest, Sha1};
use std::collections::HashSet;

fn content(total: usize) -> Vec<u8> {
    (0..total).map(|i| (i * 7 % 253) as u8).collect()
}

fn torrent_of(data: &[u8], piece_length: usize) -> Torrent {
    let mut pieces = Vec::new();
    for chunk in data.chunks(piece_length) {
        let digest: [u8; 20] = Sha1::digest(chunk).into();
        pieces.extend_from_slice(&digest);
    }
    Torrent {
        announce: String::from("http://tracker.example.com/announce"),
        info: Info {
            name: String::from("file.bin"),
            piece_length: piece_length as i64,
            pieces,
            length: Some(data.len() as i64),
            files: None,
        },
        info_raw_bytes: Vec::new(),
    }
}

fn manager(total: usize, piece_length: usize, block_size: usize) -> (PieceManager, Vec<u8>) {
    let data = content(total);
    let torrent = torrent_of(&data, piece_length);
    assert!(torrent.check());
    (PieceManager::new(&torrent, block_size), data)
}

fn set(items: &[usize]) -> HashSet<usize> {
    items.iter().copied().collect()
}

fn block(piece: usize, offset: usize, length: usize) -> BlockRef {
    BlockRef { piece, offset, length }
}

fn states(m: &PieceManager, piece: usize) -> Vec<BlockState> {
    m.pieces[piece].blocks.iter().map(|b| b.state).collect()
}

fn total(p: &Progress) -> usize {
    p.not_requested + p.requested + p.downloaded + p.verified
}

#[test]
fn pieces_are_cut_into_blocks() {
    let (m, data) = manager(2 * 32768 + 100, 32768, 16384);
    assert_eq!(m.len, 32768);
    assert_eq!(m.last_len, 100);
    assert_eq!(m.block_size, 16384);
    assert_eq!(m.completed, 0);
    assert_eq!(m.pieces.len(), 3);
    for (i, p) in m.pieces.iter().enumerate() {
        assert_eq!(p.index, i);
        assert_eq!(p.status, PieceStatus::Incomplete);
        assert!(p.data.is_empty());
        let start = i * 32768;
        let end = (start + 32768).min(data.len());
        let digest: [u8; 20] = Sha1::digest(&data[start..end]).into();
        assert_eq!(p.hash, digest);
    }
    let cells: Vec<Vec<(usize, usize)>> = m
        .pieces
        .iter()
        .map(|p| p.blocks.iter().map(|b| (b.offset, b.length)).collect())
        .collect();
    assert_eq!(
        cells,
        vec![
            vec![(0, 16384), (16384, 16384)],
            vec![(0, 16384), (16384, 16384)],
            vec![(0, 100)],
        ]
    );
    for p in &m.pieces {
        for b in &p.blocks {
            assert_eq!(b.piece, p.index);
            assert_eq!(b.state, BlockState::NotRequested);
            assert_eq!(b.owner, None);
        }
    }
}

#[test]
fn a_short_last_block_ends_the_piece() {
    let (m, _) = manager(50000, 40000, 16384);
    let cells: Vec<Vec<(usize, usize)>> = m
        .pieces
        .iter()
        .map(|p| p.blocks.iter().map(|b| (b.offset, b.length)).collect())
        .collect();
    assert_eq!(
        cells,
        vec![vec![(0, 16384), (16384, 16384), (32768, 7232)], vec![(0, 10000)]]
    );
    let (one, _) = manager(10, 10, 3);
    let lengths: Vec<usize> = one.pieces[0].blocks.iter().map(|b| b.length).collect();
    assert_eq!(lengths, vec![3, 3, 3, 1]);
    let (even, _) = manager(65536, 32768, 32768);
    assert_eq!(even.last_len, 32768);
    assert_eq!(even.pieces[1].blocks.len(), 1);
    let (none, _) = manager(0, 16384, 16384);
    assert_eq!(none.pieces.len(), 0);
    assert!(none.is_done());
}

#[test]
fn needed_blocks_are_listed_by_piece_and_offset() {
    let (mut m, _) = manager(2 * 32768 + 100, 32768, 16384);
    assert_eq!(
        m.needed_blocks(),
        vec![(0, 0), (0, 16384), (1, 0), (1, 16384), (2, 0)]
    );
    m.mark_block_requested(0, 16384);
    m.mark_block_requested(1, 0);
    m.mark_block_downloaded(1, 0);
    assert_eq!(m.needed_blocks(), vec![(0, 0), (1, 16384), (2, 0)]);
}

#[test]
fn marking_a_block_requested() {
    let (mut m, _) = manager(2 * 32768 + 100, 32768, 16384);
    m.mark_block_requested(1, 16384);
    assert_eq!(states(&m, 1), vec![BlockState::NotRequested, BlockState::Requested]);
    assert_eq!(m.pieces[1].blocks[1].owner, None);
    m.mark_block_downloaded(1, 16384);
    m.mark_block_requested(1, 16384);
    assert_eq!(states(&m, 1), vec![BlockState::NotRequested, BlockState::Downloaded]);
    let before = m.pieces.clone();
    m.mark_block_requested(1, 5);
    m.mark_block_requested(7, 0);
    assert_eq!(m.pieces, before);
}

#[test]
fn a_block_that_nobody_was_asked_for_is_not_marked_downloaded() {
    let (mut m, _) = manager(2 * 32768 + 100, 32768, 16384);
    let before = m.pieces.clone();
    m.mark_block_downloaded(0, 0);
    m.mark_block_downloaded(2, 0);
    m.mark_block_downloaded(0, 999);
    m.mark_block_downloaded(9, 0);
    assert_eq!(m.pieces, before);
    assert_eq!(states(&m, 0), vec![BlockState::NotRequested, BlockState::NotRequested]);
    assert_eq!(
        m.needed_blocks(),
        vec![(0, 0), (0, 16384), (1, 0), (1, 16384), (2, 0)]
    );
    assert!(!m.is_piece_complete(3));
    assert_eq!(m.piece_status(3), None);
}

#[test]
fn a_requested_block_is_marked_downloaded() {
    let (mut m, _) = manager(2 * 32768 + 100, 32768, 16384);
    m.reserve_batch(1, &set(&[0]), 4);
    m.mark_block_downloaded(0, 0);
    assert_eq!(states(&m, 0), vec![BlockState::Downloaded, BlockState::NotRequested]);
    assert_eq!(m.pieces[0].blocks[0].owner, None);
    assert_eq!(m.pieces[0].sources, vec![4]);
    assert_eq!(m.piece_status(0), Some(PieceStatus::Incomplete));
    assert!(!m.is_piece_complete(0));
    let after = m.pieces.clone();
    m.mark_block_downloaded(0, 0);
    assert_eq!(m.pieces, after);
    assert_eq!(m.needed_blocks(), vec![(0, 16384), (1, 0), (1, 16384), (2, 0)]);
}

#[test]
fn marking_the_last_block_of_a_piece_that_misses_its_hash_frees_the_piece() {
    let (mut m, data) = manager(32768, 32768, 16384);
    m.reserve_batch(2, &set(&[0]), 1);
    assert_eq!(m.deliver(0, 0, &data[0..16384]), Ok(Outcome::BlockStored));
    assert_eq!(states(&m, 0), vec![BlockState::Downloaded, BlockState::Requested]);
    m.mark_block_downloaded(0, 16384);
    assert_eq!(m.piece_status(0), Some(PieceStatus::Failed));
    assert_eq!(states(&m, 0), vec![BlockState::NotRequested, BlockState::NotRequested]);
    assert!(!m.is_piece_complete(0));
    assert_eq!(m.needed_blocks(), vec![(0, 0), (0, 16384)]);
    assert_eq!(m.completed, 0);
    assert!(!m.is_done());
    assert_eq!(m.pieces[0].suspects, vec![1]);
}

#[test]
fn marking_leaves_the_other_pieces_as_they_are() {
    let (mut m, _) = manager(2 * 32768 + 100, 32768, 16384);
    m.reserve_batch(5, &set(&[0, 1, 2]), 3);
    let others = (m.pieces[0].clone(), m.pieces[1].clone());
    m.mark_block_downloaded(2, 0);
    assert_eq!(m.piece_status(2), Some(PieceStatus::Failed));
    assert_eq!(states(&m, 2), vec![BlockState::NotRequested]);
    assert_eq!((m.pieces[0].clone(), m.pieces[1].clone()), others);
    assert_eq!(m.needed_blocks(), vec![(2, 0)]);
}

#[test]
fn marking_the_last_block_of_a_piece_that_hashes_to_its_target_completes_it() {
    let (mut m, data) = manager(32768, 32768, 16384);
    m.reserve_batch(2, &set(&[0]), 1);
    m.deliver(0, 0, &data[0..16384]).unwrap();
    assert_eq!(m.deliver(0, 16384, &vec![7u8; 16384]), Ok(Outcome::PieceFailed));
    m.reserve_batch(2, &set(&[0]), 2);
    assert_eq!(m.deliver(0, 16384, &data[16384..32768]), Ok(Outcome::BlockStored));
    assert_eq!(m.piece_data(0), Some(&data));
    m.mark_block_downloaded(0, 0);
    assert_eq!(m.piece_status(0), Some(PieceStatus::Complete));
    assert!(m.is_piece_complete(0));
    assert_eq!(states(&m, 0), vec![BlockState::Verified, BlockState::Verified]);
    assert_eq!(m.completed, 1);
    assert!(m.is_done());
    m.mark_block_downloaded(0, 0);
    assert_eq!(states(&m, 0), vec![BlockState::Verified, BlockState::Verified]);
}

#[test]
fn a_batch_is_reserved_in_order() {
    let (mut m, _) = manager(2 * 32768 + 100, 32768, 16384);
    let batch = m.reserve_batch(3, &set(&[0, 2]), 42);
    assert_eq!(batch, vec![block(0, 0, 16384), block(0, 16384, 16384), block(2, 0, 100)]);
    assert_eq!(states(&m, 0), vec![BlockState::Requested, BlockState::Requested]);
    assert_eq!(states(&m, 1), vec![BlockState::NotRequested, BlockState::NotRequested]);
    assert_eq!(states(&m, 2), vec![BlockState::Requested]);
    assert_eq!(m.pieces[0].blocks[0].owner, Some(42));
    assert_eq!(m.pieces[2].blocks[0].owner, Some(42));
    assert_eq!(m.pieces[1].blocks[0].owner, None);
    assert_eq!(m.reserve_batch(5, &set(&[0, 2]), 43), vec![]);
    assert_eq!(m.reserve_batch(1, &set(&[0, 1, 2]), 43), vec![block(1, 0, 16384)]);
    assert_eq!(m.pieces[1].blocks[0].owner, Some(43));
    assert_eq!(m.reserve_batch(0, &set(&[1]), 44), vec![]);
    assert_eq!(m.reserve_batch(9, &set(&[1, 17]), 44), vec![block(1, 16384, 16384)]);
    assert_eq!(m.reserve_batch(9, &set(&[0, 1, 2]), 45), vec![]);
}

#[test]
fn a_batch_stops_at_its_limit_within_a_piece() {
    let (mut m, _) = manager(10, 10, 3);
    assert_eq!(m.reserve_batch(2, &set(&[0]), 1), vec![block(0, 0, 3), block(0, 3, 3)]);
    assert_eq!(m.reserve_batch(1, &set(&[0]), 2), vec![block(0, 6, 3)]);
    assert_eq!(m.reserve_batch(5, &set(&[0]), 3), vec![block(0, 9, 1)]);
    let owners: Vec<Option<usize>> = m.pieces[0].blocks.iter().map(|b| b.owner).collect();
    assert_eq!(owners, vec![Some(1), Some(1), Some(2), Some(3)]);
}

#[test]
fn reserving_and_abandoning_leaves_the_state_as_it_was() {
    let (mut m, _) = manager(2 * 32768 + 100, 32768, 16384);
    m.reserve_batch(1, &set(&[1]), 7);
    m.mark_block_requested(0, 0);
    let before = m.pieces.clone();
    let completed = m.completed;
    let batch = m.reserve_batch(4, &set(&[0, 1, 2]), 8);
    assert_eq!(batch.len(), 3);
    assert_ne!(m.pieces, before);
    m.abandon(8);
    assert_eq!(m.pieces, before);
    assert_eq!(m.completed, completed);
    m.abandon(99);
    assert_eq!(m.pieces, before);
    m.abandon(7);
    assert_eq!(states(&m, 1), vec![BlockState::NotRequested, BlockState::NotRequested]);
}

#[test]
fn every_block_is_counted_in_one_state() {
    let (mut m, data) = manager(2 * 32768 + 100, 32768, 16384);
    let start = m.progress_snapshot();
    assert_eq!(
        start,
        Progress {
            not_requested: 5,
            requested: 0,
            downloaded: 0,
            verified: 0,
            pieces_complete: 0,
            pieces_total: 3,
        }
    );
    m.reserve_batch(3, &set(&[0, 1]), 1);
    let at_first = m.progress_snapshot();
    assert_eq!((at_first.not_requested, at_first.requested, at_first.downloaded, at_first.verified), (2, 3, 0, 0));
    assert_eq!(total(&at_first), 5);
    m.deliver(0, 0, &data[0..16384]).unwrap();
    let after_one = m.progress_snapshot();
    assert_eq!((after_one.not_requested, after_one.requested, after_one.downloaded, after_one.verified), (2, 2, 1, 0));
    m.deliver(0, 16384, &data[16384..32768]).unwrap();
    let after_two = m.progress_snapshot();
    assert_eq!((after_two.not_requested, after_two.requested, after_two.downloaded, after_two.verified), (2, 1, 0, 2));
    assert_eq!(after_two.pieces_complete, 1);
    assert_eq!(total(&after_two), 5);
    m.abandon(1);
    let at_last = m.progress_snapshot();
    assert_eq!((at_last.not_requested, at_last.requested, at_last.downloaded, at_last.verified), (3, 0, 0, 2));
    assert_eq!(total(&at_last), 5);
}

#[test]
fn a_piece_whose_blocks_hash_to_the_target_is_complete() {
    let (mut m, data) = manager(32768, 32768, 16384);
    assert_eq!(m.pieces.len(), 1);
    assert_eq!(m.pieces[0].blocks.len(), 2);
    m.reserve_batch(2, &set(&[0]), 1);
    assert_eq!(m.deliver(0, 0, &data[0..16384]), Ok(Outcome::BlockStored));
    assert_eq!(m.piece_status(0), Some(PieceStatus::Incomplete));
    assert_eq!(m.completed, 0);
    assert!(!m.is_done());
    assert_eq!(m.deliver(0, 16384, &data[16384..32768]), Ok(Outcome::PieceComplete));
    assert_eq!(m.piece_status(0), Some(PieceStatus::Complete));
    assert!(m.is_piece_complete(0));
    assert_eq!(m.completed, 1);
    assert!(m.is_done());
    assert_eq!(states(&m, 0), vec![BlockState::Verified, BlockState::Verified]);
    assert_eq!(m.piece_data(0), Some(&data));
    assert_eq!(m.piece_data(1), None);
}

#[test]
fn a_piece_with_a_flipped_bit_fails_and_is_free_again() {
    let (mut m, data) = manager(32768, 32768, 16384);
    m.reserve_batch(2, &set(&[0]), 1);
    assert_eq!(m.deliver(0, 0, &data[0..16384]), Ok(Outcome::BlockStored));
    let mut second = data[16384..32768].to_vec();
    second[100] ^= 0x01;
    assert_eq!(m.deliver(0, 16384, &second), Ok(Outcome::PieceFailed));
    assert_eq!(m.piece_status(0), Some(PieceStatus::Failed));
    assert_eq!(states(&m, 0), vec![BlockState::NotRequested, BlockState::NotRequested]);
    assert_eq!(m.pieces[0].blocks[0].owner, None);
    assert_eq!(m.pieces[0].blocks[1].owner, None);
    assert_eq!(m.completed, 0);
    assert!(!m.is_done());
    assert!(!m.is_piece_complete(0));
    assert_eq!(m.needed_blocks(), vec![(0, 0), (0, 16384)]);
}

#[test]
fn a_failed_piece_is_downloaded_again() {
    let (mut m, data) = manager(32768, 32768, 16384);
    m.reserve_batch(2, &set(&[0]), 1);
    m.deliver(0, 16384, &data[16384..32768]).unwrap();
    assert_eq!(m.deliver(0, 0, &vec![0u8; 16384]), Ok(Outcome::PieceFailed));
    let batch = m.reserve_batch(2, &set(&[0]), 2);
    assert_eq!(batch.len(), 2);
    assert_eq!(m.piece_status(0), Some(PieceStatus::Failed));
    assert_eq!(m.deliver(0, 0, &data[0..16384]), Ok(Outcome::BlockStored));
    assert_eq!(m.piece_status(0), Some(PieceStatus::Incomplete));
    assert_eq!(m.deliver(0, 16384, &data[16384..32768]), Ok(Outcome::PieceComplete));
    assert!(m.is_done());
}

#[test]
fn blocks_may_arrive_in_any_order() {
    let (mut m, data) = manager(2 * 32768 + 100, 32768, 16384);
    let all = set(&[0, 1, 2]);
    let batch = m.reserve_batch(10, &all, 5);
    assert_eq!(batch.len(), 5);
    let mut outcomes = Vec::new();
    for b in batch.iter().rev() {
        let start = b.piece * 32768 + b.offset;
        outcomes.push(m.deliver(b.piece, b.offset, &data[start..start + b.length]).unwrap());
    }
    assert_eq!(
        outcomes,
        vec![
            Outcome::PieceComplete,
            Outcome::BlockStored,
            Outcome::PieceComplete,
            Outcome::BlockStored,
            Outcome::PieceComplete,
        ]
    );
    assert!(m.is_done());
    assert_eq!(m.completed, 3);
    let p = m.progress_snapshot();
    assert_eq!((p.not_requested, p.requested, p.downloaded, p.verified), (0, 0, 0, 5));
    assert_eq!(p.pieces_complete, 3);
    let mut joined = Vec::new();
    for i in 0..3 {
        joined.extend_from_slice(m.piece_data(i).unwrap());
    }
    assert_eq!(joined, data);
}

#[test]
fn blocks_that_were_not_asked_for_are_refused() {
    let (mut m, data) = manager(2 * 32768 + 100, 32768, 16384);
    let before = m.pieces.clone();
    assert_eq!(
        m.deliver(0, 0, &data[0..16384]),
        Err(ApplicationError::ProtocolError(Fault::UnexpectedPiece))
    );
    assert_eq!(m.pieces, before);
    m.reserve_batch(1, &set(&[0]), 1);
    m.deliver(0, 0, &data[0..16384]).unwrap();
    let after = m.pieces.clone();
    assert_eq!(
        m.deliver(0, 0, &data[0..16384]),
        Err(ApplicationError::ProtocolError(Fault::UnexpectedPiece))
    );
    assert_eq!(m.pieces, after);
}

#[test]
fn blocks_off_the_grid_are_out_of_bounds() {
    let (mut m, data) = manager(2 * 32768 + 100, 32768, 16384);
    m.reserve_batch(5, &set(&[0, 1, 2]), 1);
    let before = m.pieces.clone();
    let out = Err(ApplicationError::ProtocolError(Fault::BlockOutOfBounds));
    assert_eq!(m.deliver(3, 0, &data[0..16384]), out);
    assert_eq!(m.deliver(0, 1, &data[0..16384]), out);
    assert_eq!(m.deliver(0, 32768, &data[0..16384]), out);
    assert_eq!(m.deliver(0, 0, &data[0..16383]), out);
    assert_eq!(m.deliver(0, 0, &data[0..16385]), out);
    assert_eq!(m.deliver(2, 0, &data[0..16384]), out);
    assert_eq!(m.deliver(0, 0, &[]), out);
    assert_eq!(
        m.store(2, 0, &data[0..99]),
        Err(ApplicationError::ProtocolError(Fault::BlockOutOfBounds))
    );
    assert_eq!(m.pieces, before);
    assert_eq!(m.deliver(2, 0, &data[65536..65636]), Ok(Outcome::PieceComplete));
}

#[test]
fn storing_and_settling_in_two_steps() {
    let (mut m, data) = manager(32768, 32768, 16384);
    m.reserve_batch(2, &set(&[0]), 1);
    assert_eq!(m.conclude(0, &[0u8; 20]), None);
    assert_eq!(m.store(0, 0, &data[0..16384]), Ok(false));
    assert_eq!(m.conclude(0, &[0u8; 20]), None);
    assert_eq!(m.store(0, 16384, &data[16384..32768]), Ok(true));
    assert_eq!(m.piece_status(0), Some(PieceStatus::AwaitingVerify));
    assert_eq!(m.reserve_batch(2, &set(&[0]), 2), vec![]);
    assert_eq!(m.conclude(5, &[0u8; 20]), None);
    let digest: [u8; 20] = Sha1::digest(m.piece_data(0).unwrap()).into();
    assert_eq!(m.conclude(0, &digest), Some(true));
    assert_eq!(m.piece_status(0), Some(PieceStatus::Complete));
    assert_eq!(m.conclude(0, &digest), None);
    assert_eq!(m.completed, 1);
}

#[test]
fn settling_with_another_digest_fails_the_piece() {
    let (mut m, data) = manager(32768, 32768, 16384);
    m.reserve_batch(2, &set(&[0]), 1);
    m.store(0, 0, &data[0..16384]).unwrap();
    m.store(0, 16384, &data[16384..32768]).unwrap();
    let mut digest = m.pieces[0].hash;
    digest[19] ^= 0x80;
    assert_eq!(m.conclude(0, &digest), Some(false));
    assert_eq!(m.piece_status(0), Some(PieceStatus::Failed));
    assert_eq!(states(&m, 0), vec![BlockState::NotRequested, BlockState::NotRequested]);
    assert_eq!(m.completed, 0);
}

#[test]
fn coordinates_fit_the_wire() {
    let (m, _) = manager(2 * 32768 + 100, 32768, 16384);
    assert!(m.fits_wire());
}

#[test]
fn a_piece_that_fails_with_several_sessions_makes_the_swarm_corrupt() {
    let (mut m, data) = manager(2 * 32768, 32768, 16384);
    assert_eq!(m.check_swarm(1), Ok(()));
    assert_eq!(
        m.check_swarm(0),
        Err(ApplicationError::WorkerError(Fault::SwarmCorrupt))
    );
    for round in 1..=3 {
        assert_eq!(m.reserve_batch(2, &set(&[1]), round).len(), 2);
        m.deliver(1, 0, &data[32768..49152]).unwrap();
        assert_eq!(m.pieces[1].sources, vec![round]);
        assert_eq!(m.deliver(1, 16384, &vec![0xEE; 16384]), Ok(Outcome::PieceFailed));
        assert_eq!(m.pieces[1].suspects, (1..=round).collect::<Vec<usize>>());
        assert_eq!(m.pieces[1].sources, Vec::<usize>::new());
        assert_eq!(m.pieces[0].suspects, Vec::<usize>::new());
    }
    assert_eq!(m.check_swarm(4), Ok(()));
    assert_eq!(
        m.check_swarm(3),
        Err(ApplicationError::WorkerError(Fault::SwarmCorrupt))
    );
    assert_eq!(
        m.check_swarm(1),
        Err(ApplicationError::WorkerError(Fault::SwarmCorrupt))
    );
}

#[test]
fn a_piece_that_fails_with_one_session_again_and_again_is_one_suspect() {
    let (mut m, data) = manager(32768, 32768, 16384);
    for _ in 0..4 {
        assert_eq!(m.reserve_batch(2, &set(&[0]), 9).len(), 2);
        m.deliver(0, 0, &data[0..16384]).unwrap();
        assert_eq!(m.deliver(0, 16384, &vec![1u8; 16384]), Ok(Outcome::PieceFailed));
    }
    assert_eq!(m.pieces[0].suspects, vec![9]);
    assert_eq!(m.check_swarm(2), Ok(()));
    assert_eq!(m.reserve_batch(1, &set(&[0]), 9).len(), 1);
    assert_eq!(m.reserve_batch(1, &set(&[0]), 10).len(), 1);
    m.deliver(0, 0, &data[0..16384]).unwrap();
    assert_eq!(m.deliver(0, 16384, &vec![1u8; 16384]), Ok(Outcome::PieceFailed));
    assert_eq!(m.pieces[0].suspects, vec![9, 10]);
    assert_eq!(
        m.check_swarm(2),
        Err(ApplicationError::WorkerError(Fault::SwarmCorrupt))
    );
    assert_eq!(m.reserve_batch(2, &set(&[0]), 11).len(), 2);
    m.deliver(0, 0, &data[0..16384]).unwrap();
    assert_eq!(m.deliver(0, 16384, &data[16384..32768]), Ok(Outcome::PieceComplete));
    assert_eq!(m.pieces[0].sources, Vec::<usize>::new());
    assert_eq!(m.pieces[0].suspects, vec![9, 10]);
}

fn to_come(m: &PieceManager) -> usize {
    let p = m.progress_snapshot();
    p.not_requested + p.requested
}

fn first_requested(m: &PieceManager) -> Option<(usize, usize, usize)> {
    for piece in m.pieces.iter() {
        for b in piece.blocks.iter() {
            if b.state == BlockState::Requested {
                return Some((b.piece, b.offset, b.length));
            }
        }
    }
    None
}

fn answer(m: &mut PieceManager, data: &[u8], at: (usize, usize, usize)) -> Outcome {
    let start = at.0 * m.len + at.1;
    m.deliver(at.0, at.1, &data[start..start + at.2]).unwrap()
}

#[test]
fn true_answers_count_the_blocks_down_whatever_else_happens() {
    let (mut m, data) = manager(3 * 32768 + 5000, 32768, 16384);
    let all = set(&[0, 1, 2, 3]);
    assert_eq!(to_come(&m), 7);
    let mut left = 7;
    let mut round = 0;
    while left > 0 {
        let owner = round % 2;
        m.reserve_batch(2, &all, owner);
        assert_eq!(to_come(&m), left);
        if round % 3 == 1 {
            m.abandon(owner);
            assert_eq!(to_come(&m), left);
        }
        if let Some(at) = first_requested(&m) {
            assert_ne!(answer(&mut m, &data, at), Outcome::PieceFailed);
            left -= 1;
            assert_eq!(to_come(&m), left);
        }
        assert!(m.pieces.iter().all(|p| p.status != PieceStatus::Failed));
        assert!(m.pieces.iter().all(|p| p.status != PieceStatus::AwaitingVerify));
        round += 1;
        assert!(round < 100);
    }
    assert!(m.pieces.iter().all(|p| p.status == PieceStatus::Complete));
    assert_eq!(m.progress_snapshot().verified, 7);
    assert_eq!(m.completed, 4);
}

#[test]
fn two_moves_for_each_block_finish_the_download() {
    let (mut m, data) = manager(2 * 32768 + 100, 32768, 16384);
    let all = set(&[0, 1, 2]);
    m.reserve_batch(3, &all, 4);
    m.abandon(4);
    m.reserve_batch(2, &all, 5);
    answer(&mut m, &data, (0, 0, 16384));
    let blocks = to_come(&m);
    assert_eq!(blocks, 4);
    let mut moves = 0;
    while to_come(&m) > 0 {
        match first_requested(&m) {
            Some(at) => {
                assert_ne!(answer(&mut m, &data, at), Outcome::PieceFailed);
            }
            None => {
                assert_eq!(m.reserve_batch(1, &all, 0).len(), 1);
            }
        }
        moves += 1;
        assert!(moves <= 2 * blocks);
    }
    assert_eq!(moves, 7);
    assert!(m.pieces.iter().all(|p| p.status == PieceStatus::Complete));
    let p = m.progress_snapshot();
    assert_eq!((p.not_requested, p.requested, p.downloaded, p.verified), (0, 0, 0, 5));
}

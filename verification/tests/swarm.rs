use leech::coordinator::{Coordinator, Step};
use leech::error::{ApplicationError, Fault};
use leech::manager::PieceManager;
use leech::peer::{IpAddress, Peer, PeerConnection, SessionState};
use leech::piece::BlockState;
use leech::protocol::{Handshake, Message};
use leech::torrent::{Info, Torrent};
use sha1::{Digest, Sha1};

const HASH: [u8; 20] = [0x5A; 20];

fn peer(n: u8) -> Peer {
    Peer { ip: IpAddress::V4([10, 0, 0, n]), port: 6881 }
}

fn content(total: usize) -> Vec<u8> {
    (0..total).map(|i| (i * 31 % 241) as u8).collect()
}

fn manager(data: &[u8], piece_length: usize, block_size: usize) -> PieceManager {
    let mut pieces = Vec::new();
    for chunk in data.chunks(piece_length) {
        let digest: [u8; 20] = Sha1::digest(chunk).into();
        pieces.extend_from_slice(&digest);
    }
    let torrent = Torrent {
        announce: String::from("http://tracker.example.com/announce"),
        info: Info {
            name: String::from("file.bin"),
            piece_length: piece_length as i64,
            pieces,
            length: Some(data.len() as i64),
            files: None,
        },
        info_raw_bytes: Vec::new(),
    };
    assert!(torrent.check());
    PieceManager::new(&torrent, block_size)
}

struct Remote {
    bitfield: Vec<u8>,
    data: Vec<u8>,
    piece_length: usize,
}

impl Remote {
    fn answer(&self, request: &Message) -> Message {
        match request {
            Message::Request { index, begin, length } => {
                let start = *index as usize * self.piece_length + *begin as usize;
                Message::Piece {
                    index: *index,
                    begin: *begin,
                    block: self.data[start..start + *length as usize].to_vec(),
                }
            }
            other => panic!("no request: {:?}", other),
        }
    }
}

struct Live {
    session: PeerConnection,
    queue: Vec<Message>,
}

fn download(schedule: &[usize], burst: usize, permits: usize, window: usize) -> PieceManager {
    let data = content(80);
    let mut m = manager(&data, 32, 16);
    assert_eq!(m.pieces.len(), 3);
    let roster = vec![peer(1), peer(2)];
    let remotes = vec![
        Remote { bitfield: vec![0xA0], data: data.clone(), piece_length: 32 },
        Remote { bitfield: vec![0x40], data: data.clone(), piece_length: 32 },
    ];
    let mut coordinator = Coordinator::new(&roster, permits);
    let mut live: Vec<Option<Live>> = vec![None, None];
    let mut now: u64 = 0;
    let mut turn = 0;
    for _ in 0..10_000 {
        now += 1;
        match coordinator.next_step(m.is_done(), now) {
            Step::Spawn(i) => {
                let mut session = PeerConnection::new(roster[i], i, HASH, 3, window, now);
                let shake = Handshake::new(HASH, [i as u8; 20]).encode();
                session.accept_handshake(&shake, now).unwrap();
                session.send_interested(now);
                session
                    .receive(&mut m, Message::Bitfield(remotes[i].bitfield.clone()), now)
                    .unwrap();
                session.receive(&mut m, Message::Unchoke, now).unwrap();
                assert_eq!(session.state, SessionState::Active);
                live[i] = Some(Live { session, queue: Vec::new() });
                continue;
            }
            Step::Cancel => {
                for i in 0..live.len() {
                    if let Some(mut l) = live[i].take() {
                        l.session.cancel(&mut m, now);
                        l.session.terminate(&mut m);
                        coordinator.session_ended(i, None, now, 5);
                    }
                }
                continue;
            }
            Step::Finish => {
                assert!(live.iter().all(|l| l.is_none()));
                assert_eq!(coordinator.live, 0);
                return m;
            }
            Step::Reannounce => {
                coordinator.reannounced(&roster);
                continue;
            }
            Step::Exhausted => panic!("the swarm holds every piece"),
            Step::Wait => {}
        }
        let i = schedule[turn % schedule.len()];
        turn += 1;
        let ended = match live[i].as_mut() {
            None => None,
            Some(l) => {
                let mut end = None;
                match l.session.next_requests(&mut m, now) {
                    Ok(requests) => {
                        for r in &requests {
                            l.queue.push(remotes[i].answer(r));
                        }
                    }
                    Err(e) => end = Some(e),
                }
                let mut sent = 0;
                while end.is_none() && sent < burst && !l.queue.is_empty() {
                    let piece = l.queue.remove(l.queue.len() - 1);
                    if let Err(e) = l.session.receive(&mut m, piece, now) {
                        end = Some(e);
                    }
                    sent += 1;
                }
                end
            }
        };
        if let Some(e) = ended {
            assert_eq!(e, ApplicationError::PeerError(Fault::NoMutualWork));
            live[i] = None;
            coordinator.session_ended(i, Some(e), now, 5);
        }
    }
    panic!("the download did not end");
}

fn assert_complete(m: &PieceManager) {
    assert!(m.is_done());
    assert_eq!(m.completed, 3);
    for p in &m.pieces {
        for b in &p.blocks {
            assert_eq!(b.state, BlockState::Verified);
            assert_eq!(b.owner, None);
        }
    }
    let progress = m.progress_snapshot();
    assert_eq!(progress.requested, 0);
    assert_eq!(progress.verified, 5);
    let mut joined = Vec::new();
    for i in 0..3 {
        joined.extend_from_slice(m.piece_data(i).unwrap());
    }
    assert_eq!(joined, content(80));
}

#[test]
fn two_peers_with_complementary_pieces_complete_the_download() {
    assert_complete(&download(&[0, 1], 1, 2, 5));
}

#[test]
fn the_download_completes_whatever_the_interleaving() {
    assert_complete(&download(&[1, 0], 1, 2, 5));
    assert_complete(&download(&[0, 0, 1], 1, 2, 5));
    assert_complete(&download(&[1, 1, 1, 0], 2, 2, 5));
    assert_complete(&download(&[0, 0, 0, 1], 5, 2, 1));
    assert_complete(&download(&[0, 1, 1, 0, 1], 3, 2, 2));
    assert_complete(&download(&[1, 1, 0], 1, 2, 3));
}

#[test]
fn the_download_completes_with_one_session_at_a_time() {
    assert_complete(&download(&[0, 1], 1, 1, 5));
    assert_complete(&download(&[1, 0], 4, 1, 2));
}

#[test]
fn peers_get_their_sessions_in_turn() {
    let roster = vec![peer(1), peer(2), peer(3)];
    let mut c = Coordinator::new(&roster, 2);
    assert_eq!(c.slots.len(), 3);
    assert_eq!(c.next_step(false, 0), Step::Spawn(0));
    assert_eq!(c.next_step(false, 0), Step::Spawn(1));
    assert_eq!(c.live, 2);
    assert_eq!(c.next_step(false, 0), Step::Wait);
    c.session_ended(0, None, 0, 0);
    assert_eq!(c.live, 1);
    assert_eq!(c.next_step(false, 0), Step::Spawn(2));
    c.session_ended(1, None, 0, 0);
    assert_eq!(c.next_step(false, 0), Step::Spawn(0));
    c.session_ended(2, None, 0, 0);
    assert_eq!(c.next_step(false, 0), Step::Spawn(1));
    assert_eq!(c.cursor, 2);
}

#[test]
fn a_peer_rests_after_its_session() {
    let roster = vec![peer(1)];
    let mut c = Coordinator::new(&roster, 4);
    assert_eq!(c.next_step(false, 10), Step::Spawn(0));
    c.session_ended(0, Some(ApplicationError::PeerError(Fault::NoMutualWork)), 12, 30);
    assert_eq!(c.slots[0].retry_at, 42);
    assert!(!c.slots[0].gone);
    assert_eq!(c.next_step(false, 13), Step::Wait);
    assert_eq!(c.next_step(false, 41), Step::Wait);
    assert_eq!(c.next_step(false, 42), Step::Spawn(0));
    c.session_ended(0, Some(ApplicationError::PeerError(Fault::Transport)), u64::MAX - 1, 30);
    assert_eq!(c.slots[0].retry_at, u64::MAX);
}

#[test]
fn a_peer_that_broke_the_protocol_is_struck() {
    let roster = vec![peer(1), peer(2), peer(3)];
    let mut c = Coordinator::new(&roster, 3);
    assert_eq!(c.next_step(false, 0), Step::Spawn(0));
    assert_eq!(c.next_step(false, 0), Step::Spawn(1));
    assert_eq!(c.next_step(false, 0), Step::Spawn(2));
    c.session_ended(0, Some(ApplicationError::ParserError(Fault::HandshakeMalformed)), 1, 0);
    c.session_ended(1, Some(ApplicationError::ProtocolError(Fault::ProtocolViolation)), 1, 0);
    c.session_ended(2, Some(ApplicationError::PeerError(Fault::PeerTimeout)), 1, 0);
    assert!(c.slots[0].gone);
    assert!(c.slots[1].gone);
    assert!(!c.slots[2].gone);
    assert_eq!(c.live, 0);
    assert_eq!(c.next_step(false, 2), Step::Spawn(2));
    c.session_ended(2, Some(ApplicationError::ProtocolError(Fault::UnexpectedPiece)), 3, 0);
    assert_eq!(c.next_step(false, 4), Step::Reannounce);
}

#[test]
fn reports_for_peers_without_a_session_change_nothing() {
    let roster = vec![peer(1), peer(2)];
    let mut c = Coordinator::new(&roster, 2);
    c.session_ended(0, None, 0, 0);
    c.session_ended(7, Some(ApplicationError::ParserError(Fault::HandshakeMalformed)), 0, 0);
    assert_eq!(c.live, 0);
    assert!(!c.slots[0].gone);
    assert_eq!(c.next_step(false, 0), Step::Spawn(0));
}

#[test]
fn a_finished_download_calls_the_sessions_off() {
    let roster = vec![peer(1), peer(2)];
    let mut c = Coordinator::new(&roster, 2);
    assert_eq!(c.next_step(false, 0), Step::Spawn(0));
    assert_eq!(c.next_step(false, 0), Step::Spawn(1));
    assert_eq!(c.next_step(true, 1), Step::Cancel);
    assert!(c.cancelling);
    assert_eq!(c.next_step(true, 1), Step::Wait);
    c.session_ended(1, None, 2, 0);
    assert_eq!(c.next_step(true, 2), Step::Wait);
    c.session_ended(0, None, 3, 0);
    assert_eq!(c.next_step(true, 3), Step::Finish);
    let mut idle = Coordinator::new(&roster, 2);
    assert_eq!(idle.next_step(true, 0), Step::Finish);
}

#[test]
fn an_empty_roster_is_announced_again_and_then_given_up() {
    let mut c = Coordinator::new(&vec![], 2);
    assert_eq!(c.next_step(false, 0), Step::Reannounce);
    assert_eq!(c.reannounced(&vec![]), 0);
    assert!(c.exhausted);
    assert_eq!(c.next_step(false, 1), Step::Exhausted);
    assert_eq!(c.reannounced(&vec![peer(1), peer(2), peer(1)]), 2);
    assert!(!c.exhausted);
    assert_eq!(c.slots.len(), 2);
    assert!(c.knows(&peer(1)));
    assert!(c.knows(&peer(2)));
    assert!(!c.knows(&peer(3)));
    assert!(!c.knows(&Peer { ip: IpAddress::V4([10, 0, 0, 1]), port: 6882 }));
    assert!(!c.knows(&Peer { ip: IpAddress::V6([0; 16]), port: 6881 }));
    assert_eq!(c.next_step(false, 2), Step::Spawn(0));
    assert_eq!(c.reannounced(&vec![peer(2), peer(1)]), 0);
    assert!(c.exhausted);
}

#[test]
fn without_permits_no_session_is_started() {
    let roster = vec![peer(1)];
    let mut c = Coordinator::new(&roster, 0);
    assert_eq!(c.next_step(false, 0), Step::Reannounce);
    assert_eq!(c.live, 0);
}

#[test]
fn the_last_step_tells_how_the_download_ended() {
    assert_eq!(Step::Finish.outcome(), Some(Ok(())));
    assert_eq!(
        Step::Exhausted.outcome(),
        Some(Err(ApplicationError::WorkerError(Fault::SwarmExhausted)))
    );
    assert_eq!(Step::Wait.outcome(), None);
    assert_eq!(Step::Spawn(3).outcome(), None);
    assert_eq!(Step::Cancel.outcome(), None);
    assert_eq!(Step::Reannounce.outcome(), None);
}

#[test]
fn a_peer_is_struck_at_its_second_timeout() {
    let roster = vec![peer(1), peer(2)];
    let mut c = Coordinator::new(&roster, 2);
    assert_eq!(c.next_step(false, 0), Step::Spawn(0));
    assert_eq!(c.next_step(false, 0), Step::Spawn(1));
    c.session_ended(0, Some(ApplicationError::PeerError(Fault::PeerTimeout)), 1, 0);
    c.session_ended(1, Some(ApplicationError::PeerError(Fault::Transport)), 1, 0);
    assert!(c.slots[0].timed_out);
    assert!(!c.slots[0].gone);
    assert!(!c.slots[1].timed_out);
    assert_eq!(c.next_step(false, 2), Step::Spawn(0));
    assert_eq!(c.next_step(false, 2), Step::Spawn(1));
    c.session_ended(0, Some(ApplicationError::PeerError(Fault::PeerStalled)), 3, 0);
    c.session_ended(1, Some(ApplicationError::PeerError(Fault::Transport)), 3, 0);
    assert!(c.slots[0].gone);
    assert!(!c.slots[1].gone);
    assert_eq!(c.next_step(false, 4), Step::Spawn(1));
    c.session_ended(1, Some(ApplicationError::PeerError(Fault::NoMutualWork)), 5, 0);
    assert!(!c.slots[1].gone);
    assert!(!c.slots[1].timed_out);
}

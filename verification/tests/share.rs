use network2::hypercube::{peer, role_for};
use network2::topology::{LinkTable, Window};
use network2::{Role, TransportError, Tree, TreeNetIO};

/// A link that plays back what the peer sends and keeps what it is handed.
struct Script {
    incoming: Vec<Vec<u8>>,
    outgoing: Vec<Vec<u8>>,
}

impl Script {
    fn new(incoming: Vec<Vec<u8>>) -> Self {
        Script { incoming, outgoing: Vec::new() }
    }
}

impl TreeNetIO for Script {
    fn share(&mut self, data: &[u8], buf: &mut [u8]) -> Result<(), TransportError> {
        self.outgoing.push(data.to_vec());
        if self.incoming.is_empty() {
            return Err(TransportError { cause: String::from("peer is gone") });
        }
        let segment = self.incoming.remove(0);
        if segment.len() != buf.len() {
            return Err(TransportError { cause: String::from("short read") });
        }
        buf.copy_from_slice(&segment);
        Ok(())
    }
}

fn log2(party_count: usize) -> u32 {
    party_count.trailing_zeros()
}

fn tree_of(party_id: u32, party_count: usize, links: Vec<Script>) -> Tree<Script> {
    let mut table = LinkTable::new(party_id, party_count);
    for (dim, link) in links.into_iter().enumerate() {
        let dim = dim as u32;
        match table.dial_target(dim) {
            Some(_) => table.install_connected(dim, link).unwrap(),
            None => table.install_accepted(peer(party_id, dim), link).unwrap(),
        }
    }
    table.finish().unwrap()
}

/// The block of party `p`: `c` bytes that tell the parties and the places
/// apart.
fn block(p: usize, c: usize) -> Vec<u8> {
    (0..c).map(|j| (p * 131 + j * 7 + 3) as u8).collect()
}

fn concatenation(blocks: &[Vec<u8>]) -> Vec<u8> {
    let mut all = Vec::new();
    for b in blocks {
        all.extend_from_slice(b);
    }
    all
}

/// A buffer for party `p` with its block in its slot and `filler`
/// everywhere else.
fn buffer_of(p: usize, n: usize, c: usize, own: &[u8], filler: u8) -> Vec<u8> {
    let mut data = vec![filler; n * c];
    data[p * c..(p + 1) * c].copy_from_slice(own);
    data
}

/// What the peer of `p` along `dim` holds before round `dim`, and so sends
/// in it: the blocks of the parties that agree with the peer from bit `dim`
/// upwards.
fn peer_window(blocks: &[Vec<u8>], p: usize, dim: u32) -> Vec<u8> {
    let q = p ^ (1 << dim);
    let base = (q >> dim) << dim;
    concatenation(&blocks[base..base + (1 << dim)])
}

/// Runs the all-gather of party `p` against links that deliver what its
/// peers send, and returns its buffer and what it handed to each link.
fn run_party(blocks: &[Vec<u8>], p: usize, c: usize, filler: u8) -> (Vec<u8>, Vec<Vec<u8>>) {
    let n = blocks.len();
    let links: Vec<Script> =
        (0..log2(n)).map(|d| Script::new(vec![peer_window(blocks, p, d)])).collect();
    let mut tree = tree_of(p as u32, n, links);
    let mut data = buffer_of(p, n, c, &blocks[p], filler);
    tree.share(&mut data, c).unwrap();
    let sent =
        tree.into_connections().into_iter().map(|mut l| l.outgoing.remove(0)).collect();
    (data, sent)
}

/// All parties at once, round by round, on the schedule alone: every round
/// copies what each party sends into the buffer of its peer.
fn run_rounds(blocks: &[Vec<u8>], c: usize) -> Vec<Vec<u8>> {
    let n = blocks.len();
    let mut buffers: Vec<Vec<u8>> =
        (0..n).map(|p| buffer_of(p, n, c, &blocks[p], 0xee)).collect();
    let mut windows: Vec<Window> = (0..n).map(|p| Window::new(p as u32, c)).collect();
    for d in 0..log2(n) {
        let plans: Vec<_> =
            (0..n).map(|p| windows[p].advance(role_for(p as u32, d))).collect();
        let sent: Vec<Vec<u8>> = (0..n)
            .map(|p| buffers[p][plans[p].send.start..plans[p].send.end].to_vec())
            .collect();
        for p in 0..n {
            let q = peer(p as u32, d) as usize;
            buffers[p][plans[p].recv.start..plans[p].recv.end].copy_from_slice(&sent[q]);
        }
    }
    buffers
}

#[test]
fn two_parties_four_bytes() {
    let first = vec![0x00, 0x01, 0x02, 0x03];
    let second = vec![0x10, 0x11, 0x12, 0x13];
    let expected = vec![0x00, 0x01, 0x02, 0x03, 0x10, 0x11, 0x12, 0x13];

    let mut tree = tree_of(0, 2, vec![Script::new(vec![second.clone()])]);
    let mut data = vec![0x00, 0x01, 0x02, 0x03, 0xaa, 0xaa, 0xaa, 0xaa];
    tree.share(&mut data, 4).unwrap();
    assert_eq!(data, expected);
    assert_eq!(tree.into_connections()[0].outgoing, vec![first.clone()]);

    let mut tree = tree_of(1, 2, vec![Script::new(vec![first])]);
    let mut data = vec![0xbb, 0xbb, 0xbb, 0xbb, 0x10, 0x11, 0x12, 0x13];
    tree.share(&mut data, 4).unwrap();
    assert_eq!(data, expected);
    assert_eq!(tree.into_connections()[0].outgoing, vec![second]);
}

#[test]
fn four_parties_two_bytes() {
    let blocks: Vec<Vec<u8>> = (0..4u8).map(|i| vec![2 * i, 2 * i + 1]).collect();
    for p in 0..4 {
        let (data, sent) = run_party(&blocks, p, 2, 0xcc);
        assert_eq!(data, vec![0, 1, 2, 3, 4, 5, 6, 7]);
        assert_eq!(sent.len(), 2);
        assert_eq!(sent[0].len(), 2);
        assert_eq!(sent[1].len(), 4);
    }
    let (_, sent) = run_party(&blocks, 2, 2, 0xcc);
    assert_eq!(sent, vec![vec![4, 5], vec![4, 5, 6, 7]]);
    let (_, sent) = run_party(&blocks, 1, 2, 0xcc);
    assert_eq!(sent, vec![vec![2, 3], vec![0, 1, 2, 3]]);
}

#[test]
fn four_parties_what_is_sent_is_what_is_received() {
    // Each party's script holds what its peers are expected to send. Here
    // the peers' own runs are asked what they did send.
    let blocks: Vec<Vec<u8>> = (0..4).map(|p| block(p, 5)).collect();
    let sent: Vec<Vec<Vec<u8>>> = (0..4).map(|p| run_party(&blocks, p, 5, 0x11).1).collect();
    for p in 0..4usize {
        for d in 0..2u32 {
            assert_eq!(sent[p ^ (1 << d)][d as usize], peer_window(&blocks, p, d));
        }
    }
}

#[test]
fn eight_parties_kilobyte_blocks_agree() {
    let mut state: u32 = 0x2545_f491;
    let blocks: Vec<Vec<u8>> = (0..8)
        .map(|_| {
            (0..1024)
                .map(|_| {
                    state = state.wrapping_mul(1_664_525).wrapping_add(1_013_904_223);
                    (state >> 24) as u8
                })
                .collect()
        })
        .collect();
    let expected = concatenation(&blocks);
    let by_rounds = run_rounds(&blocks, 1024);
    for p in 0..8 {
        let (data, _) = run_party(&blocks, p, 1024, 0x5a);
        assert_eq!(data, expected);
        assert_eq!(by_rounds[p], expected);
    }
}

#[test]
fn every_party_gathers_all_blocks() {
    for n in [1usize, 2, 4, 8, 16, 32] {
        for c in [1usize, 64, 4096] {
            let blocks: Vec<Vec<u8>> = (0..n).map(|p| block(p, c)).collect();
            let expected = concatenation(&blocks);
            for p in 0..n {
                let (data, sent) = run_party(&blocks, p, c, 0x77);
                assert_eq!(data, expected, "n = {n}, c = {c}, p = {p}");
                assert_eq!(sent.len(), n.trailing_zeros() as usize);
            }
            assert!(run_rounds(&blocks, c).iter().all(|b| *b == expected));
        }
    }
}

#[test]
fn megabyte_blocks_are_gathered() {
    let c = 1024 * 1024;
    for (n, parties) in [(1usize, vec![0usize]), (2, vec![0, 1]), (4, vec![0, 3]), (32, vec![21])] {
        let blocks: Vec<Vec<u8>> = (0..n).map(|p| vec![(p + 1) as u8; c]).collect();
        let expected = concatenation(&blocks);
        for p in parties {
            let (data, _) = run_party(&blocks, p, c, 0);
            assert!(data == expected, "n = {n}, p = {p}");
        }
    }
}

#[test]
fn same_blocks_give_the_same_buffer() {
    let blocks: Vec<Vec<u8>> = (0..8).map(|p| block(p, 3)).collect();
    for p in 0..8 {
        let (once, _) = run_party(&blocks, p, 3, 0x00);
        let (again, _) = run_party(&blocks, p, 3, 0xff);
        assert_eq!(once, again);
    }
}

#[test]
fn a_second_share_changes_nothing() {
    let blocks: Vec<Vec<u8>> = (0..4).map(|p| block(p, 6)).collect();
    let expected = concatenation(&blocks);
    for p in 0..4usize {
        let links: Vec<Script> = (0..2)
            .map(|d| Script::new(vec![peer_window(&blocks, p, d), peer_window(&blocks, p, d)]))
            .collect();
        let mut tree = tree_of(p as u32, 4, links);
        let mut data = buffer_of(p, 4, 6, &blocks[p], 0x42);
        tree.share(&mut data, 6).unwrap();
        assert_eq!(data, expected);
        tree.share(&mut data, 6).unwrap();
        assert_eq!(data, expected);
        for (d, link) in tree.into_connections().into_iter().enumerate() {
            assert_eq!(link.outgoing.len(), 2);
            assert_eq!(link.outgoing[0], link.outgoing[1]);
            assert_eq!(link.outgoing[0].len(), 6 << d);
        }
    }
}

#[test]
fn window_ends_as_the_whole_buffer() {
    for log_n in 0..=5u32 {
        let n = 1usize << log_n;
        for c in [0usize, 1, 64] {
            for p in 0..n as u32 {
                let w = Window::at_round(p, c, log_n, log_n);
                assert_eq!(w.start(), 0);
                assert_eq!(w.end(), n * c);
                assert_eq!(w.part_size(), n * c);
            }
        }
    }
}

#[test]
fn window_begins_as_the_own_slot_and_doubles() {
    let mut w = Window::new(5, 10);
    assert_eq!((w.start(), w.end(), w.part_size()), (50, 60, 10));
    // Party 5 is 101 in binary: client, server, client.
    let x = w.advance(Role::Client);
    assert_eq!((x.send.start, x.send.end, x.recv.start, x.recv.end), (50, 60, 40, 50));
    assert_eq!((w.start(), w.end(), w.part_size()), (40, 60, 20));
    let x = w.advance(Role::Server);
    assert_eq!((x.send.start, x.send.end, x.recv.start, x.recv.end), (40, 60, 60, 80));
    assert_eq!((w.start(), w.end(), w.part_size()), (40, 80, 40));
    let x = w.advance(Role::Client);
    assert_eq!((x.send.start, x.send.end, x.recv.start, x.recv.end), (40, 80, 0, 40));
    assert_eq!((w.start(), w.end(), w.part_size()), (0, 80, 80));

    let w = Window::at_round(5, 10, 3, 2);
    assert_eq!((w.start(), w.end()), (40, 80));
}

#[test]
fn two_parties_exchange_one_block_each_way() {
    let blocks = vec![block(0, 9), block(1, 9)];
    for p in 0..2 {
        let (_, sent) = run_party(&blocks, p, 9, 0);
        assert_eq!(sent, vec![blocks[p].clone()]);
    }
}

#[test]
fn four_parties_send_three_blocks_each() {
    let c = 12;
    let blocks: Vec<Vec<u8>> = (0..4).map(|p| block(p, c)).collect();
    for p in 0..4 {
        let (_, sent) = run_party(&blocks, p, c, 0);
        assert_eq!(sent[0].len(), c);
        assert_eq!(sent[1].len(), 2 * c);
        assert_eq!(sent.iter().map(|s| s.len()).sum::<usize>(), 3 * c);
        let received: usize = (0..2).map(|d| peer_window(&blocks, p, d).len()).sum();
        assert_eq!(received, 3 * c);
    }
}

#[test]
fn empty_blocks_are_exchanged_as_empty_segments() {
    let blocks: Vec<Vec<u8>> = (0..4).map(|_| Vec::new()).collect();
    for p in 0..4 {
        let (data, sent) = run_party(&blocks, p, 0, 0);
        assert!(data.is_empty());
        assert_eq!(sent, vec![Vec::<u8>::new(), Vec::new()]);
    }
}

#[test]
fn a_single_party_has_nothing_to_do() {
    let mut tree = tree_of(0, 1, Vec::new());
    assert_eq!(tree.log_n(), 0);
    assert_eq!(tree.party_count(), 1);
    let mut data = vec![9, 8, 7];
    tree.share(&mut data, 3).unwrap();
    assert_eq!(data, vec![9, 8, 7]);
    assert!(tree.into_connections().is_empty());
}

#[test]
fn a_failed_link_ends_the_share() {
    // The peer of party 0 is gone: its link delivers nothing.
    let mut tree = tree_of(0, 2, vec![Script::new(Vec::new())]);
    let mut data = vec![1, 2, 3, 4, 0, 0, 0, 0];
    let err = tree.share(&mut data, 4).unwrap_err();
    assert_eq!(err.cause, "peer is gone");
    assert_eq!(&data[..4], &[1, 2, 3, 4]);
    assert_eq!(tree.into_connections()[0].outgoing, vec![vec![1, 2, 3, 4]]);
}

#[test]
fn a_failure_in_a_later_round_leaves_later_links_alone() {
    let blocks: Vec<Vec<u8>> = (0..8).map(|p| block(p, 2)).collect();
    let p = 3usize;
    let links = vec![
        Script::new(vec![peer_window(&blocks, p, 0)]),
        Script::new(Vec::new()),
        Script::new(vec![peer_window(&blocks, p, 2)]),
    ];
    let mut tree = tree_of(p as u32, 8, links);
    let mut data = buffer_of(p, 8, 2, &blocks[p], 0x99);
    assert!(tree.share(&mut data, 2).is_err());
    // What round 0 made of the buffer stands: the blocks of parties 2 and 3.
    assert_eq!(&data[4..8], &concatenation(&blocks[2..4])[..]);
    let links = tree.into_connections();
    assert_eq!(links[0].outgoing.len(), 1);
    assert_eq!(links[1].outgoing, vec![concatenation(&blocks[2..4])]);
    assert!(links[2].outgoing.is_empty());
    assert_eq!(links[2].incoming.len(), 1);
}

#[test]
fn a_buffer_of_another_size_does_not_fit() {
    let tree = tree_of(0, 2, vec![Script::new(Vec::new())]);
    assert!(tree.buffer_fits(8, 4));
    assert!(!tree.buffer_fits(9, 4));
    assert!(!tree.buffer_fits(7, 4));
    assert!(!tree.buffer_fits(4, 4));
    assert!(tree.buffer_fits(0, 0));
    assert!(!tree.buffer_fits(1, 0));
    assert!(!tree.buffer_fits(0, usize::MAX));
    assert!(!tree.buffer_fits(usize::MAX - 1, usize::MAX));
    let tree = tree_of(0, 1, Vec::new());
    assert!(tree.buffer_fits(usize::MAX, usize::MAX));
}

#[test]
fn the_tree_keeps_the_window_of_its_latest_share() {
    let blocks: Vec<Vec<u8>> = (0..8).map(|p| block(p, 4)).collect();
    for p in 0..8usize {
        let links: Vec<Script> =
            (0..3).map(|d| Script::new(vec![peer_window(&blocks, p, d)])).collect();
        let mut tree = tree_of(p as u32, 8, links);
        let mut data = buffer_of(p, 8, 4, &blocks[p], 0);
        tree.share(&mut data, 4).unwrap();
        assert_eq!(tree.window().start(), 0);
        assert_eq!(tree.window().end(), 32);
    }
    // Party 3 fails in round 1, in which it would have come to hold the
    // blocks of the parties 0 to 3.
    let links = vec![
        Script::new(vec![peer_window(&blocks, 3, 0)]),
        Script::new(Vec::new()),
        Script::new(Vec::new()),
    ];
    let mut tree = tree_of(3, 8, links);
    let mut data = buffer_of(3, 8, 4, &blocks[3], 0);
    assert!(tree.share(&mut data, 4).is_err());
    assert_eq!(tree.window().start(), 0);
    assert_eq!(tree.window().end(), 16);
}

#[test]
fn the_tree_knows_its_place() {
    let links = (0..3).map(|_| Script::new(Vec::new())).collect();
    let tree = tree_of(6, 8, links);
    assert_eq!(tree.party_id(), 6);
    assert_eq!(tree.party_count(), 8);
    assert_eq!(tree.log_n(), 3);
    // 6 is 110 in binary.
    assert_eq!(tree.role(0), Role::Server);
    assert_eq!(tree.role(1), Role::Client);
    assert_eq!(tree.role(2), Role::Client);
}

//! The round schedule of the all-gather: which bytes a party holds before
//! each round, and which it sends and receives in it.

use vstd::prelude::*;
use vstd::arithmetic::power2::{lemma_pow2_pos, lemma_pow2_unfold, pow2};
use crate::hypercube::{
    bit,
    block_base,
    lemma_block_ends,
    lemma_block_step,
    lemma_peer_block,
    lemma_peer_in_range,
    peer_of,
    role_for,
};
use crate::net_io::Role;

verus! {

/// A half-open range of bytes of the share buffer.
#[derive(Debug, Clone, Copy, PartialEq, Eq, Structural)]
pub struct Segment {
    pub start: usize,
    pub end: usize,
}

/// What one round does to the buffer: the bytes of `send` go to the peer
/// while the peer's bytes fill `recv`.
#[derive(Debug, Clone, Copy, PartialEq, Eq, Structural)]
pub struct Exchange {
    pub send: Segment,
    pub recv: Segment,
}

/// First byte that party `p` holds before round `d`, with blocks of `c`
/// bytes.
pub open spec fn window_start(p: nat, c: nat, d: nat) -> nat {
    block_base(p, d) * c
}

/// Number of bytes that a party holds before round `d`, and exchanges in
/// it.
pub open spec fn window_len(c: nat, d: nat) -> nat {
    pow2(d) * c
}

/// One past the last byte that party `p` holds before round `d`.
pub open spec fn window_end(p: nat, c: nat, d: nat) -> nat {
    window_start(p, c, d) + window_len(c, d)
}

/// First byte of what party `p` receives in round `d`: the window of its
/// peer.
pub open spec fn recv_start(p: nat, c: nat, d: nat) -> nat {
    window_start(peer_of(p, d), c, d)
}

/// One past the last byte of what party `p` receives in round `d`.
pub open spec fn recv_end(p: nat, c: nat, d: nat) -> nat {
    recv_start(p, c, d) + window_len(c, d)
}

/// The owned window of one party: the bytes of the share buffer that it
/// holds in their final form. Its size is the size of the segment that the
/// next round sends, and of the one that it receives.
#[derive(Debug)]
pub struct Window {
    start: usize,
    end: usize,
    part_size: usize,
}

impl Window {
    #[verifier::type_invariant]
    spec fn inv(self) -> bool {
        self.start + self.part_size == self.end
    }

    /// First byte of the window.
    pub closed spec fn spec_start(&self) -> usize {
        self.start
    }

    /// One past the last byte of the window.
    pub closed spec fn spec_end(&self) -> usize {
        self.end
    }

    /// The window before the first round: the party's own block.
    pub fn new(party_id: u32, chunk_size: usize) -> (w: Window)
        requires
            (party_id + 1) * chunk_size <= usize::MAX,
        ensures
            w.start() == party_id * chunk_size,
            w.end() == (party_id + 1) * chunk_size,
    {
        assert(chunk_size * party_id + chunk_size == (party_id + 1) * chunk_size
            && chunk_size * party_id == party_id * chunk_size && chunk_size * party_id >= 0)
            by (nonlinear_arith);
        let start = chunk_size * (party_id as usize);
        Window { start, end: start + chunk_size, part_size: chunk_size }
    }

    /// The window of party `party_id`, one of `2^log_n`, before round
    /// `round`: what the rounds before it have made of the window that the
    /// party began with.
    pub fn at_round(party_id: u32, chunk_size: usize, log_n: u32, round: u32) -> (w: Window)
        requires
            round <= log_n <= 32,
            party_id < pow2(log_n as nat),
            pow2(log_n as nat) * chunk_size <= usize::MAX,
        ensures
            w.start() == window_start(party_id as nat, chunk_size as nat, round as nat),
            w.end() == window_end(party_id as nat, chunk_size as nat, round as nat),
    {
        let ghost p = party_id as nat;
        let ghost c = chunk_size as nat;
        let ghost l = log_n as nat;
        proof {
            lemma_schedule_ends(p, c, l);
            assert((p + 1) * c <= pow2(l) * c) by (nonlinear_arith)
                requires
                    p + 1 <= pow2(l),
            ;
        }
        let mut window = Window::new(party_id, chunk_size);
        let mut d: u32 = 0;
        while d < round
            invariant
                d <= round <= log_n <= 32,
                p == party_id,
                c == chunk_size,
                l == log_n,
                p < pow2(l),
                pow2(l) * c <= usize::MAX,
                window.start() == window_start(p, c, d as nat),
                window.end() == window_end(p, c, d as nat),
            decreases round - d,
        {
            proof {
                lemma_schedule_step(p, c, d as nat);
                lemma_schedule_bounds(p, c, d as nat, l);
            }
            let _ = window.advance(role_for(party_id, d));
            d = d + 1;
        }
        window
    }

    /// First byte of the window.
    #[verifier::when_used_as_spec(spec_start)]
    pub fn start(&self) -> (r: usize)
        ensures
            r == self.start(),
    {
        self.start
    }

    /// One past the last byte of the window.
    #[verifier::when_used_as_spec(spec_end)]
    pub fn end(&self) -> (r: usize)
        ensures
            r == self.end(),
    {
        self.end
    }

    /// Number of bytes that the next round sends, and receives.
    pub fn part_size(&self) -> (r: usize)
        ensures
            r == self.end() - self.start(),
    {
        proof {
            use_type_invariant(self);
        }
        self.part_size
    }

    /// Plays one round: the window doubles, to the right for the server
    /// end and to the left for the client end. What was held is sent; the
    /// half that is new is received.
    pub fn advance(&mut self, role: Role) -> (x: Exchange)
        requires
            role == Role::Server ==> 2 * old(self).end() - old(self).start() <= usize::MAX,
            role == Role::Client ==> 2 * old(self).start() >= old(self).end(),
        ensures
            x.send.start == old(self).start(),
            x.send.end == old(self).end(),
            x.recv.end - x.recv.start == old(self).end() - old(self).start(),
            role == Role::Server ==> x.recv.start == old(self).end() && final(self).start() == old(
                self,
            ).start() && final(self).end() == x.recv.end,
            role == Role::Client ==> x.recv.end == old(self).start() && final(self).start()
                == x.recv.start && final(self).end() == old(self).end(),
    {
        proof {
            use_type_invariant(&*self);
        }
        let part_size = self.part_size;
        let send = Segment { start: self.start, end: self.end };
        let recv = match role {
            Role::Server => Segment { start: send.end, end: send.end + part_size },
            Role::Client => Segment { start: send.start - part_size, end: send.start },
        };
        *self = match role {
            Role::Server => Window {
                start: send.start,
                end: recv.end,
                part_size: part_size + part_size,
            },
            Role::Client => Window {
                start: recv.start,
                end: send.end,
                part_size: part_size + part_size,
            },
        };
        Exchange { send, recv }
    }
}

/// One round of the schedule. The window of the next round is the window
/// of this one together with what is received, which is the window of the
/// peer and lies next to one's own: below it for the client end, above it
/// for the server end.
pub proof fn lemma_schedule_step(p: nat, c: nat, d: nat)
    ensures
        window_len(c, d + 1) == 2 * window_len(c, d),
        bit(p, d) ==> recv_start(p, c, d) + window_len(c, d) == window_start(p, c, d)
            && window_start(p, c, d + 1) == recv_start(p, c, d) && window_end(p, c, d + 1)
            == window_end(p, c, d),
        !bit(p, d) ==> recv_start(p, c, d) == window_end(p, c, d) && window_start(p, c, d + 1)
            == window_start(p, c, d) && window_end(p, c, d + 1) == recv_start(p, c, d)
            + window_len(c, d),
{
    let a = pow2(d) as int;
    let b = block_base(p, d) as int;
    let c = c as int;
    lemma_block_step(p, d);
    lemma_peer_block(p, d);
    lemma_pow2_unfold(d + 1);
    assert((2 * a) * c == 2 * (a * c)) by (nonlinear_arith);
    assert((b - a) * c == b * c - a * c) by (nonlinear_arith);
    assert((b + a) * c == b * c + a * c) by (nonlinear_arith);
}

/// Where the schedule starts and where it ends: a party begins with its
/// own block and, after as many rounds as the cube has dimensions, holds
/// the whole buffer.
pub proof fn lemma_schedule_ends(p: nat, c: nat, l: nat)
    requires
        p < pow2(l),
    ensures
        window_start(p, c, 0) == p * c,
        window_end(p, c, 0) == (p + 1) * c,
        window_start(p, c, l) == 0,
        window_end(p, c, l) == pow2(l) * c,
{
    lemma_block_ends(p, l);
    assert(pow2(0) == 1) by {
        vstd::arithmetic::power2::lemma2_to64();
    }
    assert(p * c + 1 * c == (p + 1) * c) by (nonlinear_arith);
}

/// In every round what a party holds, and what it receives, lies within
/// the buffer of `2^l` blocks.
pub proof fn lemma_schedule_bounds(p: nat, c: nat, d: nat, l: nat)
    requires
        p < pow2(l),
        d < l,
    ensures
        window_end(p, c, d) <= pow2(l) * c,
        recv_start(p, c, d) + window_len(c, d) <= pow2(l) * c,
        window_end(p, c, d + 1) <= pow2(l) * c,
{
    let a = pow2(d) as int;
    let b = block_base(p, d) as int;
    let q = block_base(peer_of(p, d), d) as int;
    let n = pow2(l) as int;
    let c = c as int;
    lemma_peer_in_range(p, d, l);
    lemma_schedule_step(p, c as nat, d);
    assert((b + a) * c == b * c + a * c) by (nonlinear_arith);
    assert((q + a) * c == q * c + a * c) by (nonlinear_arith);
    assert((b + a) * c <= n * c) by (nonlinear_arith)
        requires
            b + a <= n,
            c >= 0,
    ;
    assert((q + a) * c <= n * c) by (nonlinear_arith)
        requires
            q + a <= n,
            c >= 0,
    ;
}

/// What a party has sent, and received, when `l` rounds are over: one
/// block less than the buffer holds.
pub open spec fn traffic(c: nat, l: nat) -> nat
    decreases l,
{
    if l == 0 {
        0
    } else {
        traffic(c, (l - 1) as nat) + window_len(c, (l - 1) as nat)
    }
}

/// Round `d` moves `2^d` blocks in each direction, and `l` rounds move
/// `2^l - 1` blocks in each direction.
pub proof fn lemma_traffic(c: nat, l: nat)
    ensures
        traffic(c, l) == (pow2(l) - 1) * c,
    decreases l,
{
    if l == 0 {
        assert(pow2(0) == 1) by {
            vstd::arithmetic::power2::lemma2_to64();
        }
    } else {
        let k = (l - 1) as nat;
        lemma_traffic(c, k);
        lemma_pow2_unfold(l);
        lemma_pow2_pos(k);
        let a = pow2(k) as int;
        let c = c as int;
        assert((a - 1) * c + a * c == (2 * a - 1) * c) by (nonlinear_arith);
    }
}

} // verus!

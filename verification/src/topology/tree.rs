//! The all-gather engine of one party.

use vstd::prelude::*;
use vstd::arithmetic::power2::pow2;
use crate::hypercube::{lemma_peer_in_range, peer_of, role_for, role_of};
use crate::net_io::{Role, TransportError, TreeNetIO};
use crate::topology::gather::{
    buffers_fit,
    gathered,
    lemma_all_gather,
    party_buffer,
    party_sends,
    place,
};
use crate::topology::schedule::{
    lemma_schedule_bounds,
    lemma_schedule_ends,
    lemma_schedule_step,
    recv_end,
    recv_start,
    window_end,
    window_len,
    window_start,
    Exchange,
    Window,
};
use crate::Id;

verus! {

/// Whether `handed` and `delivered` are what party `p`, which started with
/// the buffer `buf0`, handed to its links and got from them in the first
/// rounds of an all-gather: round `d` hands over the window of round `d`
/// and gets one segment of the same size.
pub open spec fn rounds_played(
    handed: Seq<Seq<u8>>,
    delivered: Seq<Seq<u8>>,
    buf0: Seq<u8>,
    p: nat,
    c: nat,
) -> bool {
    &&& forall|d: nat|
        d < handed.len() ==> #[trigger] handed[d as int] == party_sends(buf0, p, c, delivered, d)
    &&& forall|d: nat| d < handed.len() ==> (#[trigger] handed[d as int]).len() == window_len(c, d)
    &&& forall|d: nat|
        d < delivered.len() ==> (#[trigger] delivered[d as int]).len() == window_len(c, d)
}

/// Whether `buf` is the buffer that round `k` failed on: it differs from
/// what the rounds before made of `buf0` at most where round `k` would
/// have received.
pub open spec fn stopped_in(
    delivered: Seq<Seq<u8>>,
    buf0: Seq<u8>,
    buf: Seq<u8>,
    p: nat,
    c: nat,
    k: nat,
) -> bool {
    let reached = party_buffer(buf0, p, c, delivered, k);
    forall|i: int|
        0 <= i < buf.len() && !(recv_start(p, c, k) <= i < recv_end(p, c, k)) ==> buf[i]
            == reached[i]
}

/// The buffer after some rounds depends on what those rounds delivered, and
/// on nothing that a later round delivers.
pub proof fn lemma_later_rounds_do_not_matter(
    buf0: Seq<u8>,
    p: nat,
    c: nat,
    rx1: Seq<Seq<u8>>,
    rx2: Seq<Seq<u8>>,
    d: nat,
)
    requires
        forall|k: int| 0 <= k < d ==> rx1[k] == rx2[k],
    ensures
        party_buffer(buf0, p, c, rx1, d) == party_buffer(buf0, p, c, rx2, d),
        party_sends(buf0, p, c, rx1, d) == party_sends(buf0, p, c, rx2, d),
    decreases d,
{
    if d > 0 {
        lemma_later_rounds_do_not_matter(buf0, p, c, rx1, rx2, (d - 1) as nat);
    }
}

/// The all-gather of all parties, from what each of them knows when its
/// own has succeeded. Where `2^l` parties have played all rounds, party `q`
/// on the buffer `bufs[q]`, and every link has delivered to each end what
/// the other end handed to it, the buffer of every party holds the blocks
/// of all parties in the order of their ids.
pub proof fn lemma_shares_gather(
    bufs: Seq<Seq<u8>>,
    c: nat,
    l: nat,
    handed: Seq<Seq<Seq<u8>>>,
    delivered: Seq<Seq<Seq<u8>>>,
    p: nat,
)
    requires
        buffers_fit(bufs, c, l),
        handed.len() == bufs.len(),
        delivered.len() == bufs.len(),
        forall|q: nat|
            q < bufs.len() ==> (#[trigger] handed[q as int]).len() == l && rounds_played(
                handed[q as int],
                delivered[q as int],
                bufs[q as int],
                q,
                c,
            ),
        forall|q: nat, d: nat|
            q < bufs.len() && d < l ==> #[trigger] delivered[q as int][d as int]
                == handed[peer_of(q, d) as int][d as int],
        p < pow2(l),
    ensures
        party_buffer(bufs[p as int], p, c, delivered[p as int], l) == gathered(bufs, c),
{
    assert forall|q: nat, d: nat| q < bufs.len() && d < l implies #[trigger] delivered[q as int][d as int]
        == party_sends(
        bufs[peer_of(q, d) as int],
        peer_of(q, d),
        c,
        delivered[peer_of(q, d) as int],
        d,
    ) by {
        let r = peer_of(q, d);
        lemma_peer_in_range(q, d, l);
        assert(handed[r as int].len() == l);
        assert(rounds_played(handed[r as int], delivered[r as int], bufs[r as int], r, c));
        assert(handed[r as int][d as int] == party_sends(
            bufs[r as int],
            r,
            c,
            delivered[r as int],
            d,
        ));
    }
    lemma_all_gather(bufs, c, l, delivered, p);
}

/// One party's end of the topology: its id among `2^log_n` parties, and
/// its link along each of the `log_n` dimensions.
///
/// Beside the links the topology keeps, for proofs alone, the record of
/// its latest all-gather: what it handed to the link of each round, and
/// what each round that was completed delivered.
pub struct Tree<L> {
    party_id: Id,
    party_count: usize,
    log_n: u32,
    connections: Vec<L>,
    window: Window,
    handed: Ghost<Seq<Seq<u8>>>,
    delivered: Ghost<Seq<Seq<u8>>>,
}

impl<L> Tree<L> {
    #[verifier::type_invariant]
    spec fn inv(self) -> bool {
        &&& self.log_n <= 32
        &&& self.party_count == pow2(self.log_n as nat)
        &&& self.party_id < self.party_count
        &&& self.connections@.len() == self.log_n
    }

    /// The id of this party.
    pub closed spec fn id(&self) -> nat {
        self.party_id as nat
    }

    /// The number of dimensions, which is the number of links and of
    /// rounds.
    pub closed spec fn dims(&self) -> nat {
        self.log_n as nat
    }

    /// The links, by dimension.
    pub closed spec fn links(&self) -> Seq<L> {
        self.connections@
    }

    /// The window that the latest all-gather ended with.
    pub closed spec fn held(&self) -> Window {
        self.window
    }

    /// What the latest all-gather handed to its links, by round.
    pub closed spec fn handed(&self) -> Seq<Seq<u8>> {
        self.handed@
    }

    /// What the rounds that the latest all-gather completed delivered, by
    /// round.
    pub closed spec fn delivered(&self) -> Seq<Seq<u8>> {
        self.delivered@
    }

    /// Puts a party's links together.
    pub(crate) fn assemble(party_id: Id, party_count: usize, log_n: u32, connections: Vec<L>) -> (t:
        Self)
        requires
            log_n <= 32,
            party_count == pow2(log_n as nat),
            party_id < party_count,
            connections@.len() == log_n,
        ensures
            t.id() == party_id,
            t.dims() == log_n,
            t.links() == connections@,
            t.handed().len() == 0,
            t.delivered().len() == 0,
    {
        Tree {
            party_id,
            party_count,
            log_n,
            connections,
            window: Window::new(party_id, 0),
            handed: Ghost(Seq::empty()),
            delivered: Ghost(Seq::empty()),
        }
    }

    /// The id of this party.
    pub fn party_id(&self) -> (r: Id)
        ensures
            r == self.id(),
            r < pow2(self.dims()),
    {
        proof {
            use_type_invariant(self);
        }
        self.party_id
    }

    /// The number of parties.
    pub fn party_count(&self) -> (r: usize)
        ensures
            r == pow2(self.dims()),
    {
        proof {
            use_type_invariant(self);
        }
        self.party_count
    }

    /// The number of dimensions: the binary logarithm of the number of
    /// parties.
    pub fn log_n(&self) -> (r: u32)
        ensures
            r == self.dims(),
            r <= 32,
            self.links().len() == r,
    {
        proof {
            use_type_invariant(self);
        }
        self.log_n
    }

    /// Whether a buffer of `len` bytes holds one block of `chunk_size`
    /// bytes for each party, as an all-gather asks.
    pub fn buffer_fits(&self, len: usize, chunk_size: usize) -> (r: bool)
        ensures
            r == (len == chunk_size * pow2(self.dims())),
    {
        proof {
            use_type_invariant(self);
        }
        match chunk_size.checked_mul(self.party_count) {
            Some(total) => total == len,
            None => false,
        }
    }

    /// The window that the latest all-gather ended with: the whole buffer
    /// where it succeeded.
    pub fn window(&self) -> (w: &Window)
        ensures
            *w == self.held(),
    {
        &self.window
    }

    /// The role of this party on its link along dimension `dim`.
    pub fn role(&self, dim: u32) -> (r: Role)
        requires
            dim < self.dims(),
        ensures
            r == role_of(self.id(), dim as nat),
    {
        proof {
            use_type_invariant(self);
        }
        role_for(self.party_id, dim)
    }

    /// Gives the links back, by dimension, when the topology is done with.
    pub fn into_connections(self) -> (r: Vec<L>)
        ensures
            r@ == self.links(),
    {
        self.connections
    }
}

/// One round on one link: hands the bytes of `x.send` to the link and lets
/// it fill the bytes of `x.recv`, which lie next to them.
fn exchange<L: TreeNetIO>(link: &mut L, data: &mut [u8], x: Exchange) -> (r: (
    Result<(), TransportError>,
    Ghost<Seq<u8>>,
))
    requires
        x.send.start <= x.send.end <= old(data)@.len(),
        x.recv.start <= x.recv.end <= old(data)@.len(),
        x.recv.end - x.recv.start == x.send.end - x.send.start,
        x.send.end == x.recv.start || x.recv.end == x.send.start,
    ensures
        final(data)@.len() == old(data)@.len(),
        final(data)@ == place(
            old(data)@,
            x.recv.start as int,
            final(data)@.subrange(x.recv.start as int, x.recv.end as int),
        ),
        r.1@ == old(data)@.subrange(x.send.start as int, x.send.end as int),
{
    let len = x.send.end - x.send.start;
    let send_first = x.send.end == x.recv.start;
    let from = if send_first {
        x.send.start
    } else {
        x.recv.start
    };
    let ghost held = data@;
    let (_, rest) = data.split_at_mut(from);
    let (part, _) = rest.split_at_mut(len + len);
    let (low, high) = part.split_at_mut(len);
    let (r, handed) = if send_first {
        (link.share(low, high), Ghost(low@))
    } else {
        (link.share(high, low), Ghost(high@))
    };
    proof {
        let got = data@.subrange(x.recv.start as int, x.recv.end as int);
        assert(data@ =~= place(held, x.recv.start as int, got));
        assert(handed@ =~= held.subrange(x.send.start as int, x.send.end as int));
    }
    (r, handed)
}

impl<L: TreeNetIO> Tree<L> {
    /// The all-gather. `data` holds one block of `chunk_size` bytes for
    /// each party, and the block of this party in its slot. Round `d`
    /// hands the window held so far to link `d` and lets the link fill the
    /// half that the window grows by.
    ///
    /// When all rounds succeed the buffer is what the delivered segments
    /// make of it. The first round that fails ends the call with the
    /// error of its link.
    pub fn share(&mut self, data: &mut [u8], chunk_size: usize) -> (r: Result<(), TransportError>)
        requires
            old(data)@.len() == chunk_size * pow2(old(self).dims()),
        ensures
            final(self).id() == old(self).id(),
            final(self).dims() == old(self).dims(),
            final(self).links().len() == old(self).links().len(),
            final(data)@.len() == old(data)@.len(),
            rounds_played(
                final(self).handed(),
                final(self).delivered(),
                old(data)@,
                old(self).id(),
                chunk_size as nat,
            ),
            final(self).held().start() == window_start(
                old(self).id(),
                chunk_size as nat,
                final(self).handed().len(),
            ),
            final(self).held().end() == window_end(
                old(self).id(),
                chunk_size as nat,
                final(self).handed().len(),
            ),
            r is Ok ==> final(self).held().start() == 0 && final(self).held().end() == old(
                data,
            )@.len(),
            old(self).dims() == 0 ==> r is Ok && final(data)@ == old(data)@,
            r is Ok ==> {
                &&& final(self).handed().len() == old(self).dims()
                &&& final(self).delivered().len() == old(self).dims()
                &&& final(data)@ == party_buffer(
                    old(data)@,
                    old(self).id(),
                    chunk_size as nat,
                    final(self).delivered(),
                    old(self).dims(),
                )
            },
            r is Err ==> {
                &&& final(self).delivered().len() < old(self).dims()
                &&& final(self).handed().len() == final(self).delivered().len() + 1
                &&& stopped_in(
                    final(self).delivered(),
                    old(data)@,
                    final(data)@,
                    old(self).id(),
                    chunk_size as nat,
                    final(self).delivered().len(),
                )
            },
    {
        proof {
            use_type_invariant(&*self);
        }
        let ghost p = self.party_id as nat;
        let ghost c = chunk_size as nat;
        let ghost l = self.log_n as nat;
        let ghost buf0 = data@;
        let total = data.len();
        proof {
            lemma_schedule_ends(p, c, l);
            assert((p + 1) * c <= pow2(l) * c && c * pow2(l) == pow2(l) * c) by (nonlinear_arith)
                requires
                    p + 1 <= pow2(l),
            ;
        }
        let mut window = Window::new(self.party_id, chunk_size);
        self.handed = Ghost(Seq::empty());
        self.delivered = Ghost(Seq::empty());
        let mut d: usize = 0;
        while d < self.connections.len()
            invariant
                d <= l <= 32,
                p == self.party_id == old(self).party_id,
                l == self.log_n == old(self).log_n,
                self.party_count == old(self).party_count == pow2(l),
                p < pow2(l),
                c == chunk_size,
                buf0 == old(data)@,
                buf0.len() == pow2(l) * c == total,
                self.connections@.len() == l == old(self).connections@.len(),
                data@.len() == pow2(l) * c,
                window.start() == window_start(p, c, d as nat),
                window.end() == window_end(p, c, d as nat),
                self.handed@.len() == d,
                self.delivered@.len() == d,
                rounds_played(self.handed@, self.delivered@, buf0, p, c),
                data@ == party_buffer(buf0, p, c, self.delivered@, d as nat),
            decreases l - d,
        {
            let ghost held = data@;
            let ghost before = self.delivered@;
            proof {
                lemma_schedule_step(p, c, d as nat);
                lemma_schedule_bounds(p, c, d as nat, l);
            }
            let role = role_for(self.party_id, d as u32);
            let x = window.advance(role);
            let (r, handed) = exchange(&mut self.connections[d], data, x);
            self.handed = Ghost(self.handed@.push(handed@));
            match r {
                Err(e) => {
                    self.window = window;
                    return Err(e);
                },
                Ok(()) => {},
            }
            self.delivered = Ghost(
                self.delivered@.push(data@.subrange(x.recv.start as int, x.recv.end as int)),
            );
            proof {
                let after = self.delivered@;
                assert forall|k: nat| k <= d implies party_buffer(buf0, p, c, after, k)
                    == party_buffer(buf0, p, c, before, k) && party_sends(buf0, p, c, after, k)
                    == party_sends(buf0, p, c, before, k) by {
                    lemma_later_rounds_do_not_matter(buf0, p, c, after, before, k);
                }
            }
            d += 1;
        }
        self.window = window;
        Ok(())
    }
}

} // verus!

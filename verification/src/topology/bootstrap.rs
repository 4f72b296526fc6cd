//! Bringing up a party's links.
//!
//! Along each dimension exactly one of the two ends dials: the one with the
//! greater id. The other end waits, learns from the first four bytes on the
//! connection who dialled, and from that along which dimension the link
//! runs. So no link depends on the order in which connections arrive.

use vstd::prelude::*;
use vstd::arithmetic::power2::{lemma_pow2_strictly_increases, pow2};
use crate::hypercube::{
    accept_count,
    bit,
    dimension_toward,
    lemma_dimension_unique,
    lemma_peer_block,
    lemma_peer_in_range,
    log2_exact,
    peer,
    peer_of,
    role_for,
    servers_below,
};
use crate::net_io::Role;
use crate::topology::tree::Tree;
use crate::Id;

verus! {

/// Why a link could not be taken into the table, or the table not be
/// finished.
#[derive(Debug, Clone, Copy, PartialEq, Eq, Structural)]
pub enum BootstrapError {
    /// The peer is none that this party has a link with in this way.
    PeerMismatch,
    /// The dimension has its link already.
    Duplicate,
    /// A dimension has no link yet.
    Incomplete,
}

/// How often a connection to a peer is attempted before the bootstrap
/// gives up.
pub const CONNECT_ATTEMPTS: u32 = 100;

/// The pause after a failed attempt, in seconds.
pub const RETRY_DELAY_SECS: u64 = 1;

/// Whether `n` parties can form a topology: `n` is a power of two, and ids
/// of 32 bits can tell the parties apart.
pub open spec fn is_party_count(n: nat) -> bool {
    exists|l: nat| l <= 32 && n == pow2(l)
}

/// The slots with a link put into slot `d`, which must be free.
pub open spec fn placed<L>(slots: Seq<Option<L>>, d: nat, link: L) -> Result<
    Seq<Option<L>>,
    BootstrapError,
> {
    if slots[d as int] is Some {
        Err(BootstrapError::Duplicate)
    } else {
        Ok(slots.update(d as int, Some(link)))
    }
}

/// Whether party `p` waits for a connection from `q`: `q` is a neighbour
/// with a greater id.
pub open spec fn waits_for(p: nat, q: nat, l: nat) -> bool {
    exists|d: nat| d < l && q == peer_of(p, d) && !bit(p, d)
}

/// What becomes of the slots of party `p` when a connection arrives whose
/// first bytes name `q`.
pub open spec fn accepted<L>(slots: Seq<Option<L>>, p: nat, l: nat, q: nat, link: L) -> Result<
    Seq<Option<L>>,
    BootstrapError,
> {
    if waits_for(p, q, l) {
        placed(slots, choose|d: nat| d < l && q == peer_of(p, d) && !bit(p, d), link)
    } else {
        Err(BootstrapError::PeerMismatch)
    }
}

/// What becomes of the slots of party `p` when it has dialled along
/// dimension `d`.
pub open spec fn connected<L>(slots: Seq<Option<L>>, p: nat, l: nat, d: nat, link: L) -> Result<
    Seq<Option<L>>,
    BootstrapError,
> {
    if d < l && bit(p, d) {
        placed(slots, d, link)
    } else {
        Err(BootstrapError::PeerMismatch)
    }
}

/// How many of the first `l` slots of party `p` still wait for a
/// connection to arrive: the free ones along the dimensions of which `p`
/// is the server.
pub open spec fn awaited<L>(slots: Seq<Option<L>>, p: nat, l: nat) -> nat
    decreases l,
{
    if l == 0 {
        0
    } else {
        let d = (l - 1) as nat;
        awaited(slots, p, d) + if !bit(p, d) && slots[d as int] is None {
            1nat
        } else {
            0nat
        }
    }
}

/// Whether every slot holds a link.
pub open spec fn complete<L>(slots: Seq<Option<L>>) -> bool {
    forall|d: int| 0 <= d < slots.len() ==> (#[trigger] slots[d]) is Some
}

/// The links of one party while they are being established: one slot for
/// each dimension, each filled at most once.
pub struct LinkTable<L> {
    party_id: Id,
    party_count: usize,
    log_n: u32,
    slots: Vec<Option<L>>,
}

impl<L> LinkTable<L> {
    #[verifier::type_invariant]
    spec fn inv(self) -> bool {
        &&& self.log_n <= 32
        &&& self.party_count == pow2(self.log_n as nat)
        &&& self.party_id < self.party_count
        &&& self.slots@.len() == self.log_n
    }

    /// The id of this party.
    pub closed spec fn id(&self) -> nat {
        self.party_id as nat
    }

    /// The number of dimensions.
    pub closed spec fn dims(&self) -> nat {
        self.log_n as nat
    }

    /// The slots, by dimension.
    pub closed spec fn slots(&self) -> Seq<Option<L>> {
        self.slots@
    }

    /// An empty table for party `party_id` of `party_count`.
    pub fn new(party_id: Id, party_count: usize) -> (t: Self)
        requires
            is_party_count(party_count as nat),
            party_id < party_count,
        ensures
            t.id() == party_id,
            t.dims() <= 32,
            pow2(t.dims()) == party_count,
            t.slots() == Seq::new(t.dims(), |d: int| None::<L>),
    {
        let log_n = match log2_exact(party_count) {
            Some(l) => l,
            None => unreached(),
        };
        proof {
            let l = choose|l: nat| l <= 32 && party_count == pow2(l);
            if l < log_n {
                lemma_pow2_strictly_increases(l, log_n as nat);
            }
            if log_n < l {
                lemma_pow2_strictly_increases(log_n as nat, l);
            }
        }
        let mut slots: Vec<Option<L>> = Vec::new();
        let mut d: u32 = 0;
        while d < log_n
            invariant
                d <= log_n,
                slots@ == Seq::new(d as nat, |d: int| None::<L>),
            decreases log_n - d,
        {
            slots.push(None);
            d = d + 1;
            assert(slots@ =~= Seq::new(d as nat, |d: int| None::<L>));
        }
        LinkTable { party_id, party_count, log_n, slots }
    }

    /// The number of dimensions: the binary logarithm of the number of
    /// parties.
    pub fn log_n(&self) -> (r: u32)
        ensures
            r == self.dims(),
            r <= 32,
            self.slots().len() == r,
            self.id() < pow2(self.dims()),
    {
        proof {
            use_type_invariant(self);
        }
        self.log_n
    }

    /// How many connections this party waits for.
    pub fn accept_count(&self) -> (r: u32)
        ensures
            r == servers_below(self.id(), self.dims()),
    {
        proof {
            use_type_invariant(self);
        }
        accept_count(self.party_id, self.log_n)
    }

    /// How many connections this party still waits for.
    pub fn awaited_count(&self) -> (r: u32)
        ensures
            r == awaited(self.slots(), self.id(), self.dims()),
    {
        proof {
            use_type_invariant(self);
        }
        let mut count: u32 = 0;
        let mut d: u32 = 0;
        while d < self.log_n
            invariant
                d <= self.log_n <= 32,
                self.slots@.len() == self.log_n,
                count == awaited(self.slots@, self.party_id as nat, d as nat),
                count <= d,
            decreases self.log_n - d,
        {
            if role_for(self.party_id, d) == Role::Server && self.slots[d as usize].is_none() {
                count = count + 1;
            }
            d = d + 1;
        }
        count
    }

    /// The party that this one dials along dimension `dim`, if it is this
    /// one that dials there.
    pub fn dial_target(&self, dim: u32) -> (r: Option<Id>)
        ensures
            r == if dim < self.dims() && bit(self.id(), dim as nat) {
                Some(peer_of(self.id(), dim as nat) as Id)
            } else {
                None
            },
    {
        proof {
            use_type_invariant(self);
        }
        if dim < self.log_n && role_for(self.party_id, dim) == Role::Client {
            Some(peer(self.party_id, dim))
        } else {
            None
        }
    }

    /// Takes in the link of a connection that arrived and named `peer_id`
    /// as the party that dialled.
    pub fn install_accepted(&mut self, peer_id: Id, link: L) -> (r: Result<(), BootstrapError>)
        ensures
            final(self).id() == old(self).id(),
            final(self).dims() == old(self).dims(),
            match accepted(old(self).slots(), old(self).id(), old(self).dims(), peer_id as nat, link) {
                Ok(slots) => r is Ok && final(self).slots() == slots,
                Err(e) => r == Err::<(), BootstrapError>(e) && final(self).slots() == old(
                    self,
                ).slots(),
            },
    {
        proof {
            use_type_invariant(&*self);
        }
        let ghost p = self.party_id as nat;
        let ghost l = self.log_n as nat;
        let ghost q = peer_id as nat;
        match dimension_toward(self.party_id, peer_id, self.log_n) {
            Some(d) => {
                proof {
                    assert forall|e: nat| e < l && q == peer_of(p, e) implies e == d by {
                        lemma_dimension_unique(p, e, d as nat);
                    }
                }
                if role_for(self.party_id, d) == Role::Client {
                    Err(BootstrapError::PeerMismatch)
                } else {
                    self.place(d, link)
                }
            },
            None => Err(BootstrapError::PeerMismatch),
        }
    }

    /// Takes in the link of a connection that this party made along
    /// dimension `dim`.
    pub fn install_connected(&mut self, dim: u32, link: L) -> (r: Result<(), BootstrapError>)
        ensures
            final(self).id() == old(self).id(),
            final(self).dims() == old(self).dims(),
            match connected(old(self).slots(), old(self).id(), old(self).dims(), dim as nat, link) {
                Ok(slots) => r is Ok && final(self).slots() == slots,
                Err(e) => r == Err::<(), BootstrapError>(e) && final(self).slots() == old(
                    self,
                ).slots(),
            },
    {
        proof {
            use_type_invariant(&*self);
        }
        if dim < self.log_n && role_for(self.party_id, dim) == Role::Client {
            self.place(dim, link)
        } else {
            Err(BootstrapError::PeerMismatch)
        }
    }

    fn place(&mut self, dim: u32, link: L) -> (r: Result<(), BootstrapError>)
        requires
            dim < old(self).dims(),
        ensures
            final(self).id() == old(self).id(),
            final(self).dims() == old(self).dims(),
            match placed(old(self).slots(), dim as nat, link) {
                Ok(slots) => r is Ok && final(self).slots() == slots,
                Err(e) => r == Err::<(), BootstrapError>(e) && final(self).slots() == old(
                    self,
                ).slots(),
            },
    {
        proof {
            use_type_invariant(&*self);
        }
        let index = dim as usize;
        if self.slots[index].is_some() {
            Err(BootstrapError::Duplicate)
        } else {
            self.slots[index] = Some(link);
            Ok(())
        }
    }

    /// Whether every dimension has its link.
    pub fn is_complete(&self) -> (r: bool)
        ensures
            r == complete(self.slots()),
    {
        proof {
            use_type_invariant(self);
        }
        let mut d: usize = 0;
        while d < self.slots.len()
            invariant
                d <= self.slots@.len(),
                forall|k: int| 0 <= k < d ==> (#[trigger] self.slots@[k]) is Some,
            decreases self.slots@.len() - d,
        {
            if self.slots[d].is_none() {
                return false;
            }
            d = d + 1;
        }
        true
    }

    /// Ends the bootstrap: hands the links over, by dimension, where every
    /// dimension has one.
    pub fn finish(self) -> (r: Result<Tree<L>, BootstrapError>)
        ensures
            match r {
                Ok(t) => {
                    &&& complete(self.slots())
                    &&& t.id() == self.id()
                    &&& t.dims() == self.dims()
                    &&& t.links().len() == self.dims()
                    &&& forall|d: int|
                        0 <= d < self.dims() ==> self.slots()[d] == Some(#[trigger] t.links()[d])
                },
                Err(e) => e == BootstrapError::Incomplete && !complete(self.slots()),
            },
    {
        proof {
            use_type_invariant(&self);
        }
        let ghost before = self.slots@;
        let party_id = self.party_id;
        let party_count = self.party_count;
        let log_n = self.log_n;
        let mut slots = self.slots;
        let mut connections: Vec<L> = Vec::new();
        let mut d: usize = 0;
        while d < slots.len()
            invariant
                d <= slots@.len() == before.len() == log_n <= 32,
                before == self.slots(),
                party_id == self.id(),
                log_n == self.dims(),
                party_count == pow2(log_n as nat),
                party_id < party_count,
                connections@.len() == d,
                forall|k: int| 0 <= k < d ==> before[k] == Some(#[trigger] connections@[k]),
                forall|k: int| d <= k < before.len() ==> slots@[k] == before[k],
            decreases slots@.len() - d,
        {
            match slots[d].take() {
                Some(link) => {
                    connections.push(link);
                },
                None => {
                    assert(before[d as int] is None);
                    return Err(BootstrapError::Incomplete);
                },
            }
            d = d + 1;
        }
        proof {
            assert forall|k: int| 0 <= k < before.len() implies (#[trigger] before[k]) is Some by {
                assert(before[k] == Some(connections@[k]));
            }
        }
        Ok(Tree::assemble(party_id, party_count, log_n, connections))
    }
}

/// A slot that is filled is awaited no longer, and no other slot is
/// touched.
proof fn lemma_awaited_update<L>(slots: Seq<Option<L>>, p: nat, l: nat, d: nat, link: L)
    requires
        l <= slots.len(),
        d < slots.len(),
        slots[d as int] is None,
    ensures
        awaited(slots.update(d as int, Some(link)), p, l) + (if d < l && !bit(p, d) {
            1nat
        } else {
            0nat
        }) == awaited(slots, p, l),
    decreases l,
{
    if l > 0 {
        lemma_awaited_update(slots, p, (l - 1) as nat, d, link);
    }
}

/// An empty table awaits as many connections as the party is the server
/// of links.
pub proof fn lemma_awaited_at_first<L>(slots: Seq<Option<L>>, p: nat, l: nat)
    requires
        l <= slots.len(),
        forall|k: int| 0 <= k < slots.len() ==> (#[trigger] slots[k]) is None,
    ensures
        awaited(slots, p, l) == servers_below(p, l),
    decreases l,
{
    if l > 0 {
        lemma_awaited_at_first(slots, p, (l - 1) as nat);
    }
}

/// Every connection that arrives and is taken in is one less to wait for.
pub proof fn lemma_awaited_after_arrival<L>(slots: Seq<Option<L>>, p: nat, l: nat, q: nat, link: L)
    requires
        slots.len() == l,
        accepted(slots, p, l, q, link) is Ok,
    ensures
        awaited(accepted(slots, p, l, q, link)->Ok_0, p, l) + 1 == awaited(slots, p, l),
{
    let d = choose|d: nat| d < l && q == peer_of(p, d) && !bit(p, d);
    lemma_awaited_update(slots, p, l, d, link);
}

/// A connection that the party made is none that it waited for.
pub proof fn lemma_awaited_after_dial<L>(slots: Seq<Option<L>>, p: nat, l: nat, d: nat, link: L)
    requires
        slots.len() == l,
        connected(slots, p, l, d, link) is Ok,
    ensures
        awaited(connected(slots, p, l, d, link)->Ok_0, p, l) == awaited(slots, p, l),
{
    lemma_awaited_update(slots, p, l, d, link);
}

/// A table with all its links awaits nothing.
pub proof fn lemma_awaited_at_last<L>(slots: Seq<Option<L>>, p: nat, l: nat)
    requires
        l <= slots.len(),
        complete(slots),
    ensures
        awaited(slots, p, l) == 0,
    decreases l,
{
    if l > 0 {
        lemma_awaited_at_last(slots, p, (l - 1) as nat);
    }
}

/// The two ends of a link agree on it. Where party `p` dials along
/// dimension `d`, the party that it reaches waits for `p`, and takes the
/// link in along the same dimension.
pub proof fn lemma_dial_is_awaited<L>(slots: Seq<Option<L>>, p: nat, l: nat, d: nat, link: L)
    requires
        p < pow2(l),
        d < l,
        bit(p, d),
    ensures
        peer_of(p, d) < pow2(l),
        waits_for(peer_of(p, d), p, l),
        accepted(slots, peer_of(p, d), l, p, link) == placed(slots, d, link),
{
    let q = peer_of(p, d);
    lemma_peer_in_range(p, d, l);
    lemma_peer_block(p, d);
    assert(d < l && p == peer_of(q, d) && !bit(q, d));
    let e = choose|e: nat| e < l && p == peer_of(q, e) && !bit(q, e);
    lemma_dimension_unique(q, e, d);
}

/// Links land where the ids that their peers announce put them, whatever
/// the order in which the connections arrive: where two arrive one after
/// the other and both are taken in, they are taken in in the other order
/// too, and the table is the same.
pub proof fn lemma_arrival_order<L>(
    slots: Seq<Option<L>>,
    p: nat,
    l: nat,
    q1: nat,
    link1: L,
    q2: nat,
    link2: L,
)
    requires
        slots.len() == l,
        accepted(slots, p, l, q1, link1) is Ok,
        accepted(accepted(slots, p, l, q1, link1)->Ok_0, p, l, q2, link2) is Ok,
    ensures
        accepted(slots, p, l, q2, link2) is Ok,
        accepted(accepted(slots, p, l, q2, link2)->Ok_0, p, l, q1, link1) == accepted(
            accepted(slots, p, l, q1, link1)->Ok_0,
            p,
            l,
            q2,
            link2,
        ),
{
    let d1 = choose|d: nat| d < l && q1 == peer_of(p, d) && !bit(p, d);
    let d2 = choose|d: nat| d < l && q2 == peer_of(p, d) && !bit(p, d);
    let one = slots.update(d1 as int, Some(link1));
    let other = slots.update(d2 as int, Some(link2));
    assert(one.update(d2 as int, Some(link2)) =~= other.update(d1 as int, Some(link1)));
}

/// A link that this party dialled and one that it waited for do not get
/// in each other's way either.
pub proof fn lemma_dial_order<L>(
    slots: Seq<Option<L>>,
    p: nat,
    l: nat,
    q: nat,
    link1: L,
    d: nat,
    link2: L,
)
    requires
        slots.len() == l,
        accepted(slots, p, l, q, link1) is Ok,
        connected(slots, p, l, d, link2) is Ok,
    ensures
        connected(accepted(slots, p, l, q, link1)->Ok_0, p, l, d, link2) is Ok,
        accepted(connected(slots, p, l, d, link2)->Ok_0, p, l, q, link1) is Ok,
        accepted(connected(slots, p, l, d, link2)->Ok_0, p, l, q, link1) == connected(
            accepted(slots, p, l, q, link1)->Ok_0,
            p,
            l,
            d,
            link2,
        ),
{
    let d1 = choose|d: nat| d < l && q == peer_of(p, d) && !bit(p, d);
    let one = slots.update(d1 as int, Some(link1));
    let other = slots.update(d as int, Some(link2));
    assert(one.update(d as int, Some(link2)) =~= other.update(d1 as int, Some(link1)));
}

/// The number that four bytes stand for, the most significant first.
pub open spec fn be_value(b: Seq<u8>) -> nat {
    (b[0] * 0x100_0000 + b[1] * 0x1_0000 + b[2] * 0x100 + b[3]) as nat
}

/// What the party that dialled writes first on a connection: its id, as
/// four bytes, the most significant first.
pub fn encode_id(id: Id) -> (b: [u8; 4])
    ensures
        be_value(b@) == id,
{
    assert(((id >> 24) & 0xff) < 0x100 && ((id >> 16) & 0xff) < 0x100 && ((id >> 8) & 0xff) < 0x100
        && (id & 0xff) < 0x100) by (bit_vector);
    assert(id == ((id >> 24) & 0xff) * 0x100_0000 + ((id >> 16) & 0xff) * 0x1_0000 + ((id >> 8)
        & 0xff) * 0x100 + (id & 0xff)) by (bit_vector);
    let b0 = ((id >> 24) & 0xff) as u8;
    let b1 = ((id >> 16) & 0xff) as u8;
    let b2 = ((id >> 8) & 0xff) as u8;
    let b3 = (id & 0xff) as u8;
    [b0, b1, b2, b3]
}

/// The id that the first four bytes on a connection name.
pub fn decode_id(b: [u8; 4]) -> (id: Id)
    ensures
        id == be_value(b@),
{
    (b[0] as u32) * 0x100_0000 + (b[1] as u32) * 0x1_0000 + (b[2] as u32) * 0x100 + (b[3] as u32)
}

/// No two sequences of four bytes stand for the same number: the bytes
/// that name an id are the ones that `encode_id` writes.
pub proof fn lemma_id_bytes_unique(a: Seq<u8>, b: Seq<u8>)
    requires
        a.len() == 4,
        b.len() == 4,
        be_value(a) == be_value(b),
    ensures
        a == b,
{
    let (a0, a1, a2, a3) = (a[0], a[1], a[2], a[3]);
    let (b0, b1, b2, b3) = (b[0], b[1], b[2], b[3]);
    assert(a0 * 0x100_0000 + a1 * 0x1_0000 + a2 * 0x100 + a3 == b0 * 0x100_0000 + b1 * 0x1_0000 + b2
        * 0x100 + b3 ==> a0 == b0 && a1 == b1 && a2 == b2 && a3 == b3) by (bit_vector);
    assert(a =~= b);
}

/// The attempts that are left to reach one peer.
pub struct ConnectRetry {
    remaining: u32,
}

impl ConnectRetry {
    /// How many more attempts may fail before the bootstrap gives up.
    pub closed spec fn left(&self) -> nat {
        self.remaining as nat
    }

    /// All attempts are left.
    pub fn new() -> (r: Self)
        ensures
            r.left() == CONNECT_ATTEMPTS,
    {
        ConnectRetry { remaining: CONNECT_ATTEMPTS }
    }

    /// Counts an attempt that failed, and says whether another is to be
    /// made once the pause is over. The answer is no when the last attempt
    /// has failed.
    pub fn failed(&mut self) -> (again: bool)
        ensures
            final(self).left() == if old(self).left() > 0 {
                old(self).left() - 1
            } else {
                0
            },
            again == (final(self).left() > 0),
    {
        if self.remaining > 0 {
            self.remaining = self.remaining - 1;
        }
        self.remaining > 0
    }
}

} // verus!

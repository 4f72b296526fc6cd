//! What the rounds make of the buffers, for one party and for all of them.
//!
//! A party sees only its own buffer and what its links deliver. Its buffer
//! after some rounds is therefore stated as a function of what it
//! received. That every buffer ends as the concatenation of all blocks is a
//! statement about all parties at once, and holds where each link delivers
//! what the other end handed to it.

use vstd::prelude::*;
use vstd::arithmetic::div_mod::lemma_fundamental_div_mod_converse;
use vstd::arithmetic::power2::pow2;
use crate::hypercube::{lemma_peer_in_range, peer_of};
use crate::topology::schedule::{
    lemma_schedule_bounds,
    lemma_schedule_ends,
    lemma_schedule_step,
    recv_start,
    window_end,
    window_len,
    window_start,
};

verus! {

/// `buf` with the bytes from `at` on replaced by those of `seg`.
pub open spec fn place(buf: Seq<u8>, at: int, seg: Seq<u8>) -> Seq<u8> {
    buf.subrange(0, at) + seg + buf.subrange(at + seg.len(), buf.len() as int)
}

/// The buffer of party `p` after `d` rounds, where it began as `buf0` and
/// round `k` delivered `rx[k]`.
pub open spec fn party_buffer(buf0: Seq<u8>, p: nat, c: nat, rx: Seq<Seq<u8>>, d: nat) -> Seq<u8>
    decreases d,
{
    if d == 0 {
        buf0
    } else {
        let k = (d - 1) as nat;
        place(party_buffer(buf0, p, c, rx, k), recv_start(p, c, k) as int, rx[k as int])
    }
}

/// What party `p` hands to its link in round `d`: the window that it
/// holds by then.
pub open spec fn party_sends(buf0: Seq<u8>, p: nat, c: nat, rx: Seq<Seq<u8>>, d: nat) -> Seq<u8> {
    party_buffer(buf0, p, c, rx, d).subrange(
        window_start(p, c, d) as int,
        window_end(p, c, d) as int,
    )
}

/// The block that party `p` contributes: slot `p` of the buffer that it
/// starts with.
pub open spec fn contribution(buf0: Seq<u8>, p: nat, c: nat) -> Seq<u8> {
    buf0.subrange((p * c) as int, ((p + 1) * c) as int)
}

/// The contributions of all parties, where party `p` starts with the
/// buffer `bufs[p]`.
pub open spec fn contributions(bufs: Seq<Seq<u8>>, c: nat) -> Seq<Seq<u8>> {
    Seq::new(bufs.len(), |p: int| contribution(bufs[p], p as nat, c))
}

/// What an all-gather is to leave in every buffer: the contributions of all
/// parties, one after the other in the order of the ids.
pub open spec fn gathered(bufs: Seq<Seq<u8>>, c: nat) -> Seq<u8> {
    contributions(bufs, c).flatten()
}

/// The buffer in which every byte is that of the party in whose slot it
/// lies.
pub open spec fn by_slot(bufs: Seq<Seq<u8>>, c: nat) -> Seq<u8> {
    Seq::new(bufs.len() * c, |i: int| bufs[i / c as int][i])
}

/// The buffers with which `2^l` parties may start: one for each, of `2^l`
/// blocks.
pub open spec fn buffers_fit(bufs: Seq<Seq<u8>>, c: nat, l: nat) -> bool {
    &&& bufs.len() == pow2(l)
    &&& forall|p: int| 0 <= p < bufs.len() ==> (#[trigger] bufs[p]).len() == pow2(l) * c
}

/// Every link delivers, in every round, what the party at its other end
/// handed to it in that round. `rx[p][d]` is what party `p` receives in
/// round `d`.
pub open spec fn links_deliver(
    bufs: Seq<Seq<u8>>,
    c: nat,
    l: nat,
    rx: Seq<Seq<Seq<u8>>>,
) -> bool {
    &&& rx.len() == bufs.len()
    &&& forall|p: nat, d: nat|
        p < bufs.len() && d < l ==> #[trigger] rx[p as int][d as int] == party_sends(
            bufs[peer_of(p, d) as int],
            peer_of(p, d),
            c,
            rx[peer_of(p, d) as int],
            d,
        )
}

/// Slot `p` of the buffer that is laid out by slots is the contribution of
/// party `p`.
proof fn lemma_slot(bufs: Seq<Seq<u8>>, c: nat, l: nat, p: nat)
    requires
        buffers_fit(bufs, c, l),
        p < pow2(l),
    ensures
        by_slot(bufs, c).len() == pow2(l) * c,
        (p + 1) * c <= pow2(l) * c,
        by_slot(bufs, c).subrange((p * c) as int, ((p + 1) * c) as int) == contribution(
            bufs[p as int],
            p,
            c,
        ),
{
    let n = pow2(l) as int;
    let c = c as int;
    assert((p + 1) * c <= n * c) by (nonlinear_arith)
        requires
            p + 1 <= n,
            c >= 0,
    ;
    assert(p * c + c == (p + 1) * c) by (nonlinear_arith);
    assert(p * c >= 0) by (nonlinear_arith)
        requires
            c >= 0,
    ;
    let g = by_slot(bufs, c as nat);
    assert forall|i: int| p * c <= i < (p + 1) * c implies #[trigger] g[i] == bufs[p as int][i] by {
        lemma_fundamental_div_mod_converse(i, c, p as int, i - p * c);
    }
    assert(by_slot(bufs, c as nat).subrange(p * c, (p + 1) * c) =~= contribution(
        bufs[p as int],
        p,
        c as nat,
    ));
}

/// The first `k` contributions, one after the other, are the first `k`
/// slots of the buffer that is laid out by slots.
proof fn lemma_concatenated(bufs: Seq<Seq<u8>>, c: nat, l: nat, k: nat)
    requires
        buffers_fit(bufs, c, l),
        k <= pow2(l),
    ensures
        contributions(bufs, c).take(k as int).flatten() == by_slot(bufs, c).take((k * c) as int),
        k * c <= pow2(l) * c,
    decreases k,
{
    let all = contributions(bufs, c);
    let g = by_slot(bufs, c);
    assert(k * c <= pow2(l) * c) by (nonlinear_arith)
        requires
            k <= pow2(l),
    ;
    if k == 0 {
        assert(all.take(0).flatten() =~= g.take(0));
    } else {
        let j = (k - 1) as nat;
        lemma_concatenated(bufs, c, l, j);
        lemma_slot(bufs, c, l, j);
        assert(all.take(k as int) =~= all.take(j as int).push(all[j as int]));
        all.take(j as int).lemma_flatten_push(all[j as int]);
        assert(j * c + c == k * c) by (nonlinear_arith)
            requires
                j + 1 == k,
        ;
        assert(g.take((k * c) as int) =~= g.take((j * c) as int) + g.subrange(
            (j * c) as int,
            (k * c) as int,
        ));
    }
}

/// The gathered buffer holds one slot for each party, and in slot `p` the
/// contribution of party `p`.
pub proof fn lemma_gathered_slot(bufs: Seq<Seq<u8>>, c: nat, l: nat, p: nat)
    requires
        buffers_fit(bufs, c, l),
        p < pow2(l),
    ensures
        gathered(bufs, c) == by_slot(bufs, c),
        gathered(bufs, c).len() == pow2(l) * c,
        (p + 1) * c <= pow2(l) * c,
        gathered(bufs, c).subrange((p * c) as int, ((p + 1) * c) as int) == contribution(
            bufs[p as int],
            p,
            c,
        ),
{
    lemma_concatenated(bufs, c, l, pow2(l));
    assert(contributions(bufs, c).take(pow2(l) as int) =~= contributions(bufs, c));
    assert(by_slot(bufs, c).take((pow2(l) * c) as int) =~= by_slot(bufs, c));
    lemma_slot(bufs, c, l, p);
}

/// Whether, after `d` rounds, every party holds within its window what
/// the gathered buffer holds there.
spec fn windows_gathered(bufs: Seq<Seq<u8>>, c: nat, rx: Seq<Seq<Seq<u8>>>, d: nat) -> bool {
    forall|p: nat|
        p < bufs.len() ==> {
            let b = #[trigger] party_buffer(bufs[p as int], p, c, rx[p as int], d);
            &&& b.len() == bufs.len() * c
            &&& forall|i: int|
                window_start(p, c, d) <= i < window_end(p, c, d) ==> b[i] == by_slot(bufs, c)[i]
        }
}

proof fn lemma_windows_gathered(bufs: Seq<Seq<u8>>, c: nat, l: nat, rx: Seq<Seq<Seq<u8>>>, d: nat)
    requires
        buffers_fit(bufs, c, l),
        links_deliver(bufs, c, l, rx),
        d <= l,
    ensures
        windows_gathered(bufs, c, rx, d),
    decreases d,
{
    let n = pow2(l);
    let g = by_slot(bufs, c);
    if d == 0 {
        assert forall|p: nat| p < bufs.len() implies {
            let b = #[trigger] party_buffer(bufs[p as int], p, c, rx[p as int], 0);
            &&& b.len() == bufs.len() * c
            &&& forall|i: int|
                window_start(p, c, 0) <= i < window_end(p, c, 0) ==> b[i] == g[i]
        } by {
            lemma_schedule_ends(p, c, l);
            lemma_slot(bufs, c, l, p);
            let b = party_buffer(bufs[p as int], p, c, rx[p as int], 0);
            assert(b == bufs[p as int]);
            assert forall|i: int| window_start(p, c, 0) <= i < window_end(p, c, 0) implies b[i]
                == g[i] by {
                let lo = (p * c) as int;
                assert(g.subrange(lo, ((p + 1) * c) as int)[i - lo] == contribution(
                    bufs[p as int],
                    p,
                    c,
                )[i - lo]);
            }
        }
    } else {
        let k = (d - 1) as nat;
        lemma_windows_gathered(bufs, c, l, rx, k);
        assert forall|p: nat| p < bufs.len() implies {
            let b = #[trigger] party_buffer(bufs[p as int], p, c, rx[p as int], d);
            &&& b.len() == bufs.len() * c
            &&& forall|i: int|
                window_start(p, c, d) <= i < window_end(p, c, d) ==> b[i] == g[i]
        } by {
            let q = peer_of(p, k);
            lemma_peer_in_range(p, k, l);
            lemma_schedule_step(p, c, k);
            lemma_schedule_bounds(p, c, k, l);
            lemma_schedule_bounds(q, c, k, l);
            let before = party_buffer(bufs[p as int], p, c, rx[p as int], k);
            let theirs = party_buffer(bufs[q as int], q, c, rx[q as int], k);
            let seg = rx[p as int][k as int];
            let at = recv_start(p, c, k) as int;
            let b = party_buffer(bufs[p as int], p, c, rx[p as int], d);
            assert(before.len() == n * c);
            assert(theirs.len() == n * c);
            assert(seg == theirs.subrange(window_start(q, c, k) as int, window_end(q, c, k) as int));
            assert(seg.len() == window_len(c, k));
            assert(b == place(before, at, seg));
            assert(b.len() == n * c);
            assert forall|i: int| window_start(p, c, d) <= i < window_end(p, c, d) implies b[i]
                == g[i] by {
                if at <= i < at + seg.len() {
                    assert(b[i] == seg[i - at]);
                    assert(seg[i - at] == theirs[i]);
                } else {
                    assert(b[i] == before[i]);
                }
            }
        }
    }
}

/// The all-gather. Where `2^l` parties start with buffers of `2^l` blocks
/// each and every link delivers what its other end handed to it, the
/// buffer of every party after `l` rounds is the concatenation of all
/// contributions in the order of the ids.
pub proof fn lemma_all_gather(bufs: Seq<Seq<u8>>, c: nat, l: nat, rx: Seq<Seq<Seq<u8>>>, p: nat)
    requires
        buffers_fit(bufs, c, l),
        links_deliver(bufs, c, l, rx),
        p < pow2(l),
    ensures
        party_buffer(bufs[p as int], p, c, rx[p as int], l) == gathered(bufs, c),
{
    lemma_windows_gathered(bufs, c, l, rx, l);
    lemma_schedule_ends(p, c, l);
    lemma_gathered_slot(bufs, c, l, p);
    let b = party_buffer(bufs[p as int], p, c, rx[p as int], l);
    assert(b =~= by_slot(bufs, c));
}

/// What is gathered depends on the contributions alone: what else the
/// buffers hold when the all-gather begins leaves no trace.
pub proof fn lemma_gathered_from_contributions(bufs1: Seq<Seq<u8>>, bufs2: Seq<Seq<u8>>, c: nat)
    requires
        bufs1.len() == bufs2.len(),
        forall|p: nat|
            p < bufs1.len() ==> #[trigger] contribution(bufs1[p as int], p, c) == contribution(
                bufs2[p as int],
                p,
                c,
            ),
    ensures
        gathered(bufs1, c) == gathered(bufs2, c),
{
    assert forall|p: int| 0 <= p < bufs1.len() implies contributions(bufs1, c)[p]
        == contributions(bufs2, c)[p] by {
        assert(contribution(bufs1[p], p as nat, c) == contribution(bufs2[p], p as nat, c));
    }
    assert(contributions(bufs1, c) =~= contributions(bufs2, c));
}

/// Two all-gathers from the same contributions end alike at every party,
/// whatever else the buffers held before each.
pub proof fn lemma_same_contributions_same_result(
    bufs1: Seq<Seq<u8>>,
    rx1: Seq<Seq<Seq<u8>>>,
    bufs2: Seq<Seq<u8>>,
    rx2: Seq<Seq<Seq<u8>>>,
    c: nat,
    l: nat,
    p: nat,
)
    requires
        buffers_fit(bufs1, c, l),
        buffers_fit(bufs2, c, l),
        links_deliver(bufs1, c, l, rx1),
        links_deliver(bufs2, c, l, rx2),
        forall|q: nat|
            q < pow2(l) ==> #[trigger] contribution(bufs1[q as int], q, c) == contribution(
                bufs2[q as int],
                q,
                c,
            ),
        p < pow2(l),
    ensures
        party_buffer(bufs1[p as int], p, c, rx1[p as int], l) == party_buffer(
            bufs2[p as int],
            p,
            c,
            rx2[p as int],
            l,
        ),
{
    lemma_all_gather(bufs1, c, l, rx1, p);
    lemma_all_gather(bufs2, c, l, rx2, p);
    lemma_gathered_from_contributions(bufs1, bufs2, c);
}

/// A second all-gather, on the buffers that the first one left, leaves
/// them as they are.
pub proof fn lemma_share_twice(
    bufs: Seq<Seq<u8>>,
    rx1: Seq<Seq<Seq<u8>>>,
    rx2: Seq<Seq<Seq<u8>>>,
    c: nat,
    l: nat,
    p: nat,
)
    requires
        buffers_fit(bufs, c, l),
        links_deliver(bufs, c, l, rx1),
        links_deliver(
            Seq::new(bufs.len(), |q: int| party_buffer(bufs[q], q as nat, c, rx1[q], l)),
            c,
            l,
            rx2,
        ),
        p < pow2(l),
    ensures
        party_buffer(
            party_buffer(bufs[p as int], p, c, rx1[p as int], l),
            p,
            c,
            rx2[p as int],
            l,
        ) == party_buffer(bufs[p as int], p, c, rx1[p as int], l),
{
    let after = Seq::new(bufs.len(), |q: int| party_buffer(bufs[q], q as nat, c, rx1[q], l));
    assert forall|q: int| 0 <= q < after.len() implies (#[trigger] after[q]).len() == pow2(l) * c by {
        lemma_all_gather(bufs, c, l, rx1, q as nat);
        lemma_gathered_slot(bufs, c, l, q as nat);
    }
    assert forall|q: nat| q < after.len() implies #[trigger] contribution(after[q as int], q, c)
        == contribution(bufs[q as int], q, c) by {
        lemma_all_gather(bufs, c, l, rx1, q);
        lemma_gathered_slot(bufs, c, l, q);
    }
    lemma_all_gather(bufs, c, l, rx1, p);
    lemma_all_gather(after, c, l, rx2, p);
    lemma_gathered_from_contributions(after, bufs, c);
}

} // verus!

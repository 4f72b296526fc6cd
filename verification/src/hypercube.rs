//! Arithmetic of the hypercube that the parties form.
//!
//! `N = 2^L` parties are the corners of an `L`-dimensional cube. Along
//! dimension `d` party `p` is linked to the party whose id differs from `p`
//! in bit `d` alone. Everything the bootstrap and the engine decide is a
//! function of `p`, `d` and `L`, and is defined here over natural numbers.

use vstd::prelude::*;
use vstd::arithmetic::div_mod::{
    lemma_basic_div,
    lemma_div_denominator,
    lemma_div_minus_one,
    lemma_div_plus_one,
    lemma_fundamental_div_mod,
    lemma_multiply_divide_lt,
};
use vstd::arithmetic::power2::{
    lemma_pow2_adds,
    lemma_pow2_pos,
    lemma_pow2_strictly_increases,
    lemma_pow2_unfold,
    pow2,
};
use vstd::bits::{lemma_u32_pow2_no_overflow, lemma_u32_shl_is_mul, lemma_u32_shr_is_div};
use crate::net_io::Role;

verus! {

/// Whether bit `d` of `p` is set.
pub open spec fn bit(p: nat, d: nat) -> bool {
    (p / pow2(d)) % 2 == 1
}

/// The neighbour of `p` along dimension `d`: `p` with bit `d` flipped.
pub open spec fn peer_of(p: nat, d: nat) -> nat {
    if bit(p, d) {
        (p - pow2(d)) as nat
    } else {
        p + pow2(d)
    }
}

/// The role that `p` plays on its link along dimension `d`.
///
/// The end whose bit `d` is clear waits for the connection and is the
/// server; the end whose bit `d` is set dials and is the client.
pub open spec fn role_of(p: nat, d: nat) -> Role {
    if bit(p, d) {
        Role::Client
    } else {
        Role::Server
    }
}

/// The smallest id among the parties that agree with `p` on every bit from
/// `d` upwards. These `2^d` parties are the ones whose blocks `p` holds
/// before round `d`.
pub open spec fn block_base(p: nat, d: nat) -> nat {
    (p / pow2(d)) * pow2(d)
}

/// How many of the dimensions below `l` party `p` is the server of.
pub open spec fn servers_below(p: nat, l: nat) -> nat
    decreases l,
{
    if l == 0 {
        0
    } else {
        servers_below(p, (l - 1) as nat) + if bit(p, (l - 1) as nat) {
            0nat
        } else {
            1nat
        }
    }
}

/// How many of the dimensions below `l` party `p` is the client of.
pub open spec fn clients_below(p: nat, l: nat) -> nat
    decreases l,
{
    if l == 0 {
        0
    } else {
        clients_below(p, (l - 1) as nat) + if bit(p, (l - 1) as nat) {
            1nat
        } else {
            0nat
        }
    }
}

/// Whether `q` is the neighbour of `p` along some dimension below `l`.
pub open spec fn is_neighbour(p: nat, q: nat, l: nat) -> bool {
    exists|d: nat| d < l && q == peer_of(p, d)
}

/// `1 << d` is `2^d`, and shifting right by `d` divides by it.
pub proof fn lemma_shift_is_pow2(p: u32, d: u32)
    requires
        d < 32,
    ensures
        (1u32 << d) == pow2(d as nat),
        (p >> d) == p as nat / pow2(d as nat),
        0 < pow2(d as nat) <= 0x8000_0000,
{
    lemma_u32_pow2_no_overflow(d as nat);
    lemma_u32_shl_is_mul(1u32, d);
    lemma_u32_shr_is_div(p, d);
    lemma_pow2_pos(d as nat);
    if d < 31 {
        lemma_pow2_strictly_increases(d as nat, 31);
    }
    assert(pow2(31) == 0x8000_0000) by {
        vstd::arithmetic::power2::lemma2_to64();
    }
}

/// The arithmetic reading of a bit agrees with the machine's.
pub proof fn lemma_bit_is_shift(p: u32, d: u32)
    requires
        d < 32,
    ensures
        bit(p as nat, d as nat) <==> (p >> d) & 1u32 == 1u32,
{
    lemma_shift_is_pow2(p, d);
    let s = p >> d;
    assert(s & 1u32 == s % 2u32) by (bit_vector);
}

/// Flipping bit `d` with exclusive or gives the neighbour along `d`.
pub proof fn lemma_peer_is_xor(p: u32, d: u32)
    requires
        d < 32,
    ensures
        peer_of(p as nat, d as nat) == p ^ (1u32 << d),
        peer_of(p as nat, d as nat) <= u32::MAX,
        bit(p as nat, d as nat) <==> (p ^ (1u32 << d)) < p,
{
    lemma_shift_is_pow2(p, d);
    lemma_bit_is_shift(p, d);
    assert((p >> d) & 1u32 == 1u32 ==> (p ^ (1u32 << d)) == p - (1u32 << d) && p >= (1u32 << d))
        by (bit_vector)
        requires
            d < 32,
    ;
    assert((p >> d) & 1u32 != 1u32 ==> (p ^ (1u32 << d)) == p + (1u32 << d) && (1u32 << d) > 0)
        by (bit_vector)
        requires
            d < 32,
    ;
}

/// A party dials along `d` exactly when it lies in the upper half of the
/// block that it will hold after round `d`.
pub proof fn lemma_block_step(p: nat, d: nat)
    ensures
        bit(p, d) ==> block_base(p, d) >= pow2(d),
        block_base(p, d + 1) == if bit(p, d) {
            block_base(p, d) - pow2(d)
        } else {
            block_base(p, d) as int
        },
{
    let a = pow2(d) as int;
    let m = p as int / a;
    lemma_pow2_pos(d);
    lemma_pow2_unfold(d + 1);
    assert(pow2(d + 1) == a * 2) by {
        assert(2 * pow2(d) == pow2(d) * 2) by (nonlinear_arith);
    }
    lemma_div_denominator(p as int, a, 2);
    assert(p as int / (a * 2) == m / 2);
    assert(m >= 0) by {
        vstd::arithmetic::div_mod::lemma_div_pos_is_pos(p as int, a);
    }
    assert((m / 2) * (a * 2) == (m - m % 2) * a) by (nonlinear_arith)
        requires
            m == 2 * (m / 2) + m % 2,
    ;
    assert((m - 1) * a == m * a - a) by (nonlinear_arith);
    if bit(p, d) {
        assert(m >= 1);
        assert(m * a >= a) by (nonlinear_arith)
            requires
                m >= 1,
                a > 0,
        ;
    }
}

/// The neighbour along `d` holds the block next to one's own: below it for
/// the client, above it for the server. Flipping a bit twice gives the
/// party back.
pub proof fn lemma_peer_block(p: nat, d: nat)
    ensures
        bit(p, d) ==> p >= pow2(d),
        bit(peer_of(p, d), d) == !bit(p, d),
        peer_of(peer_of(p, d), d) == p,
        block_base(peer_of(p, d), d) == if bit(p, d) {
            block_base(p, d) - pow2(d)
        } else {
            (block_base(p, d) + pow2(d)) as int
        },
{
    let a = pow2(d) as int;
    let m = p as int / a;
    lemma_pow2_pos(d);
    lemma_fundamental_div_mod(p as int, a);
    assert(m >= 0) by {
        vstd::arithmetic::div_mod::lemma_div_pos_is_pos(p as int, a);
    }
    assert(0 <= p as int % a < a) by {
        vstd::arithmetic::div_mod::lemma_mod_bound(p as int, a);
    }
    assert((m - 1) * a == m * a - a) by (nonlinear_arith);
    assert((m + 1) * a == m * a + a) by (nonlinear_arith);
    if bit(p, d) {
        assert(m * a >= a) by (nonlinear_arith)
            requires
                m >= 1,
                a > 0,
        ;
        assert(a * m == m * a) by (nonlinear_arith);
        lemma_div_minus_one(p as int, a);
        assert((p - a) / a == m - 1);
    } else {
        lemma_div_plus_one(p as int, a);
        assert((p + a) / a == m + 1);
    }
}

/// Among `2^l` parties every neighbour along a dimension below `l` is a
/// party too, and every block lies within the group.
pub proof fn lemma_peer_in_range(p: nat, d: nat, l: nat)
    requires
        p < pow2(l),
        d < l,
    ensures
        peer_of(p, d) < pow2(l),
        peer_of(p, d) != p,
        block_base(p, d) + pow2(d) <= pow2(l),
        block_base(peer_of(p, d), d) + pow2(d) <= pow2(l),
{
    let a = pow2(d) as int;
    let b = pow2((l - d) as nat) as int;
    let m = p as int / a;
    lemma_pow2_pos(d);
    lemma_pow2_adds(d, (l - d) as nat);
    assert(pow2(l) == a * b);
    lemma_pow2_unfold((l - d) as nat);
    let h = pow2((l - d - 1) as nat) as int;
    assert(b == 2 * h);
    lemma_fundamental_div_mod(p as int, a);
    assert(0 <= p as int % a < a) by {
        vstd::arithmetic::div_mod::lemma_mod_bound(p as int, a);
    }
    assert(m >= 0) by {
        vstd::arithmetic::div_mod::lemma_div_pos_is_pos(p as int, a);
    }
    assert(m < b) by {
        assert(b * a == a * b) by (nonlinear_arith);
        lemma_multiply_divide_lt(p as int, a, b);
    }
    assert((m + 1) * a == m * a + a) by (nonlinear_arith);
    assert((m + 2) * a == m * a + 2 * a) by (nonlinear_arith);
    assert(a * m == m * a) by (nonlinear_arith);
    assert((m + 1) * a <= b * a) by (nonlinear_arith)
        requires
            m + 1 <= b,
            a > 0,
    ;
    assert(b * a == a * b) by (nonlinear_arith);
    lemma_peer_block(p, d);
    if !bit(p, d) {
        assert(m + 2 <= b);
        assert((m + 2) * a <= b * a) by (nonlinear_arith)
            requires
                m + 2 <= b,
                a > 0,
        ;
    }
}

/// Before the first round a party holds its own block alone, and after the
/// last the block of the whole group.
pub proof fn lemma_block_ends(p: nat, l: nat)
    requires
        p < pow2(l),
    ensures
        block_base(p, 0) == p,
        block_base(p, l) == 0,
{
    assert(pow2(0) == 1) by {
        vstd::arithmetic::power2::lemma2_to64();
    }
    lemma_pow2_pos(l);
    lemma_basic_div(p as int, pow2(l) as int);
}

/// Every dimension below `l` has one role: the servers and the clients add
/// up to `l`.
pub proof fn lemma_roles_partition(p: nat, l: nat)
    ensures
        servers_below(p, l) + clients_below(p, l) == l,
    decreases l,
{
    if l > 0 {
        lemma_roles_partition(p, (l - 1) as nat);
    }
}

/// A neighbour differs from the party in the bit of its dimension and in
/// no other.
pub proof fn lemma_peer_flips_one_bit(p: u32, d: u32, k: u32)
    requires
        d < 32,
        k < 32,
    ensures
        bit(peer_of(p as nat, d as nat), k as nat) == (bit(p as nat, k as nat) != (k == d)),
{
    lemma_peer_is_xor(p, d);
    let q = p ^ (1u32 << d);
    lemma_bit_is_shift(p, k);
    lemma_bit_is_shift(q, k);
    assert(((p ^ (1u32 << d)) >> k) & 1u32 == 1u32 <==> (((p >> k) & 1u32 == 1u32) != (k == d)))
        by (bit_vector)
        requires
            d < 32,
            k < 32,
    ;
}

/// The two ends of a link have opposite roles, and the end with the
/// smaller id is the server.
pub proof fn lemma_roles_opposite(p: nat, d: nat)
    ensures
        role_of(peer_of(p, d), d) != role_of(p, d),
        role_of(p, d) == Role::Server <==> p < peer_of(p, d),
        role_of(p, d) == Role::Client <==> peer_of(p, d) < p,
{
    lemma_peer_block(p, d);
    lemma_pow2_pos(d);
}

/// A party has one neighbour along each dimension, and no neighbour along
/// two.
pub proof fn lemma_dimension_unique(p: nat, d1: nat, d2: nat)
    requires
        peer_of(p, d1) == peer_of(p, d2),
    ensures
        d1 == d2,
{
    lemma_peer_block(p, d1);
    lemma_peer_block(p, d2);
    lemma_pow2_pos(d1);
    lemma_pow2_pos(d2);
    if d1 < d2 {
        lemma_pow2_strictly_increases(d1, d2);
    }
    if d2 < d1 {
        lemma_pow2_strictly_increases(d2, d1);
    }
}

/// Party 0 dials nobody: it is the server of every link, and waits for all
/// of them.
pub proof fn lemma_first_party_serves(l: nat, d: nat)
    ensures
        role_of(0, d) == Role::Server,
        servers_below(0, l) == l,
        clients_below(0, l) == 0,
    decreases l,
{
    lemma_pow2_pos(d);
    lemma_basic_div(0, pow2(d) as int);
    if l > 0 {
        lemma_first_party_serves((l - 1) as nat, (l - 1) as nat);
    }
}

/// The last of `2^l` parties is the client of every link.
pub proof fn lemma_last_party_dials(l: nat, d: nat)
    requires
        d < l,
    ensures
        role_of((pow2(l) - 1) as nat, d) == Role::Client,
{
    let a = pow2(d) as int;
    let h = pow2((l - d - 1) as nat) as int;
    lemma_pow2_pos(d);
    lemma_pow2_pos((l - d - 1) as nat);
    lemma_pow2_adds(d, (l - d) as nat);
    lemma_pow2_unfold((l - d) as nat);
    assert(pow2(l) == a * (2 * h));
    assert(a * (2 * h) - 1 == (2 * h - 1) * a + (a - 1)) by (nonlinear_arith);
    vstd::arithmetic::div_mod::lemma_fundamental_div_mod_converse(
        pow2(l) - 1,
        a,
        2 * h - 1,
        a - 1,
    );
}

/// The last of `2^l` parties waits for nobody, and dials along every
/// dimension.
pub proof fn lemma_last_party_waits_for_none(l: nat, k: nat)
    requires
        k <= l,
    ensures
        servers_below((pow2(l) - 1) as nat, k) == 0,
        clients_below((pow2(l) - 1) as nat, k) == k,
    decreases k,
{
    if k > 0 {
        lemma_last_party_dials(l, (k - 1) as nat);
        lemma_last_party_waits_for_none(l, (k - 1) as nat);
    }
}

/// An odd number above one, doubled any number of times, is no power of
/// two.
proof fn lemma_odd_multiple(m: nat, l: nat, k: nat)
    requires
        m % 2 == 1,
        m > 1,
    ensures
        m * pow2(l) != pow2(k),
{
    let a = pow2(l) as int;
    lemma_pow2_pos(l);
    if k >= l {
        let e = (k - l) as nat;
        lemma_pow2_adds(l, e);
        lemma_pow2_pos(e);
        if e > 0 {
            lemma_pow2_unfold(e);
        } else {
            assert(pow2(0) == 1) by {
                vstd::arithmetic::power2::lemma2_to64();
            }
        }
        let b = pow2(e) as int;
        assert(m != b);
        assert(m * a != a * b) by (nonlinear_arith)
            requires
                m != b,
                a > 0,
        ;
    } else {
        lemma_pow2_strictly_increases(k, l);
        assert(m * a >= a) by (nonlinear_arith)
            requires
                m >= 1,
                a > 0,
        ;
    }
}

/// The binary logarithm of `n`, or `None` where `n` is no power of two.
pub fn log2_exact(n: usize) -> (r: Option<u32>)
    ensures
        match r {
            Some(l) => n == pow2(l as nat),
            None => forall|k: nat| n != pow2(k),
        },
{
    if n == 0 {
        proof {
            assert forall|k: nat| n != pow2(k) by {
                lemma_pow2_pos(k);
            }
        }
        return None;
    }
    let mut m: usize = n;
    let mut l: u32 = 0;
    proof {
        vstd::arithmetic::power2::lemma2_to64();
    }
    while m % 2 == 0
        invariant
            m >= 1,
            n == m * pow2(l as nat),
            l < 64,
        decreases m,
    {
        proof {
            let a = pow2(l as nat) as int;
            let h = (m / 2) as int;
            lemma_pow2_unfold((l + 1) as nat);
            assert((2 * h) * a == h * (2 * a)) by (nonlinear_arith);
            if l + 1 >= 64 {
                vstd::arithmetic::power2::lemma2_to64();
                lemma_pow2_pos(64);
                if l + 1 > 64 {
                    lemma_pow2_strictly_increases(64, (l + 1) as nat);
                }
                assert(h * (2 * a) >= 2 * a) by (nonlinear_arith)
                    requires
                        h >= 1,
                        a > 0,
                ;
            }
        }
        m = m / 2;
        l = l + 1;
    }
    if m == 1 {
        Some(l)
    } else {
        proof {
            assert forall|k: nat| n != pow2(k) by {
                lemma_odd_multiple(m as nat, l as nat, k);
            }
        }
        None
    }
}

/// The dimension along which `peer_id` is the neighbour of `party_id`
/// among `2^log_n` parties, if it is one.
pub fn dimension_toward(party_id: u32, peer_id: u32, log_n: u32) -> (r: Option<u32>)
    requires
        log_n <= 32,
    ensures
        match r {
            Some(d) => d < log_n && peer_id == peer_of(party_id as nat, d as nat),
            None => !is_neighbour(party_id as nat, peer_id as nat, log_n as nat),
        },
{
    let mask = party_id ^ peer_id;
    proof {
        vstd::std_specs::bits::axiom_u32_trailing_zeros(mask);
        let t = mask.trailing_zeros();
        assert forall|d: nat| d < 32 && peer_id == peer_of(party_id as nat, d) implies mask != 0
            && t == d && mask == (1u32 << t) by {
            let e = d as u32;
            lemma_peer_is_xor(party_id, e);
            assert(peer_id == party_id ^ (1u32 << e) ==> (party_id ^ peer_id) == (1u32 << e))
                by (bit_vector);
            assert(mask == (1u32 << e) ==> mask != 0) by (bit_vector)
                requires
                    e < 32,
            ;
            assert(mask == (1u32 << e) && (mask >> t) & 1u32 == 1u32 ==> t == e) by (bit_vector)
                requires
                    e < 32,
                    t < 32,
            ;
        }
    }
    if mask == 0 {
        return None;
    }
    let index = mask.trailing_zeros();
    if index < log_n && mask == (1u32 << index) {
        proof {
            assert(mask == party_id ^ peer_id ==> peer_id == party_id ^ mask) by (bit_vector);
            lemma_peer_is_xor(party_id, index);
        }
        Some(index)
    } else {
        None
    }
}

/// How many links `party_id` waits for among `2^log_n` parties: one along
/// each dimension of which it is the server.
pub fn accept_count(party_id: u32, log_n: u32) -> (r: u32)
    requires
        log_n <= 32,
    ensures
        r == servers_below(party_id as nat, log_n as nat),
{
    let mut count: u32 = 0;
    let mut d: u32 = 0;
    while d < log_n
        invariant
            d <= log_n <= 32,
            count == servers_below(party_id as nat, d as nat),
            count <= d,
        decreases log_n - d,
    {
        if role_for(party_id, d) == Role::Server {
            count = count + 1;
        }
        d = d + 1;
    }
    count
}

/// The neighbour of `party_id` along dimension `dim`.
pub fn peer(party_id: u32, dim: u32) -> (q: u32)
    requires
        dim < 32,
    ensures
        q == peer_of(party_id as nat, dim as nat),
{
    proof {
        lemma_peer_is_xor(party_id, dim);
    }
    party_id ^ (1u32 << dim)
}

/// The role of `party_id` on its link along dimension `dim`: it dials, and
/// is the client, where the neighbour has the smaller id.
pub fn role_for(party_id: u32, dim: u32) -> (r: Role)
    requires
        dim < 32,
    ensures
        r == role_of(party_id as nat, dim as nat),
{
    proof {
        lemma_peer_is_xor(party_id, dim);
    }
    if peer(party_id, dim) < party_id {
        Role::Client
    } else {
        Role::Server
    }
}

} // verus!

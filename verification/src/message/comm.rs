//! The schedules of the binomial-tree broadcast and reduce operations of a
//! communicator: which peers a process sends to, and how many values it
//! receives, given its rank and the number of processes.
use vstd::prelude::*;
use vstd::arithmetic::power2::{pow2, lemma2_to64, lemma2_to64_rest, lemma_pow2_pos, lemma_pow2_strictly_increases, lemma_pow2_adds};
use vstd::bits::{lemma_usize_pow2_no_overflow, lemma_usize_shl_is_mul};
use crate::message::util::{ceil_log2, is_ceil_log2};

verus! {

/// The peers that `rank` sends to in a broadcast over `size` processes,
/// looking at the `levels` lowest levels from the highest down: at level
/// `l`, a rank that is a multiple of `2^(l+1)` sends to the rank `2^l`
/// above it, if that rank is in the group (below `size`).
pub open spec fn broadcast_peers(rank: nat, size: nat, levels: nat) -> Seq<nat>
    decreases levels,
{
    if levels == 0 {
        Seq::empty()
    } else {
        let l = (levels - 1) as nat;
        let here = if rank % pow2(l + 1) == 0 && rank + pow2(l) < size {
            seq![rank + pow2(l)]
        } else {
            Seq::empty()
        };
        here + broadcast_peers(rank, size, l)
    }
}

/// The number of levels of the binomial tree over `size` processes.
pub open spec fn levels_for(size: nat, levels: nat) -> bool {
    is_ceil_log2(size, levels)
}

/// Twice the largest power of two below a `usize` bound is one past the
/// largest `usize`.
proof fn lemma_usize_width()
    ensures
        2 * pow2((usize::BITS - 1) as nat) == usize::MAX + 1,
{
    lemma2_to64();
    lemma2_to64_rest();
    if usize::BITS == 32 {
        assert(usize::MAX == 0xffff_ffff);
        assert((usize::BITS - 1) as nat == 31);
        assert(pow2(31) == 0x8000_0000);
    } else {
        assert(usize::MAX == 0xffff_ffff_ffff_ffff);
        assert((usize::BITS - 1) as nat == 63);
        assert(pow2(63) == 0x8000_0000_0000_0000);
    }
}

/// The exponent reported for a `size` within the `usize` bound is below the
/// width of `usize`.
proof fn lemma_levels_fit(size: usize, n: nat)
    requires
        is_ceil_log2(size as nat, n),
        size <= pow2((usize::BITS - 1) as nat),
    ensures
        n < usize::BITS,
{
    if n >= usize::BITS {
        if n - 1 > usize::BITS - 1 {
            lemma_pow2_strictly_increases((usize::BITS - 1) as nat, (n - 1) as nat);
        }
    }
}

proof fn lemma_pow2_step(l: nat)
    ensures
        pow2(l + 1) == 2 * pow2(l),
        pow2(l) > 0,
{
    lemma_pow2_adds(l, 1);
    lemma_pow2_pos(l);
    lemma2_to64();
}

/// The ranks that `rank` sends the value to in a broadcast over `size`
/// processes, in the order of sending.
pub fn broadcast_targets(rank: usize, size: usize) -> (v: Vec<usize>)
    requires
        rank < size,
        size <= pow2((usize::BITS - 1) as nat),
    ensures
        exists|levels: nat| #[trigger] levels_for(size as nat, levels)
            && v@.map_values(|t: usize| t as nat) == broadcast_peers(rank as nat, size as nat, levels),
{
    let n = ceil_log2(size);
    let mut v: Vec<usize> = Vec::new();
    let mut level = n;
    proof {
        lemma_levels_fit(size, n as nat);
        lemma_usize_width();
    }
    while level > 0
        invariant
            level <= n,
            n < usize::BITS,
            is_ceil_log2(size as nat, n as nat),
            rank < size,
            size <= pow2((usize::BITS - 1) as nat),
            2 * pow2((usize::BITS - 1) as nat) == usize::MAX + 1,
            v@.map_values(|t: usize| t as nat) + broadcast_peers(rank as nat, size as nat, level as nat)
                == broadcast_peers(rank as nat, size as nat, n as nat),
        decreases level,
    {
        level -= 1;
        proof {
            lemma_pow2_step(level as nat);
            lemma_usize_pow2_no_overflow(level as nat);
            lemma_usize_pow2_no_overflow((level + 1) as nat);
            lemma_usize_shl_is_mul(1, level);
            lemma_usize_shl_is_mul(1, (level + 1) as usize);
            if level < n - 1 {
                lemma_pow2_strictly_increases(level as nat, (n - 1) as nat);
            }
        }
        let one: usize = 1usize << level;
        let two: usize = 1usize << (level + 1);
        let ghost before = v@.map_values(|t: usize| t as nat);
        proof {
            assert(one <= pow2((n - 1) as nat));
        }
        if rank % two == 0 && rank + one < size {
            v.push(rank + one);
            proof {
                assert(v@.map_values(|t: usize| t as nat) =~= before + seq![(rank + one) as nat]);
            }
        } else {
            proof {
                assert(v@.map_values(|t: usize| t as nat) =~= before);
            }
        }
        proof {
            let l = level as nat;
            let here = if (rank as nat) % pow2(l + 1) == 0 && rank + pow2(l) < size {
                seq![(rank + pow2(l)) as nat]
            } else {
                Seq::<nat>::empty()
            };
            assert(broadcast_peers(rank as nat, size as nat, l + 1) == here + broadcast_peers(rank as nat, size as nat, l));
            assert(v@.map_values(|t: usize| t as nat) == before + here);
            assert((before + here) + broadcast_peers(rank as nat, size as nat, l) =~= before + (here
                + broadcast_peers(rank as nat, size as nat, l)));
        }
    }
    proof {
        assert(broadcast_peers(rank as nat, size as nat, 0) =~= Seq::<nat>::empty());
        assert(v@.map_values(|t: usize| t as nat) + Seq::<nat>::empty() =~= v@.map_values(|t: usize| t as nat));
        assert(levels_for(size as nat, n as nat));
    }
    v
}

/// In a broadcast, a rank sends only to ranks above itself and inside the
/// group.
pub proof fn law_broadcast_sends_upward(rank: nat, size: nat, levels: nat)
    ensures
        forall|i: int| 0 <= i < broadcast_peers(rank, size, levels).len() ==>
            rank < #[trigger] broadcast_peers(rank, size, levels)[i] < size,
    decreases levels,
{
    if levels > 0 {
        let l = (levels - 1) as nat;
        law_broadcast_sends_upward(rank, size, l);
        lemma_pow2_step(l);
        let rest = broadcast_peers(rank, size, l);
        let all = broadcast_peers(rank, size, levels);
        assert forall|i: int| 0 <= i < all.len() implies rank < #[trigger] all[i] < size by {
            if rank % pow2(l + 1) == 0 && rank + pow2(l) < size {
                if i > 0 {
                    assert(all[i] == rest[i - 1]);
                }
            } else {
                assert(all[i] == rest[i]);
            }
        }
    }
}

/// The number of levels below `levels` at which `rank` has a partner
/// `rank + 2^l` inside a group of `size`: the values it receives in a reduce,
/// when every one of those levels is a receiving level for it.
pub open spec fn partners_below(rank: nat, size: nat, levels: nat) -> nat
    decreases levels,
{
    if levels == 0 {
        0
    } else {
        let l = (levels - 1) as nat;
        partners_below(rank, size, l) + if rank + pow2(l) < size { 1nat } else { 0nat }
    }
}

/// `t` is the level of the lowest set bit of `rank`.
pub open spec fn lowest_bit(rank: nat, t: nat) -> bool {
    rank % pow2(t + 1) == pow2(t)
}

/// A multiple of `m` leaves a remainder of zero or `m` when divided by `2m`.
proof fn lemma_mod_double(x: nat, l: nat)
    requires
        x % pow2(l) == 0,
    ensures
        x % pow2(l + 1) == 0 || x % pow2(l + 1) == pow2(l),
{
    lemma_pow2_step(l);
    let m = pow2(l) as int;
    vstd::arithmetic::div_mod::lemma_mod_breakdown(x as int, m, 2);
    let b = (x as int / m) % 2;
    assert(0 <= b < 2);
    if b == 0 {
        assert(m * b == 0) by (nonlinear_arith) requires b == 0;
    } else {
        assert(m * b == m) by (nonlinear_arith) requires b == 1;
    }
}

/// What a rank does in a binomial-tree reduce over `size` processes, going
/// through the levels from the lowest up: at each level below that of its
/// lowest set bit it receives one value from the rank `2^l` above it, when
/// that rank is in the group, and folds it into its own; at the level `t` of
/// its lowest set bit it sends its value to the rank `2^t` below it. Returns
/// the number of values received and the rank sent to; the root receives at
/// every level and sends to none.
pub fn reduce_plan(rank: usize, size: usize) -> (plan: (usize, Option<usize>))
    requires
        rank < size,
        size <= pow2((usize::BITS - 1) as nat),
    ensures
        rank == 0 ==> exists|levels: nat| #[trigger] levels_for(size as nat, levels)
            && plan == (partners_below(0, size as nat, levels) as usize, None::<usize>),
        rank > 0 ==> exists|t: nat| #[trigger] lowest_bit(rank as nat, t)
            && plan == (partners_below(rank as nat, size as nat, t) as usize, Some((rank - pow2(t)) as usize)),
{
    let n = ceil_log2(size);
    proof {
        lemma_levels_fit(size, n as nat);
        lemma_usize_width();
        lemma2_to64();
        assert(levels_for(size as nat, n as nat));
    }
    let mut receives: usize = 0;
    let mut level: usize = 0;
    while level < n
        invariant
            level <= n,
            n < usize::BITS,
            is_ceil_log2(size as nat, n as nat),
            rank < size,
            size <= pow2((usize::BITS - 1) as nat),
            2 * pow2((usize::BITS - 1) as nat) == usize::MAX + 1,
            (rank as nat) % pow2(level as nat) == 0,
            receives == partners_below(rank as nat, size as nat, level as nat),
            receives <= level,
        decreases n - level,
    {
        proof {
            lemma_pow2_step(level as nat);
            lemma_usize_pow2_no_overflow(level as nat);
            lemma_usize_pow2_no_overflow((level + 1) as nat);
            lemma_usize_shl_is_mul(1, level);
            lemma_usize_shl_is_mul(1, (level + 1) as usize);
            if level < n - 1 {
                lemma_pow2_strictly_increases(level as nat, (n - 1) as nat);
            }
            lemma_mod_double(rank as nat, level as nat);
        }
        let one: usize = 1usize << level;
        let two: usize = 1usize << (level + 1);
        proof {
            assert(one <= pow2((n - 1) as nat));
        }
        if rank % two == 0 {
            if rank + one < size {
                receives += 1;
            }
            proof {
                assert(partners_below(rank as nat, size as nat, (level + 1) as nat)
                    == partners_below(rank as nat, size as nat, level as nat)
                        + if rank + pow2(level as nat) < size { 1nat } else { 0nat });
            }
        } else {
            proof {
                assert(lowest_bit(rank as nat, level as nat));
                vstd::arithmetic::div_mod::lemma_mod_decreases(rank as nat, pow2((level + 1) as nat));
                assert(rank >= one);
            }
            return (receives, Some(rank - one));
        }
        level += 1;
    }
    proof {
        vstd::arithmetic::div_mod::lemma_small_mod(rank as nat, pow2(n as nat));
        assert(rank == 0);
    }
    (receives, None)
}

/// In a reduce, a rank other than the root sends to the rank `2^t` below
/// it, where `t` is the level of its lowest set bit; that rank is a multiple
/// of `2^(t+1)`, so at level `t` it is receiving, and its partner there is
/// the sender: every send is met by a receive.
pub proof fn law_reduce_send_is_received(rank: nat, t: nat)
    requires
        rank > 0,
        lowest_bit(rank, t),
    ensures
        0 <= rank - pow2(t) < rank,
        ((rank - pow2(t)) as nat) % pow2(t + 1) == 0,
        (rank - pow2(t)) + pow2(t) == rank,
{
    lemma_pow2_step(t);
    let m = pow2(t + 1) as int;
    vstd::arithmetic::div_mod::lemma_fundamental_div_mod(rank as int, m);
    let q = rank as int / m;
    assert(rank == m * q + pow2(t));
    assert(rank >= pow2(t));
    vstd::arithmetic::div_mod::lemma_mod_multiples_basic(q, m);
    assert(m * q == q * m) by (nonlinear_arith);
}

/// A rank has one lowest set bit.
proof fn lemma_lowest_bit_unique(c: nat, a: nat, b: nat)
    requires
        lowest_bit(c, a),
        lowest_bit(c, b),
    ensures
        a == b,
{
    if a != b {
        let (x, y) = if a < b { (a, b) } else { (b, a) };
        lemma_pow2_step(y);
        lemma_pow2_step(x);
        let m = pow2(y + 1) as int;
        vstd::arithmetic::div_mod::lemma_fundamental_div_mod(c as int, m);
        let q = c as int / m;
        let gap = (y - (x + 1)) as nat;
        lemma_pow2_adds(x + 1, gap);
        assert((x + 1 + gap) as nat == y);
        let px = pow2(x + 1) as int;
        let pg = pow2(gap) as int;
        let py = pow2(y) as int;
        assert(c as int == m * q + py);
        assert(py == px * pg);
        assert(c as int == (pg * (2 * q + 1)) * px) by (nonlinear_arith)
            requires
                c as int == m * q + py,
                m == 2 * py,
                py == px * pg,
        ;
        assert(q >= 0) by {
            vstd::arithmetic::div_mod::lemma_div_pos_is_pos(c as int, m);
        }
        lemma_pow2_pos(gap);
        assert(pg * (2 * q + 1) >= 0) by (nonlinear_arith)
            requires
                pg > 0,
                q >= 0,
        ;
        vstd::arithmetic::div_mod::lemma_mod_multiples_basic(pg * (2 * q + 1), px);
        assert(c % pow2(x + 1) == 0);
        assert(pow2(x) > 0);
    }
}

/// The rank `2^l` above a multiple of `2^(l+1)` has its lowest set bit at
/// level `l`.
proof fn lemma_child_lowest_bit(r: nat, l: nat)
    requires
        r % pow2(l + 1) == 0,
    ensures
        lowest_bit(r + pow2(l), l),
{
    lemma_pow2_step(l);
    let m = pow2(l + 1) as int;
    vstd::arithmetic::div_mod::lemma_fundamental_div_mod(r as int, m);
    let q = r as int / m;
    vstd::arithmetic::div_mod::lemma_fundamental_div_mod_converse((r + pow2(l)) as int, m, q, pow2(l) as int);
}

/// A rank is among the targets of `r` in a broadcast exactly when it is
/// `r + 2^l` for a level `l` below `levels` at which `r` is a multiple of
/// `2^(l+1)`, and it is in the group.
proof fn lemma_broadcast_peers_contains(r: nat, size: nat, levels: nat, q: nat)
    ensures
        broadcast_peers(r, size, levels).contains(q) <==> exists|l: nat|
            l < levels && #[trigger] (r % pow2(l + 1)) == 0 && q == r + pow2(l) && q < size,
    decreases levels,
{
    if levels > 0 {
        let l0 = (levels - 1) as nat;
        lemma_broadcast_peers_contains(r, size, l0, q);
        let rest = broadcast_peers(r, size, l0);
        let here = if r % pow2(l0 + 1) == 0 && r + pow2(l0) < size {
            seq![r + pow2(l0)]
        } else {
            Seq::<nat>::empty()
        };
        assert(broadcast_peers(r, size, levels) == here + rest);
        if (here + rest).contains(q) {
            let i = choose|i: int| 0 <= i < (here + rest).len() && (here + rest)[i] == q;
            if i >= here.len() {
                assert(rest[i - here.len()] == q);
                let l = choose|l: nat| l < l0 && #[trigger] (r % pow2(l + 1)) == 0 && q == r + pow2(l) && q < size;
                assert(l < levels && (r % pow2(l + 1)) == 0 && q == r + pow2(l) && q < size);
            } else {
                assert(l0 < levels && (r % pow2(l0 + 1)) == 0 && q == r + pow2(l0) && q < size);
            }
        }
        if exists|l: nat| l < levels && #[trigger] (r % pow2(l + 1)) == 0 && q == r + pow2(l) && q < size {
            let l = choose|l: nat| l < levels && #[trigger] (r % pow2(l + 1)) == 0 && q == r + pow2(l) && q < size;
            if l == l0 {
                assert((here + rest)[0] == q);
            } else {
                assert(rest.contains(q));
                let i = choose|i: int| 0 <= i < rest.len() && rest[i] == q;
                assert((here + rest)[here.len() + i] == q);
            }
        }
    }
}

/// In a broadcast over `size` processes, each rank `q` other than the root
/// is sent the value by exactly one rank: `q - 2^t`, where `t` is the level
/// of its lowest set bit; and no rank sends to the root.
pub proof fn law_broadcast_reaches_each_rank_once(q: nat, size: nat, levels: nat, t: nat, r: nat)
    requires
        levels_for(size, levels),
        q < size,
    ensures
        q > 0 && lowest_bit(q, t) ==> (broadcast_peers(r, size, levels).contains(q) <==> r + pow2(t) == q),
        !broadcast_peers(r, size, levels).contains(0),
{
    lemma_broadcast_peers_contains(r, size, levels, q);
    lemma_broadcast_peers_contains(r, size, levels, 0);
    if broadcast_peers(r, size, levels).contains(0) {
        let l = choose|l: nat| l < levels && #[trigger] (r % pow2(l + 1)) == 0 && 0 == r + pow2(l) && 0 < size;
        lemma_pow2_step(l);
    }
    if q > 0 && lowest_bit(q, t) {
        if broadcast_peers(r, size, levels).contains(q) {
            let l = choose|l: nat| l < levels && #[trigger] (r % pow2(l + 1)) == 0 && q == r + pow2(l) && q < size;
            lemma_child_lowest_bit(r, l);
            lemma_lowest_bit_unique(q, l, t);
        }
        if r + pow2(t) == q {
            law_reduce_send_is_received(q, t);
            // the level t is below the number of levels: 2^t <= q < size <= 2^levels
            if t >= levels {
                if t > levels {
                    lemma_pow2_strictly_increases(levels, t);
                }
            }
            assert(t < levels);
            assert((r % pow2(t + 1)) == 0);
        }
    }
}

/// In a reduce, a rank `c > 0` sends its value to `r` exactly when it is
/// `r + 2^l` for a level `l` at which `r` is a multiple of `2^(l+1)`, that
/// is, a level at which `r` receives. So the values `r` receives, counted by
/// `partners_below`, are exactly those of the ranks that send to it, and
/// since every rank sends to a lower one, every value is folded into the
/// root's.
pub proof fn law_reduce_children(c: nat, t: nat, r: nat)
    requires
        c > 0,
        lowest_bit(c, t),
    ensures
        (c - pow2(t) == r) <==> exists|l: nat| #[trigger] (r % pow2(l + 1)) == 0 && c == r + pow2(l),
{
    law_reduce_send_is_received(c, t);
    if exists|l: nat| #[trigger] (r % pow2(l + 1)) == 0 && c == r + pow2(l) {
        let l = choose|l: nat| #[trigger] (r % pow2(l + 1)) == 0 && c == r + pow2(l);
        lemma_child_lowest_bit(r, l);
        lemma_lowest_bit_unique(c, l, t);
    }
    if c - pow2(t) == r {
        assert((r % pow2(t + 1)) == 0 && c == r + pow2(t));
    }
}

/// In a reduce, rank `c` sends its value to `r`: `c` is not the root, and
/// `r` is `c` with its lowest set bit cleared.
pub open spec fn reduce_sends_to(c: nat, r: nat) -> bool {
    c > 0 && exists|t: nat| #[trigger] lowest_bit(c, t) && c == r + pow2(t)
}

/// The ranks of a group of `size` processes that send their value to `r`
/// in a reduce.
pub open spec fn reduce_senders(r: nat, size: nat) -> Set<nat> {
    Set::new(|c: nat| c < size && reduce_sends_to(c, r))
}

/// A multiple of `2^a` is a multiple of every smaller power of two.
proof fn lemma_mod_pow2_down(x: nat, a: nat, b: nat)
    requires
        x % pow2(a) == 0,
        b <= a,
    ensures
        x % pow2(b) == 0,
{
    let d = (a - b) as nat;
    lemma_pow2_adds(b, d);
    assert(b + d == a);
    lemma_pow2_pos(a);
    lemma_pow2_pos(b);
    lemma_pow2_pos(d);
    let m = pow2(a) as int;
    let pb = pow2(b) as int;
    let pd = pow2(d) as int;
    vstd::arithmetic::div_mod::lemma_fundamental_div_mod(x as int, m);
    let q = x as int / m;
    assert(q >= 0) by {
        vstd::arithmetic::div_mod::lemma_div_pos_is_pos(x as int, m);
    }
    assert(x as int == (pd * q) * pb) by (nonlinear_arith)
        requires
            x as int == m * q,
            m == pb * pd,
    ;
    assert(pd * q >= 0) by (nonlinear_arith)
        requires
            pd > 0,
            q >= 0,
    ;
    vstd::arithmetic::div_mod::lemma_mod_multiples_basic(pd * q, pb);
}

/// A rank whose lowest set bit is at level `t` is a multiple of `2^t`.
proof fn lemma_lowest_bit_multiple(r: nat, t: nat)
    requires
        lowest_bit(r, t),
    ensures
        r % pow2(t) == 0,
{
    lemma_pow2_step(t);
    let m = pow2(t + 1) as int;
    let p = pow2(t) as int;
    vstd::arithmetic::div_mod::lemma_fundamental_div_mod(r as int, m);
    let q = r as int / m;
    assert(q >= 0) by {
        vstd::arithmetic::div_mod::lemma_div_pos_is_pos(r as int, m);
    }
    assert(r as int == (2 * q + 1) * p) by (nonlinear_arith)
        requires
            r as int == m * q + p,
            m == 2 * p,
    ;
    vstd::arithmetic::div_mod::lemma_mod_multiples_basic(2 * q + 1, p);
}

/// The ranks `r + 2^l` of the group, for the levels `l` below `k`: there
/// are `partners_below(r, size, k)` of them.
proof fn lemma_partner_count(r: nat, size: nat, k: nat)
    ensures
        Set::new(|c: nat| c < size && exists|l: nat| l < k && c == r + #[trigger] pow2(l)).finite(),
        Set::new(|c: nat| c < size && exists|l: nat| l < k && c == r + #[trigger] pow2(l)).len()
            == partners_below(r, size, k),
    decreases k,
{
    let sk = Set::new(|c: nat| c < size && exists|l: nat| l < k && c == r + #[trigger] pow2(l));
    if k == 0 {
        assert(sk =~= Set::empty());
    } else {
        let k0 = (k - 1) as nat;
        lemma_partner_count(r, size, k0);
        let s0 = Set::new(|c: nat| c < size && exists|l: nat| l < k0 && c == r + #[trigger] pow2(l));
        let top = r + pow2(k0);
        assert(!s0.contains(top)) by {
            if s0.contains(top) {
                let l = choose|l: nat| l < k0 && top == r + #[trigger] pow2(l);
                lemma_pow2_strictly_increases(l, k0);
            }
        }
        if top < size {
            assert(sk =~= s0.insert(top)) by {
                assert forall|c: nat| sk.contains(c) implies s0.insert(top).contains(c) by {
                    let l = choose|l: nat| l < k && c == r + #[trigger] pow2(l);
                    if l < k0 {
                        assert(s0.contains(c));
                    }
                }
            }
        } else {
            assert(sk =~= s0) by {
                assert forall|c: nat| sk.contains(c) implies s0.contains(c) by {
                    let l = choose|l: nat| l < k && c == r + #[trigger] pow2(l);
                    if l < k0 {
                        assert(s0.contains(c));
                    }
                }
            }
        }
    }
}

/// In a reduce, every rank receives exactly as many values as there are
/// ranks that send to it. The bound `n` is the one in `reduce_plan`'s
/// result: the number of levels for the root, and the level of the lowest
/// set bit for any other rank.
pub proof fn law_reduce_receives_match_senders(r: nat, size: nat, n: nat)
    requires
        r < size,
        r == 0 ==> levels_for(size, n),
        r > 0 ==> lowest_bit(r, n),
    ensures
        reduce_senders(r, size).finite(),
        partners_below(r, size, n) == reduce_senders(r, size).len(),
{
    let below = Set::new(|c: nat| c < size && exists|l: nat| l < n && c == r + #[trigger] pow2(l));
    lemma_partner_count(r, size, n);
    if r > 0 {
        lemma_lowest_bit_multiple(r, n);
    }
    assert forall|c: nat| reduce_senders(r, size).contains(c) implies below.contains(c) by {
        let t = choose|t: nat| #[trigger] lowest_bit(c, t) && c == r + pow2(t);
        law_reduce_send_is_received(c, t);
        if t >= n {
            if r == 0 {
                if t > n {
                    lemma_pow2_strictly_increases(n, t);
                }
            } else {
                lemma_mod_pow2_down(r, t + 1, n + 1);
                lemma_pow2_pos(n);
            }
        }
        assert(t < n && c == r + pow2(t));
    }
    assert forall|c: nat| below.contains(c) implies reduce_senders(r, size).contains(c) by {
        let l = choose|l: nat| l < n && c == r + #[trigger] pow2(l);
        if r > 0 {
            lemma_mod_pow2_down(r, n, l + 1);
        } else {
            lemma_pow2_pos(l + 1);
            vstd::arithmetic::div_mod::lemma_small_mod(0, pow2(l + 1));
        }
        lemma_child_lowest_bit(r, l);
        lemma_pow2_pos(l);
        assert(lowest_bit(c, l) && c == r + pow2(l));
    }
    assert(reduce_senders(r, size) =~= below);
}

/// A rank sends the value to each of its targets once.
pub proof fn law_broadcast_targets_distinct(r: nat, size: nat, levels: nat)
    ensures
        broadcast_peers(r, size, levels).no_duplicates(),
    decreases levels,
{
    if levels > 0 {
        let l0 = (levels - 1) as nat;
        law_broadcast_targets_distinct(r, size, l0);
        let rest = broadcast_peers(r, size, l0);
        let here = if r % pow2(l0 + 1) == 0 && r + pow2(l0) < size {
            seq![r + pow2(l0)]
        } else {
            Seq::<nat>::empty()
        };
        let all = broadcast_peers(r, size, levels);
        assert(all == here + rest);
        if here.len() > 0 {
            lemma_broadcast_peers_contains(r, size, l0, r + pow2(l0));
            if rest.contains(r + pow2(l0)) {
                let l = choose|l: nat| l < l0 && #[trigger] (r % pow2(l + 1)) == 0 && r + pow2(l0) == r + pow2(l) && r + pow2(l0) < size;
                lemma_pow2_strictly_increases(l, l0);
            }
        }
        assert forall|i: int, j: int| 0 <= i < all.len() && 0 <= j < all.len() && i != j implies all[i] != all[j] by {
            if i >= here.len() && j >= here.len() {
                assert(all[i] == rest[i - here.len()] && all[j] == rest[j - here.len()]);
            } else if i < here.len() {
                assert(j >= here.len());
                assert(rest.contains(all[j]));
            } else {
                assert(rest.contains(all[i]));
            }
        }
    }
}

} // verus!

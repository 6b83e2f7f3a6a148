//! The bit-sliced kernel runs 64 machines in one instruction stream, and no
//! machine influences another: what lane `k` settles to depends on lane `k`
//! alone. The sweep's early exits are lane-uniform (a pass that moved
//! nothing in any lane, a round that changed nothing in any lane), and this
//! module shows that they never cut a lane short: a lane that a pass leaves
//! alone is at its own fixed point, and stays there.

use vstd::prelude::*;
use crate::bitset::bit_of;
use crate::engine::{Drive, drive_level};
use crate::slice::{
    SliceNetlist, SliceState, SliceModel, Planes, Lanes, Flow, mask, own_planes, exchange, sweep, sweep_all, spread, high_of,
    round_spec, rounds, lane_put,
};

verus! {

/// Bit `k` of a word: machine `k`'s value.
pub open spec fn bit(x: u64, k: u64) -> bool {
    (x >> k) & 1u64 == 1u64
}

/// Machine `k`'s column of a bit-sliced array.
pub open spec fn lane(v: Seq<u64>, k: u64) -> Seq<bool> {
    Seq::new(v.len(), |i: int| bit(v[i], k))
}

/// Two sets of planes agree in lane `k`.
pub open spec fn planes_agree(p: Planes, q: Planes, k: u64) -> bool {
    &&& lane(p.charged, k) == lane(q.charged, k)
    &&& lane(p.pullup, k) == lane(q.pullup, k)
    &&& lane(p.pulldown, k) == lane(q.pulldown, k)
    &&& lane(p.vcc, k) == lane(q.vcc, k)
    &&& lane(p.vss, k) == lane(q.vss, k)
}

/// Every plane has one word per node.
pub open spec fn planes_sized(p: Planes, n: nat) -> bool {
    &&& p.charged.len() == n
    &&& p.pullup.len() == n
    &&& p.pulldown.len() == n
    &&& p.vcc.len() == n
    &&& p.vss.len() == n
}

/// Two machine states agree in lane `k`.
pub open spec fn lanes_agree(a: Lanes, b: Lanes, k: u64) -> bool {
    &&& lane(a.value, k) == lane(b.value, k)
    &&& lane(a.pullup, k) == lane(b.pullup, k)
    &&& lane(a.pulldown, k) == lane(b.pulldown, k)
    &&& lane(a.trans_on, k) == lane(b.trans_on, k)
}

/// A machine state has the netlist's shape.
pub open spec fn lanes_sized(st: Lanes, s: SliceModel) -> bool {
    &&& st.value.len() == s.node_count
    &&& st.pullup.len() == s.node_count
    &&& st.pulldown.len() == s.node_count
    &&& st.trans_on.len() == s.trans_count
}

// ---------------------------------------------------------------------------
// Bits
// ---------------------------------------------------------------------------

proof fn lemma_bits(x: u64, y: u64, k: u64)
    requires
        k < 64,
    ensures
        bit(x | y, k) == (bit(x, k) || bit(y, k)),
        bit(x & y, k) == (bit(x, k) && bit(y, k)),
        bit(x ^ y, k) == (bit(x, k) != bit(y, k)),
        bit(!x, k) == !bit(x, k),
        !bit(0u64, k),
        bit(0xffff_ffff_ffff_ffffu64, k),
{
    assert(bit(x | y, k) == (bit(x, k) || bit(y, k))) by (bit_vector)
        requires
            k < 64,
    ;
    assert(bit(x & y, k) == (bit(x, k) && bit(y, k))) by (bit_vector)
        requires
            k < 64,
    ;
    assert(bit(x ^ y, k) == (bit(x, k) != bit(y, k))) by (bit_vector)
        requires
            k < 64,
    ;
    assert(bit(!x, k) == !bit(x, k)) by (bit_vector)
        requires
            k < 64,
    ;
    assert(!bit(0u64, k)) by (bit_vector)
        requires
            k < 64,
    ;
    assert(bit(0xffff_ffff_ffff_ffffu64, k)) by (bit_vector)
        requires
            k < 64,
    ;
}

proof fn lemma_lane_at(v: Seq<u64>, k: u64, i: int)
    requires
        0 <= i < v.len(),
    ensures
        lane(v, k)[i] == bit(v[i], k),
{
}

// ---------------------------------------------------------------------------
// One exchange, one pass
// ---------------------------------------------------------------------------

/// Two planes that agree in lane `k` still agree after the same exchange,
/// and the moved bits agree in lane `k`.
proof fn lemma_exchange_agree(
    p1: Seq<u64>,
    p2: Seq<u64>,
    a: int,
    b: int,
    on1: u64,
    on2: u64,
    flow: Flow,
    k: u64,
)
    requires
        k < 64,
        p1.len() == p2.len(),
        0 <= a < p1.len(),
        0 <= b < p1.len(),
        lane(p1, k) == lane(p2, k),
        bit(on1, k) == bit(on2, k),
    ensures
        exchange(p1, a, b, on1, flow).0.len() == p1.len(),
        exchange(p2, a, b, on2, flow).0.len() == p2.len(),
        lane(exchange(p1, a, b, on1, flow).0, k) == lane(exchange(p2, a, b, on2, flow).0, k),
        bit(exchange(p1, a, b, on1, flow).1, k) == bit(exchange(p2, a, b, on2, flow).1, k),
{
    let (pa1, pb1, pa2, pb2) = (p1[a], p1[b], p2[a], p2[b]);
    lemma_lane_at(p1, k, a);
    lemma_lane_at(p2, k, a);
    lemma_lane_at(p1, k, b);
    lemma_lane_at(p2, k, b);
    assert(lane(p1, k)[a] == lane(p2, k)[a]);
    assert(lane(p1, k)[b] == lane(p2, k)[b]);
    lemma_bits(pa1, on1, k);
    lemma_bits(pb1, on1, k);
    lemma_bits(pa2, on2, k);
    lemma_bits(pb2, on2, k);
    lemma_bits(pb1, pa1 & on1, k);
    lemma_bits(pa1, pb1 & on1, k);
    lemma_bits(pb2, pa2 & on2, k);
    lemma_bits(pa2, pb2 & on2, k);
    let nb1 = pb1 | (pa1 & on1);
    let nb2 = pb2 | (pa2 & on2);
    let na1 = pa1 | (pb1 & on1);
    let na2 = pa2 | (pb2 & on2);
    lemma_bits(nb1, pb1, k);
    lemma_bits(nb2, pb2, k);
    lemma_bits(na1, pa1, k);
    lemma_bits(na2, pa2, k);
    lemma_bits(nb1 ^ pb1, na1 ^ pa1, k);
    lemma_bits(nb2 ^ pb2, na2 ^ pa2, k);
    lemma_bits(0u64, na1 ^ pa1, k);
    lemma_bits(0u64, na2 ^ pa2, k);
    assert(bit(pa1, k) == bit(pa2, k));
    assert(bit(pb1, k) == bit(pb2, k));
    assert(bit(nb1, k) == bit(nb2, k));
    assert(bit(na1, k) == bit(na2, k));
    assert(bit(nb1 ^ pb1, k) == bit(nb2 ^ pb2, k));
    assert(bit(na1 ^ pa1, k) == bit(na2 ^ pa2, k));
    let r1 = exchange(p1, a, b, on1, flow);
    let r2 = exchange(p2, a, b, on2, flow);
    if flow != Flow::C2ToC1 && flow != Flow::C1ToC2 {
        assert(r1.1 == (nb1 ^ pb1) | (na1 ^ pa1));
        assert(r2.1 == (nb2 ^ pb2) | (na2 ^ pa2));
        assert(r1.0 == p1.update(b, nb1).update(a, na1));
        assert(r2.0 == p2.update(b, nb2).update(a, na2));
    } else if flow != Flow::C2ToC1 {
        assert(r1.1 == nb1 ^ pb1);
        assert(r2.1 == nb2 ^ pb2);
        assert(r1.0 == p1.update(b, nb1));
        assert(r2.0 == p2.update(b, nb2));
    } else {
        assert(r1.1 == 0u64 | (na1 ^ pa1));
        assert(r2.1 == 0u64 | (na2 ^ pa2));
        assert(r1.0 == p1.update(a, na1));
        assert(r2.0 == p2.update(a, na2));
    }
    assert(lane(r1.0, k) =~= lane(r2.0, k)) by {
        assert forall|i: int| 0 <= i < p1.len() implies lane(r1.0, k)[i] == lane(r2.0, k)[i] by {
            lemma_lane_at(p1, k, i);
            lemma_lane_at(p2, k, i);
            lemma_lane_at(r1.0, k, i);
            lemma_lane_at(r2.0, k, i);
            assert(lane(p1, k)[i] == lane(p2, k)[i]);
        }
    }
}

/// An exchange whose switch is open in lane `k` leaves lane `k` alone and
/// moves nothing there.
proof fn lemma_exchange_open(p: Seq<u64>, a: int, b: int, on: u64, flow: Flow, k: u64)
    requires
        k < 64,
        0 <= a < p.len(),
        0 <= b < p.len(),
        !bit(on, k),
    ensures
        exchange(p, a, b, on, flow).0.len() == p.len(),
        lane(exchange(p, a, b, on, flow).0, k) == lane(p, k),
        !bit(exchange(p, a, b, on, flow).1, k),
{
    let (pa, pb) = (p[a], p[b]);
    lemma_bits(pa, on, k);
    lemma_bits(pb, on, k);
    lemma_bits(pb, pa & on, k);
    lemma_bits(pa, pb & on, k);
    let nb = pb | (pa & on);
    let na = pa | (pb & on);
    lemma_bits(nb, pb, k);
    lemma_bits(na, pa, k);
    lemma_bits(nb ^ pb, na ^ pa, k);
    lemma_bits(0u64, na ^ pa, k);
    let r = exchange(p, a, b, on, flow);
    assert(lane(r.0, k) =~= lane(p, k)) by {
        assert forall|i: int| 0 <= i < p.len() implies lane(r.0, k)[i] == lane(p, k)[i] by {
            lemma_lane_at(p, k, i);
            lemma_lane_at(r.0, k, i);
        }
    }
}

/// An exchange that moves nothing in lane `k` leaves lane `k` alone.
proof fn lemma_exchange_still(p: Seq<u64>, a: int, b: int, on: u64, flow: Flow, k: u64)
    requires
        k < 64,
        0 <= a < p.len(),
        0 <= b < p.len(),
        !bit(exchange(p, a, b, on, flow).1, k),
    ensures
        lane(exchange(p, a, b, on, flow).0, k) == lane(p, k),
{
    let (pa, pb) = (p[a], p[b]);
    let nb = pb | (pa & on);
    let na = pa | (pb & on);
    lemma_bits(nb, pb, k);
    lemma_bits(na, pa, k);
    lemma_bits(nb ^ pb, na ^ pa, k);
    lemma_bits(0u64, na ^ pa, k);
    let r = exchange(p, a, b, on, flow);
    assert(lane(r.0, k) =~= lane(p, k)) by {
        assert forall|i: int| 0 <= i < p.len() implies lane(r.0, k)[i] == lane(p, k)[i] by {
            lemma_lane_at(p, k, i);
            lemma_lane_at(r.0, k, i);
        }
    }
}

/// The switch positions of two states agree in lane `k`.
pub open spec fn on_agree(on1: Seq<u64>, on2: Seq<u64>, k: u64) -> bool {
    &&& on1.len() == on2.len()
    &&& forall|i: int| 0 <= i < on1.len() ==> bit(#[trigger] on1[i], k) == bit(on2[i], k)
}

proof fn lemma_sweep_agree(
    s: SliceModel,
    on1: Seq<u64>,
    on2: Seq<u64>,
    p1: Seq<u64>,
    p2: Seq<u64>,
    t: nat,
    k: u64,
)
    requires
        k < 64,
        s.wf(),
        t <= s.trans_count,
        on1.len() == s.trans_count,
        on_agree(on1, on2, k),
        p1.len() == s.node_count,
        p2.len() == s.node_count,
        lane(p1, k) == lane(p2, k),
    ensures
        sweep(s, on1, p1, t).0.len() == s.node_count,
        sweep(s, on2, p2, t).0.len() == s.node_count,
        lane(sweep(s, on1, p1, t).0, k) == lane(sweep(s, on2, p2, t).0, k),
        bit(sweep(s, on1, p1, t).1, k) == bit(sweep(s, on2, p2, t).1, k),
    decreases t,
{
    if t > 0 {
        lemma_sweep_agree(s, on1, on2, p1, p2, (t - 1) as nat, k);
        let (q1, m1) = sweep(s, on1, p1, (t - 1) as nat);
        let (q2, m2) = sweep(s, on2, p2, (t - 1) as nat);
        let i = t - 1;
        let (a, b) = (s.c1[i] as int, s.c2[i] as int);
        let skip1 = on1[i] == 0 || s.flow[i] == Flow::Stopped;
        let skip2 = on2[i] == 0 || s.flow[i] == Flow::Stopped;
        assert(bit(on1[i], k) == bit(on2[i], k));
        lemma_bits(0u64, 0u64, k);
        if skip1 && skip2 {
        } else if skip1 {
            if s.flow[i] != Flow::Stopped {
                lemma_exchange_open(q2, a, b, on2[i], s.flow[i], k);
                lemma_bits(m2, exchange(q2, a, b, on2[i], s.flow[i]).1, k);
            }
        } else if skip2 {
            if s.flow[i] != Flow::Stopped {
                lemma_exchange_open(q1, a, b, on1[i], s.flow[i], k);
                lemma_bits(m1, exchange(q1, a, b, on1[i], s.flow[i]).1, k);
            }
        } else {
            lemma_exchange_agree(q1, q2, a, b, on1[i], on2[i], s.flow[i], k);
            lemma_bits(m1, exchange(q1, a, b, on1[i], s.flow[i]).1, k);
            lemma_bits(m2, exchange(q2, a, b, on2[i], s.flow[i]).1, k);
        }
    }
}

proof fn lemma_sweep_still(s: SliceModel, on: Seq<u64>, p: Seq<u64>, t: nat, k: u64)
    requires
        k < 64,
        s.wf(),
        t <= s.trans_count,
        on.len() == s.trans_count,
        p.len() == s.node_count,
        !bit(sweep(s, on, p, t).1, k),
    ensures
        lane(sweep(s, on, p, t).0, k) == lane(p, k),
    decreases t,
{
    if t > 0 {
        let (q, m) = sweep(s, on, p, (t - 1) as nat);
        let i = t - 1;
        lemma_sweep_agree(s, on, on, p, p, (t - 1) as nat, k);
        if !(on[i] == 0 || s.flow[i] == Flow::Stopped) {
            let (a, b) = (s.c1[i] as int, s.c2[i] as int);
            lemma_bits(m, exchange(q, a, b, on[i], s.flow[i]).1, k);
            lemma_exchange_still(q, a, b, on[i], s.flow[i], k);
        }
        lemma_sweep_still(s, on, p, (t - 1) as nat, k);
    }
}

// ---------------------------------------------------------------------------
// Whole passes
// ---------------------------------------------------------------------------

proof fn lemma_sweep_all_agree(
    s: SliceModel,
    on1: Seq<u64>,
    on2: Seq<u64>,
    p1: Planes,
    p2: Planes,
    k: u64,
)
    requires
        k < 64,
        s.wf(),
        on1.len() == s.trans_count,
        on_agree(on1, on2, k),
        planes_sized(p1, s.node_count),
        planes_sized(p2, s.node_count),
        planes_agree(p1, p2, k),
    ensures
        planes_sized(sweep_all(s, on1, p1).0, s.node_count),
        planes_sized(sweep_all(s, on2, p2).0, s.node_count),
        planes_agree(sweep_all(s, on1, p1).0, sweep_all(s, on2, p2).0, k),
{
    let t = s.trans_count;
    lemma_sweep_agree(s, on1, on2, p1.charged, p2.charged, t, k);
    lemma_sweep_agree(s, on1, on2, p1.pullup, p2.pullup, t, k);
    lemma_sweep_agree(s, on1, on2, p1.pulldown, p2.pulldown, t, k);
    lemma_sweep_agree(s, on1, on2, p1.vcc, p2.vcc, t, k);
    lemma_sweep_agree(s, on1, on2, p1.vss, p2.vss, t, k);
}

proof fn lemma_sweep_all_still(s: SliceModel, on: Seq<u64>, p: Planes, k: u64)
    requires
        k < 64,
        s.wf(),
        on.len() == s.trans_count,
        planes_sized(p, s.node_count),
        sweep_all(s, on, p).1,
    ensures
        planes_agree(sweep_all(s, on, p).0, p, k),
{
    let t = s.trans_count;
    lemma_bits(0u64, 0u64, k);
    lemma_sweep_still(s, on, p.charged, t, k);
    lemma_sweep_still(s, on, p.pullup, t, k);
    lemma_sweep_still(s, on, p.pulldown, t, k);
    lemma_sweep_still(s, on, p.vcc, t, k);
    lemma_sweep_still(s, on, p.vss, t, k);
}

/// The planes after `j` passes.
pub open spec fn passes(s: SliceModel, on: Seq<u64>, p: Planes, j: nat) -> Planes
    decreases j,
{
    if j == 0 {
        p
    } else {
        sweep_all(s, on, passes(s, on, p, (j - 1) as nat)).0
    }
}

proof fn lemma_passes_shift(s: SliceModel, on: Seq<u64>, p: Planes, j: nat)
    ensures
        passes(s, on, p, j + 1) == passes(s, on, sweep_all(s, on, p).0, j),
    decreases j,
{
    let q = sweep_all(s, on, p).0;
    if j > 0 {
        lemma_passes_shift(s, on, p, (j - 1) as nat);
        assert(passes(s, on, p, j + 1) == sweep_all(s, on, passes(s, on, p, j)).0);
        assert(passes(s, on, q, j) == sweep_all(s, on, passes(s, on, q, (j - 1) as nat)).0);
    } else {
        assert(passes(s, on, p, 1) == sweep_all(s, on, passes(s, on, p, 0)).0);
    }
}

proof fn lemma_passes_agree(
    s: SliceModel,
    on1: Seq<u64>,
    on2: Seq<u64>,
    p1: Planes,
    p2: Planes,
    j: nat,
    k: u64,
)
    requires
        k < 64,
        s.wf(),
        on1.len() == s.trans_count,
        on_agree(on1, on2, k),
        planes_sized(p1, s.node_count),
        planes_sized(p2, s.node_count),
        planes_agree(p1, p2, k),
    ensures
        planes_sized(passes(s, on1, p1, j), s.node_count),
        planes_sized(passes(s, on2, p2, j), s.node_count),
        planes_agree(passes(s, on1, p1, j), passes(s, on2, p2, j), k),
    decreases j,
{
    if j > 0 {
        lemma_passes_agree(s, on1, on2, p1, p2, (j - 1) as nat, k);
        lemma_sweep_all_agree(
            s,
            on1,
            on2,
            passes(s, on1, p1, (j - 1) as nat),
            passes(s, on2, p2, (j - 1) as nat),
            k,
        );
    }
}

/// A lane that one pass leaves alone stays where it is.
proof fn lemma_passes_stable(s: SliceModel, on: Seq<u64>, p: Planes, j: nat, k: u64)
    requires
        k < 64,
        s.wf(),
        on.len() == s.trans_count,
        planes_sized(p, s.node_count),
        planes_agree(sweep_all(s, on, p).0, p, k),
    ensures
        planes_sized(passes(s, on, p, j), s.node_count),
        planes_agree(passes(s, on, p, j), p, k),
    decreases j,
{
    if j > 0 {
        lemma_passes_stable(s, on, p, (j - 1) as nat, k);
        let q = passes(s, on, p, (j - 1) as nat);
        lemma_on_agree_refl(on, k);
        lemma_sweep_all_agree(s, on, on, q, p, k);
    }
}

proof fn lemma_on_agree_refl(on: Seq<u64>, k: u64)
    ensures
        on_agree(on, on, k),
{
}

/// In every lane, spreading ends where the full number of passes would:
/// the early exit is taken only when no lane moves.
proof fn lemma_spread_lane(s: SliceModel, on: Seq<u64>, p: Planes, left: nat, k: u64)
    requires
        k < 64,
        s.wf(),
        on.len() == s.trans_count,
        planes_sized(p, s.node_count),
    ensures
        planes_sized(spread(s, on, p, left), s.node_count),
        planes_agree(spread(s, on, p, left), passes(s, on, p, if left == 0 { 1 } else { left }), k),
    decreases left,
{
    let (q, still) = sweep_all(s, on, p);
    lemma_on_agree_refl(on, k);
    lemma_sweep_all_agree(s, on, on, p, p, k);
    let full = if left == 0 {
        1nat
    } else {
        left
    };
    lemma_passes_shift(s, on, p, (full - 1) as nat);
    if still {
        lemma_sweep_all_still(s, on, p, k);
        lemma_passes_stable(s, on, p, full, k);
    } else if left <= 1 {
        assert(passes(s, on, p, 0) == p);
    } else {
        lemma_spread_lane(s, on, q, (left - 1) as nat, k);
    }
}

// ---------------------------------------------------------------------------
// Rounds
// ---------------------------------------------------------------------------

proof fn lemma_own_planes_agree(s: SliceModel, a: Lanes, b: Lanes, k: u64)
    requires
        k < 64,
        s.wf(),
        lanes_sized(a, s),
        lanes_sized(b, s),
        lanes_agree(a, b, k),
    ensures
        planes_sized(own_planes(s, a.pullup, a.pulldown, a.value), s.node_count),
        planes_sized(own_planes(s, b.pullup, b.pulldown, b.value), s.node_count),
        planes_agree(
            own_planes(s, a.pullup, a.pulldown, a.value),
            own_planes(s, b.pullup, b.pulldown, b.value),
            k,
        ),
{
    let pa = own_planes(s, a.pullup, a.pulldown, a.value);
    let pb = own_planes(s, b.pullup, b.pulldown, b.value);
    assert forall|i: int| 0 <= i < s.node_count implies {
        &&& bit(pa.charged[i], k) == bit(pb.charged[i], k)
        &&& bit(pa.pullup[i], k) == bit(pb.pullup[i], k)
        &&& bit(pa.pulldown[i], k) == bit(pb.pulldown[i], k)
        &&& bit(pa.vcc[i], k) == bit(pb.vcc[i], k)
        &&& bit(pa.vss[i], k) == bit(pb.vss[i], k)
    } by {
        assert(lane(a.value, k)[i] == lane(b.value, k)[i]);
        assert(lane(a.pullup, k)[i] == lane(b.pullup, k)[i]);
        assert(lane(a.pulldown, k)[i] == lane(b.pulldown, k)[i]);
        let (gs, vs) = (mask(s.is_vss[i]), mask(s.is_vcc[i]));
        lemma_bits(gs, vs, k);
        lemma_bits(gs | vs, a.pulldown[i], k);
        lemma_bits(gs | vs, b.pulldown[i], k);
        lemma_bits(gs | vs | a.pulldown[i], a.pullup[i], k);
        lemma_bits(gs | vs | b.pulldown[i], b.pullup[i], k);
        lemma_bits(gs | vs | a.pulldown[i] | a.pullup[i], a.value[i], k);
        lemma_bits(gs | vs | b.pulldown[i] | b.pullup[i], b.value[i], k);
    }
    assert(lane(pa.charged, k) =~= lane(pb.charged, k));
    assert(lane(pa.pullup, k) =~= lane(pb.pullup, k));
    assert(lane(pa.pulldown, k) =~= lane(pb.pulldown, k));
    assert(lane(pa.vcc, k) =~= lane(pb.vcc, k));
    assert(lane(pa.vss, k) =~= lane(pb.vss, k));
}

proof fn lemma_high_of_agree(p: Planes, q: Planes, i: int, k: u64)
    requires
        k < 64,
        planes_agree(p, q, k),
        0 <= i < p.charged.len(),
        planes_sized(p, p.charged.len()),
        planes_sized(q, p.charged.len()),
    ensures
        bit(high_of(p, i), k) == bit(high_of(q, i), k),
{
    assert(lane(p.charged, k)[i] == lane(q.charged, k)[i]);
    assert(lane(p.pullup, k)[i] == lane(q.pullup, k)[i]);
    assert(lane(p.pulldown, k)[i] == lane(q.pulldown, k)[i]);
    assert(lane(p.vcc, k)[i] == lane(q.vcc, k)[i]);
    assert(lane(p.vss, k)[i] == lane(q.vss, k)[i]);
    lemma_bits(p.pullup[i], p.pulldown[i], k);
    lemma_bits(q.pullup[i], q.pulldown[i], k);
    lemma_bits(p.vss[i], p.vss[i], k);
    lemma_bits(q.vss[i], q.vss[i], k);
    lemma_bits(p.charged[i], !p.pullup[i], k);
    lemma_bits(q.charged[i], !q.pullup[i], k);
    lemma_bits(p.pullup[i], !p.pulldown[i], k);
    lemma_bits(q.pullup[i], !q.pulldown[i], k);
    lemma_bits(p.vcc[i], !p.vss[i], k);
    lemma_bits(q.vcc[i], !q.vss[i], k);
    lemma_bits(p.pullup[i], p.pullup[i], k);
    lemma_bits(q.pullup[i], q.pullup[i], k);
    lemma_bits(p.pulldown[i], p.pulldown[i], k);
    lemma_bits(q.pulldown[i], q.pulldown[i], k);
    let (x1, y1, z1) = (p.charged[i] & !p.pullup[i], p.pullup[i] & !p.pulldown[i], p.vcc[i] & !p.vss[i]);
    let (x2, y2, z2) = (q.charged[i] & !q.pullup[i], q.pullup[i] & !q.pulldown[i], q.vcc[i] & !q.vss[i]);
    lemma_bits(x1, y1, k);
    lemma_bits(x2, y2, k);
    lemma_bits(x1 | y1, z1, k);
    lemma_bits(x2 | y2, z2, k);
}

/// One round maps states that agree in lane `k` to states that agree in
/// lane `k`.
proof fn lemma_round_agree(s: SliceModel, a: Lanes, b: Lanes, max: nat, k: u64)
    requires
        k < 64,
        s.wf(),
        lanes_sized(a, s),
        lanes_sized(b, s),
        lanes_agree(a, b, k),
    ensures
        lanes_sized(round_spec(s, a, max).0, s),
        lanes_sized(round_spec(s, b, max).0, s),
        lanes_agree(round_spec(s, a, max).0, round_spec(s, b, max).0, k),
{
    let on_a = Seq::new(s.trans_count, |t: int| a.value[s.gate[t] as int]);
    let on_b = Seq::new(s.trans_count, |t: int| b.value[s.gate[t] as int]);
    assert(on_agree(on_a, on_b, k)) by {
        assert forall|t: int| 0 <= t < on_a.len() implies bit(#[trigger] on_a[t], k) == bit(on_b[t], k) by {
            assert(lane(a.value, k)[s.gate[t] as int] == lane(b.value, k)[s.gate[t] as int]);
        }
    }
    let oa = own_planes(s, a.pullup, a.pulldown, a.value);
    let ob = own_planes(s, b.pullup, b.pulldown, b.value);
    lemma_own_planes_agree(s, a, b, k);
    let full = if max == 0 {
        1nat
    } else {
        max
    };
    lemma_spread_lane(s, on_a, oa, max, k);
    lemma_spread_lane(s, on_b, ob, max, k);
    lemma_passes_agree(s, on_a, on_b, oa, ob, full, k);
    let pa = spread(s, on_a, oa, max);
    let pb = spread(s, on_b, ob, max);
    let ra = round_spec(s, a, max).0;
    let rb = round_spec(s, b, max).0;
    assert(lane(ra.value, k) =~= lane(rb.value, k)) by {
        assert forall|i: int| 0 <= i < s.node_count implies lane(ra.value, k)[i] == lane(
            rb.value,
            k,
        )[i] by {
            assert(lane(a.value, k)[i] == lane(b.value, k)[i]);
            lemma_high_of_agree(pa, pb, i, k);
        }
    }
    assert(lane(ra.trans_on, k) =~= lane(rb.trans_on, k)) by {
        assert forall|t: int| 0 <= t < s.trans_count implies lane(ra.trans_on, k)[t] == lane(
            rb.trans_on,
            k,
        )[t] by {
            assert(bit(on_a[t], k) == bit(on_b[t], k));
        }
    }
}

/// The state after `j` rounds.
pub open spec fn after_rounds(s: SliceModel, st: Lanes, j: nat, max: nat) -> Lanes
    decreases j,
{
    if j == 0 {
        st
    } else {
        round_spec(s, after_rounds(s, st, (j - 1) as nat, max), max).0
    }
}

proof fn lemma_after_rounds_shift(s: SliceModel, st: Lanes, j: nat, max: nat)
    ensures
        after_rounds(s, st, j + 1, max) == after_rounds(s, round_spec(s, st, max).0, j, max),
    decreases j,
{
    let q = round_spec(s, st, max).0;
    if j > 0 {
        lemma_after_rounds_shift(s, st, (j - 1) as nat, max);
        assert(after_rounds(s, st, j + 1, max) == round_spec(s, after_rounds(s, st, j, max), max).0);
        assert(after_rounds(s, q, j, max) == round_spec(s, after_rounds(s, q, (j - 1) as nat, max), max).0);
    } else {
        assert(after_rounds(s, st, 1, max) == round_spec(s, after_rounds(s, st, 0, max), max).0);
    }
}

proof fn lemma_after_rounds_fixed(s: SliceModel, st: Lanes, j: nat, max: nat)
    requires
        round_spec(s, st, max).0 == st,
    ensures
        after_rounds(s, st, j, max) == st,
    decreases j,
{
    if j > 0 {
        lemma_after_rounds_fixed(s, st, (j - 1) as nat, max);
    }
}

/// Settling runs every round it has left, as far as the result goes: it
/// stops early only at a state that a round leaves exactly as it is.
proof fn lemma_rounds_full(s: SliceModel, st: Lanes, done: nat, max: nat)
    requires
        done <= max,
    ensures
        rounds(s, st, done, max).0 == after_rounds(s, st, (max - done) as nat, max),
    decreases max - done,
{
    if done < max {
        let (st2, still) = round_spec(s, st, max);
        lemma_after_rounds_shift(s, st, (max - done - 1) as nat, max);
        if still {
            assert(st2.value == st.value && st2.trans_on == st.trans_on);
            assert(st2 == st);
            lemma_after_rounds_fixed(s, st, (max - done) as nat, max);
        } else {
            lemma_rounds_full(s, st2, done + 1, max);
        }
    }
}

proof fn lemma_after_rounds_agree(s: SliceModel, a: Lanes, b: Lanes, j: nat, max: nat, k: u64)
    requires
        k < 64,
        s.wf(),
        lanes_sized(a, s),
        lanes_sized(b, s),
        lanes_agree(a, b, k),
    ensures
        lanes_sized(after_rounds(s, a, j, max), s),
        lanes_sized(after_rounds(s, b, j, max), s),
        lanes_agree(after_rounds(s, a, j, max), after_rounds(s, b, j, max), k),
    decreases j,
{
    if j > 0 {
        lemma_after_rounds_agree(s, a, b, (j - 1) as nat, max, k);
        lemma_round_agree(
            s,
            after_rounds(s, a, (j - 1) as nat, max),
            after_rounds(s, b, (j - 1) as nat, max),
            max,
            k,
        );
    }
}

/// No machine influences another: two states that agree in lane `k` (in
/// levels, pulls and switches) still agree in lane `k` after settling,
/// whatever the other 63 machines hold.
pub proof fn law_lanes_independent(s: SliceModel, a: Lanes, b: Lanes, max: nat, k: u64)
    requires
        k < 64,
        s.wf(),
        lanes_sized(a, s),
        lanes_sized(b, s),
        lanes_agree(a, b, k),
    ensures
        lanes_agree(rounds(s, a, 0, max).0, rounds(s, b, 0, max).0, k),
{
    lemma_rounds_full(s, a, 0, max);
    lemma_rounds_full(s, b, 0, max);
    lemma_after_rounds_agree(s, a, b, max, max, k);
}

/// The same law for the kernel's own types: two states of a netlist's
/// shape that agree in lane `k` end `SliceState::settle` (whose result is
/// `rounds(snl.model(), state.lanes(), 0, max)`) agreeing in lane `k`.
pub proof fn law_settle_lanes_independent(
    snl: &SliceNetlist,
    a: &SliceState,
    b: &SliceState,
    max: nat,
    k: u64,
)
    requires
        k < 64,
        snl.wf(),
        a.shaped(snl.model()),
        b.shaped(snl.model()),
        lanes_agree(a.lanes(), b.lanes(), k),
    ensures
        lanes_agree(
            rounds(snl.model(), a.lanes(), 0, max).0,
            rounds(snl.model(), b.lanes(), 0, max).0,
            k,
        ),
{
    snl.lemma_wf();
    a.lemma_shaped(snl.model());
    b.lemma_shaped(snl.model());
    law_lanes_independent(snl.model(), a.lanes(), b.lanes(), max, k);
}


proof fn lemma_pull_words(w: u64, m: u64, h: bool, lane: u64)
    by (bit_vector)
    requires
        lane < 64,
    ensures
        (w & !0xffff_ffff_ffff_ffffu64) | (m & 0xffff_ffff_ffff_ffffu64) == m,
        (w & !0xffff_ffff_ffff_ffffu64) | (!m & 0xffff_ffff_ffff_ffffu64) == !m,
        !0xffff_ffff_ffff_ffffu64 == 0u64,
        !0u64 == 0xffff_ffff_ffff_ffffu64,
        (w & !(1u64 << lane)) | (0xffff_ffff_ffff_ffffu64 & (1u64 << lane)) == w | (1u64 << lane),
        (w & !(1u64 << lane)) | (0u64 & (1u64 << lane)) == w & !(1u64 << lane),
{
}

/// The four ways of setting a node's pull agree. `set_pull_mask(n, m)` is
/// `set_pull_where(n, !0, m)`: a mask sets every lane. `set_pull_all(n, h)`
/// is `set_pull_mask(n, if h { !0 } else { 0 })` (the pullups are the
/// same word by the contracts; the pulldowns agree since `!0` and `0` are
/// each other's complement). And `set_pull(lane, n, h)`
/// is `set_pull_where(n, 1 << lane, if h { !0 } else { 0 })`: one lane is
/// the one-bit case of setting some lanes. Each is stated over the new
/// pullup and pulldown words that the functions' contracts give.
pub proof fn law_pull_forms_agree(up: Seq<u64>, down: Seq<u64>, n: int, m: u64, h: bool, lane: usize)
    requires
        0 <= n < up.len(),
        0 <= n < down.len(),
        lane < 64,
    ensures
        up.update(n, (up[n] & !mask(true)) | (m & mask(true))) == up.update(n, m),
        down.update(n, (down[n] & !mask(true)) | (!m & mask(true))) == down.update(n, !m),
        down.update(n, mask(!h)) == down.update(n, !mask(h)),
        up.update(n, lane_put(up[n], lane, h)) == up.update(
            n,
            (up[n] & !(1u64 << (lane as u64))) | (mask(h) & (1u64 << (lane as u64))),
        ),
        down.update(n, lane_put(down[n], lane, !h)) == down.update(
            n,
            (down[n] & !(1u64 << (lane as u64))) | (!mask(h) & (1u64 << (lane as u64))),
        ),
{
    lemma_pull_words(up[n], m, h, lane as u64);
    lemma_pull_words(down[n], m, h, lane as u64);
}


/// The drive a node holds in lane `k`, read off its planes: the highest
/// plane lit, `Floating` where none is.
pub open spec fn lane_drive(p: Planes, i: int, k: u64) -> Drive {
    if bit_of(p.vss[i], k) {
        Drive::Vss
    } else if bit_of(p.vcc[i], k) {
        Drive::Vcc
    } else if bit_of(p.pulldown[i], k) {
        Drive::PullDown
    } else if bit_of(p.pullup[i], k) {
        Drive::PullUp
    } else if bit_of(p.charged[i], k) {
        Drive::ChargedHigh
    } else {
        Drive::Floating
    }
}

/// The planes encode one drive at node `i` in lane `k`: each plane lit
/// lights every plane below it.
pub open spec fn thermometer(p: Planes, i: int, k: u64) -> bool {
    &&& bit_of(p.vss[i], k) ==> bit_of(p.vcc[i], k)
    &&& bit_of(p.vcc[i], k) ==> bit_of(p.pulldown[i], k)
    &&& bit_of(p.pulldown[i], k) ==> bit_of(p.pullup[i], k)
    &&& bit_of(p.pullup[i], k) ==> bit_of(p.charged[i], k)
}

proof fn lemma_resolve_bits(c: u64, u: u64, d: u64, v: u64, s: u64, k: u64)
    by (bit_vector)
    requires
        k < 64,
    ensures
        bit_of((c & !u) | (u & !d) | (v & !s), k) == ((bit_of(c, k) && !bit_of(u, k)) || (bit_of(u, k)
            && !bit_of(d, k)) || (bit_of(v, k) && !bit_of(s, k))),
        bit_of(0xffff_ffff_ffff_ffffu64, k),
        !bit_of(0u64, k),
        bit_of(c | u, k) == (bit_of(c, k) || bit_of(u, k)),
{
}

/// Resolving a node gives, in every lane, the level of the drive its planes
/// encode: high for a held charge, a pullup or the supply with nothing
/// stronger; low for nothing at all, a pulldown or ground. In particular a
/// node with no pull and no rail but a charge resolves high.
pub proof fn law_resolve_is_drive_level(p: Planes, i: int, k: u64)
    requires
        k < 64,
        0 <= i < p.charged.len(),
        i < p.pullup.len(),
        i < p.pulldown.len(),
        i < p.vcc.len(),
        i < p.vss.len(),
        thermometer(p, i, k),
    ensures
        bit_of(high_of(p, i), k) == drive_level(lane_drive(p, i, k)),
{
    lemma_resolve_bits(p.charged[i], p.pullup[i], p.pulldown[i], p.vcc[i], p.vss[i], k);
}

/// The planes a settle starts from encode one drive at every node in every
/// lane, so the law above applies to them.
pub proof fn law_own_planes_thermometer(
    s: SliceModel,
    pullup: Seq<u64>,
    pulldown: Seq<u64>,
    value: Seq<u64>,
    i: int,
    k: u64,
)
    requires
        k < 64,
        s.wf(),
        0 <= i < s.node_count,
        pullup.len() == s.node_count,
        pulldown.len() == s.node_count,
        value.len() == s.node_count,
    ensures
        thermometer(own_planes(s, pullup, pulldown, value), i, k),
{
    let p = own_planes(s, pullup, pulldown, value);
    let a = mask(s.is_vss[i]);
    let b = mask(s.is_vcc[i]);
    lemma_resolve_bits(a, b, 0, 0, 0, k);
    lemma_resolve_bits(a | b, pulldown[i], 0, 0, 0, k);
    lemma_resolve_bits(a | b | pulldown[i], pullup[i], 0, 0, 0, k);
    lemma_resolve_bits(a | b | pulldown[i] | pullup[i], value[i], 0, 0, 0, k);
}


/// Every bit lit in `a` is lit in `b`, word for word.
pub open spec fn within(a: Seq<u64>, b: Seq<u64>) -> bool {
    &&& a.len() == b.len()
    &&& forall|i: int| 0 <= i < a.len() ==> #[trigger] (a[i] & !b[i]) == 0u64
}

/// Each plane lies within the one below it, at every node of a netlist of
/// `n` nodes.
pub open spec fn graded(p: Planes, n: nat) -> bool {
    &&& p.charged.len() == n
    &&& within(p.vss, p.vcc)
    &&& within(p.vcc, p.pulldown)
    &&& within(p.pulldown, p.pullup)
    &&& within(p.pullup, p.charged)
}

proof fn lemma_or_within(a1: u64, b1: u64, a2: u64, b2: u64, on: u64)
    by (bit_vector)
    requires
        a1 & !b1 == 0u64,
        a2 & !b2 == 0u64,
    ensures
        (a1 | (a2 & on)) & !(b1 | (b2 & on)) == 0u64,
{
}

proof fn lemma_within_bit(a: u64, b: u64, k: u64)
    by (bit_vector)
    requires
        a & !b == 0u64,
        k < 64,
    ensures
        bit_of(a, k) ==> bit_of(b, k),
{
}

proof fn lemma_or_parts(x: u64, y: u64)
    by (bit_vector)
    ensures
        x & !(x | y) == 0u64,
        x & !x == 0u64,
{
}

proof fn lemma_self_within(a: Seq<u64>)
    ensures
        within(a, a),
{
    assert forall|i: int| 0 <= i < a.len() implies #[trigger] (a[i] & !a[i]) == 0u64 by {
        lemma_or_parts(a[i], 0);
    }
}

proof fn lemma_exchange_within(a: Seq<u64>, b: Seq<u64>, x: int, y: int, on: u64, f: Flow)
    requires
        within(a, b),
        0 <= x < a.len(),
        0 <= y < a.len(),
    ensures
        within(exchange(a, x, y, on, f).0, exchange(b, x, y, on, f).0),
        exchange(a, x, y, on, f).0.len() == a.len(),
{
    assert((a[x] & !b[x]) == 0u64);
    assert((a[y] & !b[y]) == 0u64);
    lemma_or_within(a[y], b[y], a[x], b[x], on);
    lemma_or_within(a[x], b[x], a[y], b[y], on);
    let ea = exchange(a, x, y, on, f).0;
    let eb = exchange(b, x, y, on, f).0;
    assert forall|i: int| 0 <= i < ea.len() implies #[trigger] (ea[i] & !eb[i]) == 0u64 by {
        assert((a[i] & !b[i]) == 0u64);
    }
}

proof fn lemma_sweep_within(s: SliceModel, on: Seq<u64>, a: Seq<u64>, b: Seq<u64>, t: nat)
    requires
        s.wf(),
        within(a, b),
        a.len() == s.node_count,
        t <= s.trans_count,
    ensures
        within(sweep(s, on, a, t).0, sweep(s, on, b, t).0),
        sweep(s, on, a, t).0.len() == a.len(),
    decreases t,
{
    if t > 0 {
        lemma_sweep_within(s, on, a, b, (t - 1) as nat);
        let i = t - 1;
        let pa = sweep(s, on, a, (t - 1) as nat).0;
        let pb = sweep(s, on, b, (t - 1) as nat).0;
        if !(on[i] == 0 || s.flow[i] == Flow::Stopped) {
            lemma_exchange_within(pa, pb, s.c1[i] as int, s.c2[i] as int, on[i], s.flow[i]);
        }
    }
}

proof fn lemma_spread_graded(s: SliceModel, on: Seq<u64>, p: Planes, left: nat)
    requires
        s.wf(),
        graded(p, s.node_count),
    ensures
        graded(spread(s, on, p, left), s.node_count),
    decreases left,
{
    let t = s.trans_count;
    lemma_sweep_within(s, on, p.vss, p.vcc, t);
    lemma_sweep_within(s, on, p.vcc, p.pulldown, t);
    lemma_sweep_within(s, on, p.pulldown, p.pullup, t);
    lemma_sweep_within(s, on, p.pullup, p.charged, t);
    lemma_self_within(p.charged);
    lemma_sweep_within(s, on, p.charged, p.charged, t);
    let (q, still) = sweep_all(s, on, p);
    if !(still || left <= 1) {
        lemma_spread_graded(s, on, q, (left - 1) as nat);
    }
}

proof fn lemma_own_planes_graded(s: SliceModel, pullup: Seq<u64>, pulldown: Seq<u64>, value: Seq<u64>)
    requires
        s.wf(),
        pullup.len() == s.node_count,
        pulldown.len() == s.node_count,
        value.len() == s.node_count,
    ensures
        graded(own_planes(s, pullup, pulldown, value), s.node_count),
{
    let p = own_planes(s, pullup, pulldown, value);
    let n = s.node_count;
    assert forall|i: int| 0 <= i < n implies #[trigger] (p.vss[i] & !p.vcc[i]) == 0u64 by {
        lemma_or_parts(mask(s.is_vss[i]), mask(s.is_vcc[i]));
    }
    assert forall|i: int| 0 <= i < n implies #[trigger] (p.vcc[i] & !p.pulldown[i]) == 0u64 by {
        lemma_or_parts(mask(s.is_vss[i]) | mask(s.is_vcc[i]), pulldown[i]);
    }
    assert forall|i: int| 0 <= i < n implies #[trigger] (p.pulldown[i] & !p.pullup[i]) == 0u64 by {
        lemma_or_parts(mask(s.is_vss[i]) | mask(s.is_vcc[i]) | pulldown[i], pullup[i]);
    }
    assert forall|i: int| 0 <= i < n implies #[trigger] (p.pullup[i] & !p.charged[i]) == 0u64 by {
        lemma_or_parts(mask(s.is_vss[i]) | mask(s.is_vcc[i]) | pulldown[i] | pullup[i], value[i]);
    }
}

proof fn lemma_graded_thermometer(p: Planes, n: nat, i: int, k: u64)
    requires
        graded(p, n),
        0 <= i < n,
        k < 64,
    ensures
        thermometer(p, i, k),
{
    lemma_within_bit(p.vss[i], p.vcc[i], k);
    lemma_within_bit(p.vcc[i], p.pulldown[i], k);
    lemma_within_bit(p.pulldown[i], p.pullup[i], k);
    lemma_within_bit(p.pullup[i], p.charged[i], k);
}

/// What a round of the kernel gives a live node that is not a rail, in every
/// lane: the level of the strongest drive in its group as the spread planes
/// hold it (high for a held charge, a pullup or the supply; low for nothing,
/// a pulldown or ground). The planes encode one drive everywhere, from the
/// node's own pulls, rails and charge through every pass of spreading.
pub proof fn law_round_resolves_drive_level(s: SliceModel, st: Lanes, max_rounds: nat, i: int, k: u64)
    requires
        s.wf(),
        st.pullup.len() == s.node_count,
        st.pulldown.len() == s.node_count,
        st.value.len() == s.node_count,
        0 <= i < s.node_count,
        s.exists[i],
        !s.is_rail[i],
        k < 64,
    ensures
        ({
            let on = Seq::new(s.trans_count, |t: int| st.value[s.gate[t] as int]);
            let p = spread(s, on, own_planes(s, st.pullup, st.pulldown, st.value), max_rounds);
            &&& thermometer(p, i, k)
            &&& bit_of(round_spec(s, st, max_rounds).0.value[i], k) == drive_level(lane_drive(p, i, k))
        }),
{
    let on = Seq::new(s.trans_count, |t: int| st.value[s.gate[t] as int]);
    let p0 = own_planes(s, st.pullup, st.pulldown, st.value);
    lemma_own_planes_graded(s, st.pullup, st.pulldown, st.value);
    lemma_spread_graded(s, on, p0, max_rounds);
    let p = spread(s, on, p0, max_rounds);
    lemma_graded_thermometer(p, s.node_count, i, k);
    law_resolve_is_drive_level(p, i, k);
}

} // verus!

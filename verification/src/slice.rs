//! The solver again, as a kernel: 64 independent machines in one instruction
//! stream, one per bit of a `u64`.
//!
//! Instead of collecting a group and taking the maximum drive over it, every
//! node repeatedly takes the maximum drive of its conducting neighbours until
//! nothing moves. The drive order is encoded as a thermometer, five planes,
//! plane `k` meaning "at least level k + 1", so taking a maximum is a bitwise
//! OR; and "is this transistor conducting" is a mask, not a branch.

use vstd::prelude::*;
use crate::bitset::bit_of;
use crate::engine::{bus_value, ChipState};
use crate::netlist::{Netlist, NodeId};

verus! {

/// Machines per word: one bit of every `u64` of a `SliceState` belongs to one
/// machine.
pub const LANES: usize = 64;

/// How a transistor's two ends may exchange drive. A rail is recorded as
/// drive but never crossed.
#[derive(Clone, Copy, PartialEq, Eq, Structural, Debug)]
pub enum Flow {
    /// Ordinary: drive moves both ways when the transistor conducts.
    Both,
    /// `c1` is a rail: it drives `c2` and nothing flows back.
    C1ToC2,
    /// `c2` is a rail: it drives `c1` and nothing flows back.
    C2ToC1,
    /// Both ends are rails, or the transistor can never conduct. Skipped.
    Stopped,
}

/// The netlist, arranged for the sweep. Built once and shared.
pub struct SliceNetlist {
    node_count: usize,
    trans_count: usize,
    gate: Vec<NodeId>,
    c1: Vec<NodeId>,
    c2: Vec<NodeId>,
    flow: Vec<Flow>,
    is_vss: Vec<bool>,
    is_vcc: Vec<bool>,
    is_rail: Vec<bool>,
    exists: Vec<bool>,
}

/// The sweep's view of a netlist.
pub struct SliceModel {
    pub node_count: nat,
    pub trans_count: nat,
    pub gate: Seq<u16>,
    pub c1: Seq<u16>,
    pub c2: Seq<u16>,
    pub flow: Seq<Flow>,
    pub is_vss: Seq<bool>,
    pub is_vcc: Seq<bool>,
    pub is_rail: Seq<bool>,
    pub exists: Seq<bool>,
}

impl SliceModel {
    /// Every array has its length, every gate is a node, and so are both
    /// ends of every transistor the sweep does not skip.
    pub open spec fn wf(self) -> bool {
        &&& self.gate.len() == self.trans_count
        &&& self.c1.len() == self.gate.len()
        &&& self.c2.len() == self.gate.len()
        &&& self.flow.len() == self.gate.len()
        &&& self.is_vss.len() == self.node_count
        &&& self.is_vcc.len() == self.node_count
        &&& self.is_rail.len() == self.node_count
        &&& self.exists.len() == self.node_count
        &&& forall|t: int| 0 <= t < self.gate.len() ==> (self.gate[t] as int) < self.node_count
        &&& forall|t: int|
            0 <= t < self.gate.len() && self.flow[t] != Flow::Stopped ==> (self.c1[t] as int)
                < self.node_count && (self.c2[t] as int) < self.node_count
    }
}

/// How a transistor exchanges drive, from whether its ends are rails and
/// whether its gate is ground (a transistor gated by ground never conducts).
pub open spec fn flow_of(dead: bool, ra: bool, rb: bool) -> Flow {
    if dead {
        Flow::Stopped
    } else if ra && rb {
        Flow::Stopped
    } else if ra {
        Flow::C1ToC2
    } else if rb {
        Flow::C2ToC1
    } else {
        Flow::Both
    }
}

/// The node number `i` names, as `i as NodeId` gives it.
pub open spec fn node16(i: int) -> u16 {
    (i % 65536) as u16
}

proof fn lemma_node16(i: usize)
    by (bit_vector)
    ensures
        (i as u16) == ((i % 65536) as u16),
{
}

impl SliceNetlist {
    pub closed spec fn model(&self) -> SliceModel {
        SliceModel {
            node_count: self.node_count as nat,
            trans_count: self.trans_count as nat,
            gate: self.gate@,
            c1: self.c1@,
            c2: self.c2@,
            flow: self.flow@,
            is_vss: self.is_vss@,
            is_vcc: self.is_vcc@,
            is_rail: self.is_rail@,
            exists: self.exists@,
        }
    }

    pub closed spec fn wf(&self) -> bool {
        self.model().wf()
    }

    /// A well-formed netlist's model has every array at its length and every
    /// node number in range.
    pub proof fn lemma_wf(&self)
        requires
            self.wf(),
        ensures
            self.model().wf(),
    {
    }

    /// Arrange a netlist for the sweep.
    ///
    /// Transistors are numbered as `TransId`s, so a netlist with 65536 or
    /// more of them keeps only the first `count % 65536` here while the count
    /// stays whole; the sweep needs the two to agree, and needs every
    /// transistor end to be a node, rails included.
    pub fn new(nl: &Netlist) -> (r: SliceNetlist)
        requires
            nl.wf(),
        ensures
            ({
                let m = nl.model();
                let s = r.model();
                let kept = (m.trans_count() % 65536) as int;
                &&& s.node_count == m.node_count
                &&& s.trans_count == m.trans_count()
                &&& s.gate == m.gate.take(kept)
                &&& s.c1 == m.c1.take(kept)
                &&& s.c2 == m.c2.take(kept)
                &&& s.is_vss == Seq::new(m.node_count, |i: int| node16(i) == m.vss)
                &&& s.is_vcc == Seq::new(m.node_count, |i: int| node16(i) == m.vcc)
                &&& s.is_rail == Seq::new(m.node_count, |i: int| m.is_rail(node16(i) as int))
                &&& s.exists == Seq::new(m.node_count, |i: int| m.exists[node16(i) as int])
                &&& s.flow == Seq::new(
                    kept as nat,
                    |t: int|
                        flow_of(
                            m.gate[t] == m.vss,
                            m.is_rail(m.c1[t] as int),
                            m.is_rail(m.c2[t] as int),
                        ),
                )
            }),
            nl.model().trans_count() < 65536 && (forall|t: int|
                0 <= t < nl.model().trans_count() && #[trigger] r.model().flow[t] != Flow::Stopped
                    ==> (nl.model().c1[t] as int) < nl.model().node_count && (nl.model().c2[t] as int)
                    < nl.model().node_count) ==> r.wf(),
    {
        proof {
            nl.lemma_wf();
        }
        let ghost m = nl.model();
        let n = nl.node_count();
        let t = nl.transistor_count();
        let vss = nl.vss();
        let vcc = nl.vcc();
        let mut is_vss: Vec<bool> = Vec::new();
        let mut is_vcc: Vec<bool> = Vec::new();
        let mut is_rail: Vec<bool> = Vec::new();
        let mut exists: Vec<bool> = Vec::new();
        let mut i: usize = 0;
        while i < n
            invariant
                0 <= i <= n,
                n == m.node_count,
                m == nl.model(),
                nl.wf(),
                m.exists.len() == m.node_count,
                vss == m.vss,
                vcc == m.vcc,
                is_vss@ =~= Seq::new(i as nat, |k: int| node16(k) == m.vss),
                is_vcc@ =~= Seq::new(i as nat, |k: int| node16(k) == m.vcc),
                is_rail@ =~= Seq::new(i as nat, |k: int| m.is_rail(node16(k) as int)),
                exists@ =~= Seq::new(i as nat, |k: int| m.exists[node16(k) as int]),
            decreases n - i,
        {
            proof {
                lemma_node16(i);
            }
            let id = #[verifier::truncate] (i as NodeId);
            is_vss.push(id == vss);
            is_vcc.push(id == vcc);
            is_rail.push(nl.is_rail(id));
            exists.push(nl.node_exists(id));
            i = i + 1;
        }
        let mut gate: Vec<NodeId> = Vec::new();
        let mut c1: Vec<NodeId> = Vec::new();
        let mut c2: Vec<NodeId> = Vec::new();
        let mut flow: Vec<Flow> = Vec::new();
        let limit = #[verifier::truncate] (t as u16);
        proof {
            lemma_node16(t);
        }
        let mut ti: u16 = 0;
        while ti < limit
            invariant
                0 <= ti <= limit,
                limit as int == t % 65536,
                t == m.trans_count(),
                t <= u32::MAX,
                m == nl.model(),
                nl.wf(),
                m.ends_in_range(),
                vss == m.vss,
                gate@ =~= m.gate.take(ti as int),
                c1@ =~= m.c1.take(ti as int),
                c2@ =~= m.c2.take(ti as int),
                flow@ =~= Seq::new(
                    ti as nat,
                    |k: int|
                        flow_of(
                            m.gate[k] == m.vss,
                            m.is_rail(m.c1[k] as int),
                            m.is_rail(m.c2[k] as int),
                        ),
                ),
            decreases limit - ti,
        {
            let g = nl.transistor_gate(ti);
            let a = nl.transistor_c1(ti);
            let b = nl.transistor_c2(ti);
            let ra = nl.is_rail(a);
            let rb = nl.is_rail(b);
            let dead = g == vss;
            let f = if dead {
                Flow::Stopped
            } else if ra && rb {
                Flow::Stopped
            } else if ra {
                Flow::C1ToC2
            } else if rb {
                Flow::C2ToC1
            } else {
                Flow::Both
            };
            flow.push(f);
            gate.push(g);
            c1.push(a);
            c2.push(b);
            ti = ti + 1;
        }
        proof {
            if t < 65536 {
                assert(m.gate.take(t as int) =~= m.gate);
                assert(m.c1.take(t as int) =~= m.c1);
                assert(m.c2.take(t as int) =~= m.c2);
            }
        }
        SliceNetlist {
            node_count: n,
            trans_count: t,
            gate,
            c1,
            c2,
            flow,
            is_vss,
            is_vcc,
            is_rail,
            exists,
        }
    }
}

// ---------------------------------------------------------------------------
// The sweep, as sequences
// ---------------------------------------------------------------------------

/// All lanes set, or none.
pub open spec fn mask(b: bool) -> u64 {
    if b {
        0xffff_ffff_ffff_ffffu64
    } else {
        0u64
    }
}

/// The five thermometer planes: plane `k` is "at least level k + 1", from
/// charged-high up to ground.
pub struct Planes {
    pub charged: Seq<u64>,
    pub pullup: Seq<u64>,
    pub pulldown: Seq<u64>,
    pub vcc: Seq<u64>,
    pub vss: Seq<u64>,
}

/// Every node's own contribution to its group's drive. A higher drive lights
/// every plane below it.
pub open spec fn own_planes(s: SliceModel, pullup: Seq<u64>, pulldown: Seq<u64>, value: Seq<u64>) -> Planes {
    let n = s.node_count;
    Planes {
        vss: Seq::new(n, |i: int| mask(s.is_vss[i])),
        vcc: Seq::new(n, |i: int| mask(s.is_vss[i]) | mask(s.is_vcc[i])),
        pulldown: Seq::new(n, |i: int| mask(s.is_vss[i]) | mask(s.is_vcc[i]) | pulldown[i]),
        pullup: Seq::new(n, |i: int| mask(s.is_vss[i]) | mask(s.is_vcc[i]) | pulldown[i] | pullup[i]),
        charged: Seq::new(
            n,
            |i: int| mask(s.is_vss[i]) | mask(s.is_vcc[i]) | pulldown[i] | pullup[i] | value[i],
        ),
    }
}

/// Exchange drive across one conducting transistor in one plane: `c2`
/// takes `c1`'s bits (unless `c2` is the rail), then `c1` takes `c2`'s old
/// bits (unless `c1` is the rail). Also the bits that moved.
pub open spec fn exchange(plane: Seq<u64>, a: int, b: int, on: u64, flow: Flow) -> (Seq<u64>, u64) {
    let pa = plane[a];
    let pb = plane[b];
    let (p1, m1) = if flow != Flow::C2ToC1 {
        let nb = pb | (pa & on);
        (plane.update(b, nb), nb ^ pb)
    } else {
        (plane, 0u64)
    };
    if flow != Flow::C1ToC2 {
        let na = pa | (pb & on);
        (p1.update(a, na), m1 | (na ^ pa))
    } else {
        (p1, m1)
    }
}

/// One pass over the first `t` transistors in one plane, in order. Also the
/// bits that moved.
pub open spec fn sweep(s: SliceModel, on: Seq<u64>, plane: Seq<u64>, t: nat) -> (Seq<u64>, u64)
    decreases t,
{
    if t == 0 {
        (plane, 0u64)
    } else {
        let (p, mv) = sweep(s, on, plane, (t - 1) as nat);
        let i = t - 1;
        if on[i] == 0 || s.flow[i] == Flow::Stopped {
            (p, mv)
        } else {
            let (p2, m2) = exchange(p, s.c1[i] as int, s.c2[i] as int, on[i], s.flow[i]);
            (p2, mv | m2)
        }
    }
}

/// One pass over every transistor in every plane; whether nothing moved.
pub open spec fn sweep_all(s: SliceModel, on: Seq<u64>, p: Planes) -> (Planes, bool) {
    let t = s.trans_count;
    let (c, mc) = sweep(s, on, p.charged, t);
    let (u, mu) = sweep(s, on, p.pullup, t);
    let (d, md) = sweep(s, on, p.pulldown, t);
    let (v, mv) = sweep(s, on, p.vcc, t);
    let (g, mg) = sweep(s, on, p.vss, t);
    (
        Planes { charged: c, pullup: u, pulldown: d, vcc: v, vss: g },
        mc == 0 && mu == 0 && md == 0 && mv == 0 && mg == 0,
    )
}

/// Pass after pass until nothing moves, at most `left` passes (and at least
/// one).
pub open spec fn spread(s: SliceModel, on: Seq<u64>, p: Planes, left: nat) -> Planes
    decreases left,
{
    let (q, still) = sweep_all(s, on, p);
    if still || left <= 1 {
        q
    } else {
        spread(s, on, q, (left - 1) as nat)
    }
}

/// The lanes in which a node resolves high: exactly at charged-high, pullup
/// or supply, the plane set and the one above clear.
pub open spec fn high_of(p: Planes, i: int) -> u64 {
    (p.charged[i] & !p.pullup[i]) | (p.pullup[i] & !p.pulldown[i]) | (p.vcc[i] & !p.vss[i])
}

/// One machine-wide state.
pub struct Lanes {
    pub value: Seq<u64>,
    pub pullup: Seq<u64>,
    pub pulldown: Seq<u64>,
    pub trans_on: Seq<u64>,
}

/// One round: switches follow their gates; every node's own drive; spread
/// to a fixed point; resolve every live node that is not a rail. Also
/// whether nothing changed, neither a level nor a switch.
pub open spec fn round_spec(s: SliceModel, st: Lanes, max_rounds: nat) -> (Lanes, bool) {
    let on = Seq::new(s.trans_count, |t: int| st.value[s.gate[t] as int]);
    let p = spread(s, on, own_planes(s, st.pullup, st.pulldown, st.value), max_rounds);
    let value = Seq::new(
        s.node_count,
        |i: int|
            if s.is_rail[i] || !s.exists[i] {
                st.value[i]
            } else {
                high_of(p, i)
            },
    );
    (Lanes { value, trans_on: on, ..st }, value == st.value && on == st.trans_on)
}

/// Rounds `k + 1` on (`k` done) until one changes nothing, at most
/// `max_rounds` in all; the state and the number of the last round run.
pub open spec fn rounds(s: SliceModel, st: Lanes, k: nat, max_rounds: nat) -> (Lanes, nat)
    decreases max_rounds - k,
{
    if k >= max_rounds {
        (st, max_rounds)
    } else {
        let (st2, still) = round_spec(s, st, max_rounds);
        if still {
            (st2, k + 1)
        } else {
            rounds(s, st2, k + 1, max_rounds)
        }
    }
}

proof fn lemma_or_zero(x: u64, y: u64)
    by (bit_vector)
    ensures
        ((x | y) == 0u64) == (x == 0u64 && y == 0u64),
{
}

proof fn lemma_xor_zero(x: u64, y: u64)
    by (bit_vector)
    ensures
        ((x ^ y) == 0u64) == (x == y),
{
}

// ---------------------------------------------------------------------------
// The machine state
// ---------------------------------------------------------------------------

/// 64 machines' worth of mutable electrical state, bit-sliced: every array
/// is indexed by node (or transistor) and holds one `u64` whose bit `k` is
/// machine `k`'s value.
pub struct SliceState {
    pub value: Vec<u64>,
    pub pullup: Vec<u64>,
    pub pulldown: Vec<u64>,
    pub trans_on: Vec<u64>,
    /// Working space for a settle.
    pub scratch: SliceScratch,
}

/// Working space for a settle: the thermometer planes, rebuilt every round,
/// and the next levels.
pub struct SliceScratch {
    p_charged: Vec<u64>,
    p_pullup: Vec<u64>,
    p_pulldown: Vec<u64>,
    p_vcc: Vec<u64>,
    p_vss: Vec<u64>,
    next: Vec<u64>,
}

impl Clone for SliceState {
    /// A snapshot of all 64 machines.
    fn clone(&self) -> (r: Self)
        ensures
            r.lanes() == self.lanes(),
            forall|s: SliceModel| #[trigger] self.shaped(s) ==> r.shaped(s),
    {
        let r = SliceState {
            value: self.value.clone(),
            pullup: self.pullup.clone(),
            pulldown: self.pulldown.clone(),
            trans_on: self.trans_on.clone(),
            scratch: SliceScratch {
                p_charged: self.scratch.p_charged.clone(),
                p_pullup: self.scratch.p_pullup.clone(),
                p_pulldown: self.scratch.p_pulldown.clone(),
                p_vcc: self.scratch.p_vcc.clone(),
                p_vss: self.scratch.p_vss.clone(),
                next: self.scratch.next.clone(),
            },
        };
        assert(r.value@ =~= self.value@);
        assert(r.pullup@ =~= self.pullup@);
        assert(r.pulldown@ =~= self.pulldown@);
        assert(r.trans_on@ =~= self.trans_on@);
        r
    }
}

/// Set or clear `bit` in word `i`.
fn put(words: &mut Vec<u64>, i: usize, bit: u64, v: bool)
    requires
        i < old(words).len(),
    ensures
        final(words)@ == old(words)@.update(
            i as int,
            if v {
                old(words)@[i as int] | bit
            } else {
                old(words)@[i as int] & !bit
            },
        ),
{
    if v {
        let w = words[i] | bit;
        words.set(i, w);
    } else {
        let w = words[i] & !bit;
        words.set(i, w);
    }
}

/// Exchange drive across one transistor in one plane.
fn relax(plane: &mut Vec<u64>, a: usize, b: usize, on: u64, flow: Flow) -> (moved: u64)
    requires
        a < old(plane).len(),
        b < old(plane).len(),
    ensures
        (final(plane)@, moved) == exchange(old(plane)@, a as int, b as int, on, flow),
{
    let pa = plane[a];
    let pb = plane[b];
    let mut moved: u64 = 0;
    if flow != Flow::C2ToC1 {
        let new_b = pb | (pa & on);
        moved = new_b ^ pb;
        plane.set(b, new_b);
    }
    if flow != Flow::C1ToC2 {
        let new_a = pa | (pb & on);
        moved = moved | (new_a ^ pa);
        plane.set(a, new_a);
    }
    moved
}

fn zeros(n: usize) -> (r: Vec<u64>)
    ensures
        r@ == Seq::new(n as nat, |i: int| 0u64),
{
    let mut v: Vec<u64> = Vec::new();
    let mut i: usize = 0;
    while i < n
        invariant
            0 <= i <= n,
            v@ =~= Seq::new(i as nat, |k: int| 0u64),
        decreases n - i,
    {
        v.push(0);
        i = i + 1;
    }
    v
}

impl SliceState {
    /// The machine-wide state.
    pub open spec fn lanes(&self) -> Lanes {
        Lanes {
            value: self.value@,
            pullup: self.pullup@,
            pulldown: self.pulldown@,
            trans_on: self.trans_on@,
        }
    }

    /// The arrays have the netlist's shape.
    pub closed spec fn shaped(&self, s: SliceModel) -> bool {
        &&& self.value.len() == s.node_count
        &&& self.pullup.len() == s.node_count
        &&& self.pulldown.len() == s.node_count
        &&& self.trans_on.len() == s.trans_count
        &&& self.scratch.p_charged.len() == s.node_count
        &&& self.scratch.p_pullup.len() == s.node_count
        &&& self.scratch.p_pulldown.len() == s.node_count
        &&& self.scratch.p_vcc.len() == s.node_count
        &&& self.scratch.p_vss.len() == s.node_count
        &&& self.scratch.next.len() == s.node_count
    }

    /// A state of the netlist's shape has its public arrays at the netlist's
    /// lengths.
    pub proof fn lemma_shaped(&self, s: SliceModel)
        requires
            self.shaped(s),
        ensures
            self.lanes().value.len() == s.node_count,
            self.lanes().pullup.len() == s.node_count,
            self.lanes().pulldown.len() == s.node_count,
            self.lanes().trans_on.len() == s.trans_count,
    {
    }

    /// The scratch arrays are untouched.
    pub closed spec fn same_scratch(&self, other: &SliceState) -> bool {
        &&& self.scratch.p_charged == other.scratch.p_charged
        &&& self.scratch.p_pullup == other.scratch.p_pullup
        &&& self.scratch.p_pulldown == other.scratch.p_pulldown
        &&& self.scratch.p_vcc == other.scratch.p_vcc
        &&& self.scratch.p_vss == other.scratch.p_vss
        &&& self.scratch.next == other.scratch.next
    }

    /// All 64 machines with every node low, undriven, and every switch open.
    pub fn new(snl: &SliceNetlist) -> (r: SliceState)
        ensures
            r.shaped(snl.model()),
            r.lanes().value == Seq::new(snl.model().node_count, |i: int| 0u64),
            r.lanes().pullup == Seq::new(snl.model().node_count, |i: int| 0u64),
            r.lanes().pulldown == Seq::new(snl.model().node_count, |i: int| 0u64),
            r.lanes().trans_on == Seq::new(snl.model().trans_count, |i: int| 0u64),
    {
        let n = snl.node_count;
        let t = snl.trans_count;
        SliceState {
            value: zeros(n),
            pullup: zeros(n),
            pulldown: zeros(n),
            trans_on: zeros(t),
            scratch: SliceScratch {
                p_charged: zeros(n),
                p_pullup: zeros(n),
                p_pulldown: zeros(n),
                p_vcc: zeros(n),
                p_vss: zeros(n),
                next: zeros(n),
            },
        }
    }

    /// Put machine `lane` into the state of a scalar chip state.
    pub fn load_lane(&mut self, lane: usize, st: &ChipState)
        requires
            lane < 64,
            old(self).lanes().value.len() <= st.value@.len(),
            old(self).lanes().value.len() <= old(self).lanes().pullup.len(),
            old(self).lanes().value.len() <= old(self).lanes().pulldown.len(),
            old(self).lanes().value.len() <= st.pullup@.len(),
            old(self).lanes().value.len() <= st.pulldown@.len(),
            old(self).lanes().trans_on.len() <= st.trans_on@.len(),
        ensures
            final(self).same_scratch(&*old(self)),
            final(self).lanes().value == Seq::new(
                old(self).lanes().value.len(),
                |i: int| lane_put(old(self).lanes().value[i], lane, st.value@[i]),
            ),
            final(self).lanes().pullup == Seq::new(
                old(self).lanes().pullup.len(),
                |i: int|
                    if i < old(self).lanes().value.len() {
                        lane_put(old(self).lanes().pullup[i], lane, st.pullup@[i])
                    } else {
                        old(self).lanes().pullup[i]
                    },
            ),
            final(self).lanes().pulldown == Seq::new(
                old(self).lanes().pulldown.len(),
                |i: int|
                    if i < old(self).lanes().value.len() {
                        lane_put(old(self).lanes().pulldown[i], lane, st.pulldown@[i])
                    } else {
                        old(self).lanes().pulldown[i]
                    },
            ),
            final(self).lanes().trans_on == Seq::new(
                old(self).lanes().trans_on.len(),
                |i: int| lane_put(old(self).lanes().trans_on[i], lane, st.trans_on@[i]),
            ),
    {
        let bit: u64 = 1u64 << (lane as u64);
        let n = self.value.len();
        let mut i: usize = 0;
        while i < n
            invariant
                0 <= i <= n,
                lane < 64,
                bit == 1u64 << (lane as u64),
                n == old(self).value.len(),
                self.same_scratch(&*old(self)),
                self.trans_on == old(self).trans_on,
                self.value.len() == n,
                self.pullup.len() == old(self).pullup@.len(),
                self.pulldown.len() == old(self).pulldown@.len(),
                n <= old(self).pullup@.len(),
                n <= old(self).pulldown@.len(),
                n <= st.value@.len(),
                n <= st.pullup@.len(),
                n <= st.pulldown@.len(),
                forall|k: int|
                    0 <= k < n ==> self.value@[k] == if k < i {
                        lane_put(old(self).value@[k], lane, st.value@[k])
                    } else {
                        old(self).value@[k]
                    },
                forall|k: int|
                    0 <= k < old(self).pullup@.len() ==> self.pullup@[k] == if k < i {
                        lane_put(old(self).pullup@[k], lane, st.pullup@[k])
                    } else {
                        old(self).pullup@[k]
                    },
                forall|k: int|
                    0 <= k < old(self).pulldown@.len() ==> self.pulldown@[k] == if k < i {
                        lane_put(old(self).pulldown@[k], lane, st.pulldown@[k])
                    } else {
                        old(self).pulldown@[k]
                    },
            decreases n - i,
        {
            put(&mut self.value, i, bit, st.value.get(i));
            put(&mut self.pullup, i, bit, st.pullup.get(i));
            put(&mut self.pulldown, i, bit, st.pulldown.get(i));
            i = i + 1;
        }
        let nt = self.trans_on.len();
        let ghost v1 = self.value@;
        let ghost u1 = self.pullup@;
        let ghost d1 = self.pulldown@;
        let mut i: usize = 0;
        while i < nt
            invariant
                0 <= i <= nt,
                self.value@ == v1,
                self.pullup@ == u1,
                self.pulldown@ == d1,
                lane < 64,
                bit == 1u64 << (lane as u64),
                nt == old(self).trans_on.len(),
                self.same_scratch(&*old(self)),
                self.trans_on.len() == nt,
                nt <= st.trans_on@.len(),
                forall|k: int|
                    0 <= k < nt ==> self.trans_on@[k] == if k < i {
                        lane_put(old(self).trans_on@[k], lane, st.trans_on@[k])
                    } else {
                        old(self).trans_on@[k]
                    },
            decreases nt - i,
        {
            put(&mut self.trans_on, i, bit, st.trans_on.get(i));
            i = i + 1;
        }
        proof {
            assert(self.value@ =~= Seq::new(
                old(self).value@.len(),
                |i: int| lane_put(old(self).value@[i], lane, st.value@[i]),
            ));
            assert(self.pullup@ =~= Seq::new(
                old(self).pullup@.len(),
                |i: int|
                    if i < old(self).value@.len() {
                        lane_put(old(self).pullup@[i], lane, st.pullup@[i])
                    } else {
                        old(self).pullup@[i]
                    },
            ));
            assert(self.pulldown@ =~= Seq::new(
                old(self).pulldown@.len(),
                |i: int|
                    if i < old(self).value@.len() {
                        lane_put(old(self).pulldown@[i], lane, st.pulldown@[i])
                    } else {
                        old(self).pulldown@[i]
                    },
            ));
            assert(self.trans_on@ =~= Seq::new(
                old(self).trans_on@.len(),
                |i: int| lane_put(old(self).trans_on@[i], lane, st.trans_on@[i]),
            ));
        }
    }

    /// Whether node `n` is high in machine `lane`.
    pub fn is_high(&self, lane: usize, n: NodeId) -> (r: bool)
        requires
            lane < 64,
            (n as int) < self.lanes().value.len(),
        ensures
            r == bit_of(self.lanes().value[n as int], lane as u64),
    {
        let w = self.value[n as usize];
        proof {
            lemma_lane_test(w, lane as u64);
        }
        (w >> (lane as u64)) & 1 != 0
    }

    /// Set a node's pull in one lane.
    pub fn set_pull(&mut self, lane: usize, n: NodeId, high: bool)
        requires
            lane < 64,
            (n as int) < old(self).lanes().pullup.len(),
            (n as int) < old(self).lanes().pulldown.len(),
        ensures
            final(self).same_scratch(&*old(self)),
            final(self).lanes().value == old(self).lanes().value,
            final(self).lanes().trans_on == old(self).lanes().trans_on,
            final(self).lanes().pullup == old(self).lanes().pullup.update(
                n as int,
                lane_put(old(self).lanes().pullup[n as int], lane, high),
            ),
            final(self).lanes().pulldown == old(self).lanes().pulldown.update(
                n as int,
                lane_put(old(self).lanes().pulldown[n as int], lane, !high),
            ),
    {
        let bit: u64 = 1u64 << (lane as u64);
        put(&mut self.pullup, n as usize, bit, high);
        put(&mut self.pulldown, n as usize, bit, !high);
    }

    /// Set a node's pull in every lane at once: 64 machines take the same
    /// edge in one instruction.
    pub fn set_pull_all(&mut self, n: NodeId, high: bool)
        requires
            (n as int) < old(self).lanes().pullup.len(),
            (n as int) < old(self).lanes().pulldown.len(),
        ensures
            final(self).same_scratch(&*old(self)),
            final(self).lanes().value == old(self).lanes().value,
            final(self).lanes().trans_on == old(self).lanes().trans_on,
            final(self).lanes().pullup == old(self).lanes().pullup.update(n as int, mask(high)),
            final(self).lanes().pulldown == old(self).lanes().pulldown.update(n as int, mask(!high)),
    {
        let up: u64 = if high {
            0xffff_ffff_ffff_ffff
        } else {
            0
        };
        let down: u64 = if high {
            0
        } else {
            0xffff_ffff_ffff_ffff
        };
        self.pullup.set(n as usize, up);
        self.pulldown.set(n as usize, down);
    }

    /// Drive all 64 lanes' copy of a node from a per-lane mask.
    pub fn set_pull_mask(&mut self, n: NodeId, high_mask: u64)
        requires
            (n as int) < old(self).lanes().pullup.len(),
            (n as int) < old(self).lanes().pulldown.len(),
        ensures
            final(self).same_scratch(&*old(self)),
            final(self).lanes().value == old(self).lanes().value,
            final(self).lanes().trans_on == old(self).lanes().trans_on,
            final(self).lanes().pullup == old(self).lanes().pullup.update(n as int, high_mask),
            final(self).lanes().pulldown == old(self).lanes().pulldown.update(n as int, !high_mask),
    {
        self.pullup.set(n as usize, high_mask);
        self.pulldown.set(n as usize, !high_mask);
    }

    /// Set a node's pull in the lanes named by `lanes`, leaving the rest
    /// alone: how a bus read is serviced in just the machines that read.
    pub fn set_pull_where(&mut self, n: NodeId, lanes: u64, high: u64)
        requires
            (n as int) < old(self).lanes().pullup.len(),
            (n as int) < old(self).lanes().pulldown.len(),
        ensures
            final(self).same_scratch(&*old(self)),
            final(self).lanes().value == old(self).lanes().value,
            final(self).lanes().trans_on == old(self).lanes().trans_on,
            final(self).lanes().pullup == old(self).lanes().pullup.update(
                n as int,
                (old(self).lanes().pullup[n as int] & !lanes) | (high & lanes),
            ),
            final(self).lanes().pulldown == old(self).lanes().pulldown.update(
                n as int,
                (old(self).lanes().pulldown[n as int] & !lanes) | (!high & lanes),
            ),
    {
        let i = n as usize;
        let up = (self.pullup[i] & !lanes) | (high & lanes);
        let down = (self.pulldown[i] & !lanes) | (!high & lanes);
        self.pullup.set(i, up);
        self.pulldown.set(i, down);
    }

    /// The planes held in scratch.
    closed spec fn planes(&self) -> Planes {
        Planes {
            charged: self.scratch.p_charged@,
            pullup: self.scratch.p_pullup@,
            pulldown: self.scratch.p_pulldown@,
            vcc: self.scratch.p_vcc@,
            vss: self.scratch.p_vss@,
        }
    }

    /// One pass over every transistor in every plane.
    fn sweep_once(&mut self, snl: &SliceNetlist) -> (still: bool)
        requires
            snl.wf(),
            old(self).shaped(snl.model()),
        ensures
            final(self).shaped(snl.model()),
            final(self).lanes() == old(self).lanes(),
            final(self).scratch.next == old(self).scratch.next,
            (final(self).planes(), still) == sweep_all(snl.model(), old(self).trans_on@, old(self).planes()),
    {
        let ghost sm = snl.model();
        let ghost on = self.trans_on@;
        let ghost p0 = self.planes();
        let ghost mut mc: u64 = 0;
        let ghost mut mu: u64 = 0;
        let ghost mut md: u64 = 0;
        let ghost mut mv: u64 = 0;
        let ghost mut mg: u64 = 0;
        let mut moved: u64 = 0;
        let t = snl.trans_count;
        let mut ti: usize = 0;
        while ti < t
            invariant
                snl.wf(),
                sm == snl.model(),
                t == sm.trans_count,
                0 <= ti <= t,
                self.shaped(sm),
                self.lanes() == old(self).lanes(),
                self.scratch.next == old(self).scratch.next,
                on == self.trans_on@,
                (self.scratch.p_charged@, mc) == sweep(sm, on, p0.charged, ti as nat),
                (self.scratch.p_pullup@, mu) == sweep(sm, on, p0.pullup, ti as nat),
                (self.scratch.p_pulldown@, md) == sweep(sm, on, p0.pulldown, ti as nat),
                (self.scratch.p_vcc@, mv) == sweep(sm, on, p0.vcc, ti as nat),
                (self.scratch.p_vss@, mg) == sweep(sm, on, p0.vss, ti as nat),
                (moved == 0) == (mc == 0 && mu == 0 && md == 0 && mv == 0 && mg == 0),
            decreases t - ti,
        {
            let on_t = self.trans_on[ti];
            let flow = snl.flow[ti];
            if on_t == 0 || flow == Flow::Stopped {
                ti = ti + 1;
                continue;
            }
            let a = snl.c1[ti] as usize;
            let b = snl.c2[ti] as usize;
            let x1 = relax(&mut self.scratch.p_charged, a, b, on_t, flow);
            let x2 = relax(&mut self.scratch.p_pullup, a, b, on_t, flow);
            let x3 = relax(&mut self.scratch.p_pulldown, a, b, on_t, flow);
            let x4 = relax(&mut self.scratch.p_vcc, a, b, on_t, flow);
            let x5 = relax(&mut self.scratch.p_vss, a, b, on_t, flow);
            proof {
                lemma_or_zero(moved, x1);
                lemma_or_zero(moved | x1, x2);
                lemma_or_zero((moved | x1) | x2, x3);
                lemma_or_zero(((moved | x1) | x2) | x3, x4);
                lemma_or_zero((((moved | x1) | x2) | x3) | x4, x5);
                lemma_or_zero(mc, x1);
                lemma_or_zero(mu, x2);
                lemma_or_zero(md, x3);
                lemma_or_zero(mv, x4);
                lemma_or_zero(mg, x5);
                mc = mc | x1;
                mu = mu | x2;
                md = md | x3;
                mv = mv | x4;
                mg = mg | x5;
            }
            moved = moved | x1 | x2 | x3 | x4 | x5;
            ti = ti + 1;
        }
        moved == 0
    }

    /// All lanes if node `i` is ground, else none.
    fn is_vss_mask(&self, snl: &SliceNetlist, i: usize) -> (r: u64)
        requires
            snl.wf(),
            i < snl.model().node_count,
        ensures
            r == mask(snl.model().is_vss[i as int]),
    {
        if snl.is_vss[i] {
            0xffff_ffff_ffff_ffff
        } else {
            0
        }
    }

    /// All lanes if node `i` is the supply, else none.
    fn is_vcc_mask(&self, snl: &SliceNetlist, i: usize) -> (r: u64)
        requires
            snl.wf(),
            i < snl.model().node_count,
        ensures
            r == mask(snl.model().is_vcc[i as int]),
    {
        if snl.is_vcc[i] {
            0xffff_ffff_ffff_ffff
        } else {
            0
        }
    }

    /// Relax to a fixed point, at most `max_rounds` rounds. Returns the
    /// number of rounds taken, which is a round for all 64 machines.
    pub fn settle(&mut self, snl: &SliceNetlist, max_rounds: usize) -> (r: usize)
        requires
            snl.wf(),
            old(self).shaped(snl.model()),
        ensures
            final(self).shaped(snl.model()),
            (final(self).lanes(), r as nat) == rounds(snl.model(), old(self).lanes(), 0, max_rounds as nat),
    {
        let ghost sm = snl.model();
        let ghost target = rounds(sm, self.lanes(), 0, max_rounds as nat);
        let n = snl.node_count;
        let t = snl.trans_count;
        let mut done: usize = 0;
        while done < max_rounds
            invariant
                snl.wf(),
                sm == snl.model(),
                n == sm.node_count,
                t == sm.trans_count,
                self.shaped(sm),
                0 <= done <= max_rounds,
                target == rounds(sm, old(self).lanes(), 0, max_rounds as nat),
                rounds(sm, self.lanes(), done as nat, max_rounds as nat) == target,
            decreases max_rounds - done,
        {
            let round = done + 1;
            let ghost st = self.lanes();
            let ghost on = Seq::new(sm.trans_count, |k: int| st.value[sm.gate[k] as int]);
            // 0. Switches follow their gates before anything propagates.
            let mut sw: u64 = 0;
            let mut ti: usize = 0;
            while ti < t
                invariant
                    snl.wf(),
                    sm == snl.model(),
                    t == sm.trans_count,
                    0 <= ti <= t,
                    self.shaped(sm),
                    self.value@ == st.value,
                    self.pullup@ == st.pullup,
                    self.pulldown@ == st.pulldown,
                    st.trans_on.len() == t,
                    st.value.len() == sm.node_count,
                    on == Seq::new(sm.trans_count, |k: int| st.value[sm.gate[k] as int]),
                    forall|k: int|
                        0 <= k < t ==> self.trans_on@[k] == if k < ti {
                            on[k]
                        } else {
                            st.trans_on[k]
                        },
                    (sw == 0) == (forall|k: int| 0 <= k < ti ==> on[k] == st.trans_on[k]),
                decreases t - ti,
            {
                let g = self.value[snl.gate[ti] as usize];
                let d = g ^ self.trans_on[ti];
                proof {
                    lemma_or_zero(sw, d);
                    lemma_xor_zero(g, self.trans_on@[ti as int]);
                    assert(g == on[ti as int]);
                    assert(self.trans_on@[ti as int] == st.trans_on[ti as int]);
                    let eq = on[ti as int] == st.trans_on[ti as int];
                    if (forall|k: int| 0 <= k < ti ==> on[k] == st.trans_on[k]) && eq {
                        assert forall|k: int| 0 <= k < ti + 1 implies on[k] == st.trans_on[k] by {}
                    }
                }
                sw = sw | d;
                self.trans_on.set(ti, g);
                ti = ti + 1;
            }
            proof {
                assert(self.trans_on@ =~= on);
                if sw == 0 {
                    assert(on =~= st.trans_on);
                } else {
                    let k = choose|k: int| 0 <= k < t && on[k] != st.trans_on[k];
                    assert(on[k] != st.trans_on[k]);
                }
            }
            let ghost sw_zero = sw == 0;
            assert(sw_zero == (on == st.trans_on));
            // 1. Every node's own contribution to its group's drive.
            let ghost own = own_planes(sm, st.pullup, st.pulldown, st.value);
            let mut i: usize = 0;
            while i < n
                invariant
                    snl.wf(),
                    sm == snl.model(),
                    n == sm.node_count,
                    0 <= i <= n,
                    self.shaped(sm),
                    self.lanes() == (Lanes { trans_on: on, ..st }),
                    own == own_planes(sm, st.pullup, st.pulldown, st.value),
                    forall|k: int| 0 <= k < i ==> self.scratch.p_charged@[k] == own.charged[k],
                    forall|k: int| 0 <= k < i ==> self.scratch.p_pullup@[k] == own.pullup[k],
                    forall|k: int| 0 <= k < i ==> self.scratch.p_pulldown@[k] == own.pulldown[k],
                    forall|k: int| 0 <= k < i ==> self.scratch.p_vcc@[k] == own.vcc[k],
                    forall|k: int| 0 <= k < i ==> self.scratch.p_vss@[k] == own.vss[k],
                decreases n - i,
            {
                let pu = self.pullup[i];
                let pd = self.pulldown[i];
                let v = self.value[i];
                let vss = self.is_vss_mask(snl, i);
                let vcc = self.is_vcc_mask(snl, i);
                self.scratch.p_vss.set(i, vss);
                self.scratch.p_vcc.set(i, vss | vcc);
                self.scratch.p_pulldown.set(i, vss | vcc | pd);
                self.scratch.p_pullup.set(i, vss | vcc | pd | pu);
                self.scratch.p_charged.set(i, vss | vcc | pd | pu | v);
                i = i + 1;
            }
            proof {
                assert(self.planes() == own) by {
                    assert(self.scratch.p_charged@ =~= own.charged);
                    assert(self.scratch.p_pullup@ =~= own.pullup);
                    assert(self.scratch.p_pulldown@ =~= own.pulldown);
                    assert(self.scratch.p_vcc@ =~= own.vcc);
                    assert(self.scratch.p_vss@ =~= own.vss);
                }
            }
            // 2. Spread drive across conducting transistors until the planes
            //    stop moving.
            let ghost spread_target = spread(sm, on, own, max_rounds as nat);
            let mut spread_count: usize = 0;
            loop
                invariant_except_break
                    snl.wf(),
                    sm == snl.model(),
                    self.shaped(sm),
                    self.lanes() == (Lanes { trans_on: on, ..st }),
                    spread_count < max_rounds,
                    spread(sm, on, self.planes(), (max_rounds - spread_count) as nat) == spread_target,
                ensures
                    snl.wf(),
                    sm == snl.model(),
                    self.shaped(sm),
                    self.lanes() == (Lanes { trans_on: on, ..st }),
                    self.planes() == spread_target,
                decreases max_rounds - spread_count,
            {
                let still = self.sweep_once(snl);
                spread_count = spread_count + 1;
                if still || spread_count >= max_rounds {
                    break;
                }
            }
            // 3. Resolve: high exactly at charged-high, pullup or supply.
            let ghost p = self.planes();
            let ghost value2 = Seq::new(
                sm.node_count,
                |k: int|
                    if sm.is_rail[k] || !sm.exists[k] {
                        st.value[k]
                    } else {
                        high_of(p, k)
                    },
            );
            let mut changed: u64 = 0;
            let mut i: usize = 0;
            while i < n
                invariant
                    snl.wf(),
                    sm == snl.model(),
                    n == sm.node_count,
                    0 <= i <= n,
                    self.shaped(sm),
                    self.lanes() == (Lanes { trans_on: on, ..st }),
                    self.planes() == p,
                    value2 == Seq::new(
                        sm.node_count,
                        |k: int|
                            if sm.is_rail[k] || !sm.exists[k] {
                                st.value[k]
                            } else {
                                high_of(p, k)
                            },
                    ),
                    forall|k: int| 0 <= k < i ==> self.scratch.next@[k] == value2[k],
                    st.value.len() == n,
                    (changed == 0) == (forall|k: int| 0 <= k < i ==> value2[k] == st.value[k]),
                decreases n - i,
            {
                if snl.is_rail[i] || !snl.exists[i] {
                    let v = self.value[i];
                    self.scratch.next.set(i, v);
                    proof {
                        assert(value2[i as int] == st.value[i as int]);
                        if (forall|k: int| 0 <= k < i ==> value2[k] == st.value[k]) {
                            assert forall|k: int| 0 <= k < i + 1 implies value2[k] == st.value[k] by {}
                        }
                    }
                    i = i + 1;
                    continue;
                }
                let c = self.scratch.p_charged[i];
                let pu = self.scratch.p_pullup[i];
                let pd = self.scratch.p_pulldown[i];
                let vcc = self.scratch.p_vcc[i];
                let vss = self.scratch.p_vss[i];
                let high = (c & !pu) | (pu & !pd) | (vcc & !vss);
                let d = high ^ self.value[i];
                proof {
                    lemma_or_zero(changed, d);
                    lemma_xor_zero(high, self.value@[i as int]);
                    assert(high == value2[i as int]);
                    let eq = value2[i as int] == st.value[i as int];
                    if (forall|k: int| 0 <= k < i ==> value2[k] == st.value[k]) && eq {
                        assert forall|k: int| 0 <= k < i + 1 implies value2[k] == st.value[k] by {}
                    }
                }
                changed = changed | d;
                self.scratch.next.set(i, high);
                i = i + 1;
            }
            let mut k: usize = 0;
            while k < n
                invariant
                    snl.wf(),
                    sm == snl.model(),
                    n == sm.node_count,
                    0 <= k <= n,
                    self.shaped(sm),
                    self.pullup@ == st.pullup,
                    self.pulldown@ == st.pulldown,
                    self.trans_on@ == on,
                    forall|j: int| 0 <= j < n ==> self.scratch.next@[j] == value2[j],
                    forall|j: int| 0 <= j < k ==> self.value@[j] == value2[j],
                decreases n - k,
            {
                let x = self.scratch.next[k];
                self.value.set(k, x);
                k = k + 1;
            }
            proof {
                assert(self.value@ =~= value2);
                assert(self.lanes() == round_spec(sm, st, max_rounds as nat).0);
                if changed == 0 {
                    assert(value2 =~= st.value);
                } else {
                    let k = choose|k: int| 0 <= k < n && value2[k] != st.value[k];
                    assert(value2[k] != st.value[k]);
                }
                assert((changed == 0) == (value2 == st.value));
                assert(round_spec(sm, st, max_rounds as nat).1 == (changed == 0 && sw_zero));
            }
            if changed == 0 && sw == 0 {
                proof {
                    assert(rounds(sm, st, done as nat, max_rounds as nat) == (self.lanes(), round as nat));
                }
                return round;
            }
            done = round;
        }
        max_rounds
    }

    /// Read one lane's value off a bus of nodes, least significant first.
    pub fn read_bus(&self, lane: usize, bus: &[NodeId]) -> (r: u32)
        requires
            lane < 64,
            bus@.len() <= 32,
            forall|k: int| 0 <= k < bus@.len() ==> (bus@[k] as int) < self.lanes().value.len(),
        ensures
            r == bus_value(lane_levels(self.lanes().value, lane, bus@)),
    {
        let ghost bits = lane_levels(self.value@, lane, bus@);
        let mut v: u32 = 0;
        let mut i = bus.len();
        proof {
            assert(bits.skip(i as int) =~= Seq::<bool>::empty());
            vstd::arithmetic::power2::lemma2_to64();
        }
        while i > 0
            invariant
                0 <= i <= bus@.len(),
                bus@.len() <= 32,
                lane < 64,
                bits == lane_levels(self.value@, lane, bus@),
                forall|k: int| 0 <= k < bus@.len() ==> (bus@[k] as int) < self.value@.len(),
                v == bus_value(bits.skip(i as int)),
                v < vstd::arithmetic::power2::pow2((bus@.len() - i) as nat),
            decreases i,
        {
            proof {
                crate::engine::lemma_bus_step(bits, i as int);
                vstd::arithmetic::power2::lemma2_to64();
                vstd::arithmetic::power2::lemma_pow2_unfold((bus@.len() - i + 1) as nat);
                if bus@.len() - i + 1 < 32 {
                    vstd::arithmetic::power2::lemma_pow2_strictly_increases(
                        (bus@.len() - i + 1) as nat,
                        32,
                    );
                }
            }
            let b: u32 = if self.is_high(lane, bus[i - 1]) {
                1
            } else {
                0
            };
            v = v * 2 + b;
            i = i - 1;
        }
        proof {
            assert(bits.skip(0) =~= bits);
        }
        v
    }
}

/// A word with machine `lane`'s bit set to `v`.
pub open spec fn lane_put(w: u64, lane: usize, v: bool) -> u64 {
    if v {
        w | (1u64 << (lane as u64))
    } else {
        w & !(1u64 << (lane as u64))
    }
}

/// One lane's levels of these nodes, in order.
pub open spec fn lane_levels(value: Seq<u64>, lane: usize, nodes: Seq<u16>) -> Seq<bool> {
    Seq::new(nodes.len(), |i: int| bit_of(value[nodes[i] as int], lane as u64))
}

proof fn lemma_lane_test(w: u64, k: u64)
    by (bit_vector)
    requires
        k < 64,
    ensures
        ((w >> k) & 1u64 != 0u64) == bit_of(w, k),
{
}

} // verus!

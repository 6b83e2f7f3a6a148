//! Chip-agnostic switch-level solver.
//!
//! Nodes are wires, transistors are switches controlled by a node. A node's
//! logic level is not a property of the node but of the group of nodes
//! currently shorted together through conducting transistors. Settling means
//! repeatedly rebuilding groups and propagating their resolved level until
//! nothing changes.

use vstd::prelude::*;
use vstd::string::*;
use std::sync::Arc;
use crate::bitset::{BitSet, count_true};
use crate::netlist::{
    ChargeRule,
    Netlist,
    NetModel,
    NodeId,
    Terminal,
    TransId,
    spec_gates_of,
    spec_terminals_of,
    terminal_ok,
};

verus! {

/// The round limit of a settle. A settle that needs more
/// rounds than this is oscillating, and is counted in
/// `Stats::nonconvergent_settles`.
pub const MAX_SETTLE_ROUNDS: usize = 100;

/// How strongly a connected group of nodes is being driven, in ascending
/// precedence: `Floating < ChargedHigh < PullUp < PullDown < Vcc < Vss`.
/// Resolving a group means taking the maximum over its members.
#[derive(Copy, Clone, PartialEq, Eq, Structural, PartialOrd, Ord, Debug)]
pub enum Drive {
    /// Nothing in the group drives or holds a level.
    Floating,
    /// No driver, but some member still holds a high charge.
    ChargedHigh,
    PullUp,
    PullDown,
    Vcc,
    Vss,
}

/// A drive's place in the precedence order.
pub open spec fn rank(d: Drive) -> nat {
    match d {
        Drive::Floating => 0,
        Drive::ChargedHigh => 1,
        Drive::PullUp => 2,
        Drive::PullDown => 3,
        Drive::Vcc => 4,
        Drive::Vss => 5,
    }
}

/// The stronger of two drives.
pub open spec fn dmax(a: Drive, b: Drive) -> Drive {
    if rank(a) >= rank(b) {
        a
    } else {
        b
    }
}

/// The logic level a drive resolves to.
pub open spec fn drive_level(d: Drive) -> bool {
    d == Drive::Vcc || d == Drive::PullUp || d == Drive::ChargedHigh
}

impl Default for Drive {
    fn default() -> (r: Drive)
        ensures
            r == Drive::Floating,
    {
        Drive::Floating
    }
}

impl Drive {
    /// The logic level this drive resolves to.
    pub fn level(self) -> (r: bool)
        ensures
            r == drive_level(self),
    {
        match self {
            Drive::Vcc | Drive::PullUp | Drive::ChargedHigh => true,
            _ => false,
        }
    }

    /// The stronger of two drives.
    fn stronger(self, other: Drive) -> (r: Drive)
        ensures
            r == dmax(self, other),
    {
        if self.rank_of() >= other.rank_of() {
            self
        } else {
            other
        }
    }

    fn rank_of(self) -> (r: u8)
        ensures
            r == rank(self),
    {
        match self {
            Drive::Floating => 0,
            Drive::ChargedHigh => 1,
            Drive::PullUp => 2,
            Drive::PullDown => 3,
            Drive::Vcc => 4,
            Drive::Vss => 5,
        }
    }
}

/// All mutable electrical state of the chip. Cloning it is a full snapshot;
/// the netlist is shared and never copied.
#[derive(Debug, PartialEq, Eq)]
pub struct ChipState {
    /// Logic level of each node.
    pub value: BitSet,
    /// Pullup per node. Mutable: driving a bus works by flipping pulls.
    pub pullup: BitSet,
    /// Pulldown per node.
    pub pulldown: BitSet,
    /// Conducting state of each transistor.
    pub trans_on: BitSet,
}

impl ChipState {
    /// Every node low and undriven but for the layout's pullups, every
    /// transistor off.
    pub fn new(netlist: &Netlist) -> (r: ChipState)
        requires
            netlist.wf(),
        ensures
            r.value@ == Seq::new(netlist.model().node_count, |i: int| false),
            r.pullup@ == netlist.model().pullup,
            r.pulldown@ == Seq::new(netlist.model().node_count, |i: int| false),
            r.trans_on@ == Seq::new(netlist.model().trans_count(), |i: int| false),
    {
        ChipState {
            value: BitSet::new(netlist.node_count()),
            pullup: netlist.pullups().duplicate(),
            pulldown: BitSet::new(netlist.node_count()),
            trans_on: BitSet::new(netlist.transistor_count()),
        }
    }

    /// Make this state equal to `other`, which has the same shape.
    pub fn copy_from(&mut self, other: &ChipState)
        requires
            old(self).value@.len() == other.value@.len(),
            old(self).pullup@.len() == other.pullup@.len(),
            old(self).pulldown@.len() == other.pulldown@.len(),
            old(self).trans_on@.len() == other.trans_on@.len(),
        ensures
            final(self).value@ == other.value@,
            final(self).pullup@ == other.pullup@,
            final(self).pulldown@ == other.pulldown@,
            final(self).trans_on@ == other.trans_on@,
    {
        self.value.copy_from(&other.value);
        self.pullup.copy_from(&other.pullup);
        self.pulldown.copy_from(&other.pulldown);
        self.trans_on.copy_from(&other.trans_on);
    }
}

impl Clone for ChipState {
    /// A full snapshot.
    fn clone(&self) -> (r: Self)
        ensures
            r.value@ == self.value@,
            r.pullup@ == self.pullup@,
            r.pulldown@ == self.pulldown@,
            r.trans_on@ == self.trans_on@,
    {
        ChipState {
            value: self.value.duplicate(),
            pullup: self.pullup.duplicate(),
            pulldown: self.pulldown.duplicate(),
            trans_on: self.trans_on.duplicate(),
        }
    }
}

/// Instrumentation. The counters wrap rather than overflow.
#[derive(Clone, Copy, Debug, PartialEq, Eq, Structural)]
pub struct Stats {
    pub settles: u64,
    pub rounds: u64,
    pub node_recalcs: u64,
    pub group_members: u64,
    /// Settles that hit `MAX_SETTLE_ROUNDS` without converging.
    pub nonconvergent_settles: u64,
    /// Groups containing both a pullup and a pulldown. Well defined (pulldown
    /// wins) but a genuine electrical contention.
    pub contested_groups: u64,
    /// Groups joined to both rails where a marked member made the rails
    /// cancel.
    pub rail_conflict_holds: u64,
    /// Undriven groups where the area vote said low although a member held
    /// charge: the groups on which the two charge rules disagree.
    pub area_vote_lows: u64,
}

pub open spec fn zero_stats() -> Stats {
    Stats {
        settles: 0,
        rounds: 0,
        node_recalcs: 0,
        group_members: 0,
        nonconvergent_settles: 0,
        contested_groups: 0,
        rail_conflict_holds: 0,
        area_vote_lows: 0,
    }
}

impl Default for Stats {
    fn default() -> (r: Stats)
        ensures
            r == zero_stats(),
    {
        Stats {
            settles: 0,
            rounds: 0,
            node_recalcs: 0,
            group_members: 0,
            nonconvergent_settles: 0,
            contested_groups: 0,
            rail_conflict_holds: 0,
            area_vote_lows: 0,
        }
    }
}

/// A record of group searches, for analysis: per search the seed node,
/// whether any member's level changed, and where its members start in
/// `members`; plus caller-supplied labels. Recording is off unless a caller
/// turns it on, because steady-state settling allocates nothing and
/// recording does.
#[derive(Debug)]
pub struct Probe {
    /// Whether recording is on.
    pub on: bool,
    /// The node each search was seeded from.
    pub seed: Vec<NodeId>,
    /// Whether that search changed any member's stored level.
    pub changed: Vec<bool>,
    /// Offset into `members` where each search's group begins.
    pub start: Vec<u32>,
    /// Every group's members, concatenated.
    pub members: Vec<NodeId>,
    /// Caller-supplied labels: (label, the search count when it was set).
    pub marks: Vec<(u64, u32)>,
}

impl Default for Probe {
    fn default() -> (r: Probe)
        ensures
            !r.on,
            r.seed@.len() == 0,
            r.changed@.len() == 0,
            r.start@.len() == 0,
            r.members@.len() == 0,
            r.marks@.len() == 0,
    {
        Probe {
            on: false,
            seed: Vec::new(),
            changed: Vec::new(),
            start: Vec::new(),
            members: Vec::new(),
            marks: Vec::new(),
        }
    }
}

impl Probe {
    /// Where the members of search `i` end: where the next begins, or the
    /// end of `members` for the last.
    pub open spec fn group_end(&self, i: int) -> int {
        if i + 1 < self.start@.len() {
            self.start@[i + 1] as int
        } else {
            self.members@.len() as int
        }
    }

    /// The members of search `i`.
    pub fn group(&self, i: usize) -> (r: &[NodeId])
        requires
            i < self.start@.len(),
            self.start@[i as int] <= self.group_end(i as int) <= self.members@.len(),
        ensures
            r@ == self.members@.subrange(self.start@[i as int] as int, self.group_end(i as int)),
    {
        let a = self.start[i] as usize;
        let b = if i < self.start.len() - 1 {
            self.start[i + 1] as usize
        } else {
            self.members.len()
        };
        vstd::slice::slice_subrange(self.members.as_slice(), a, b)
    }

    /// How many searches are recorded.
    pub fn len(&self) -> (r: usize)
        ensures
            r == self.seed@.len(),
    {
        self.seed.len()
    }

    pub fn is_empty(&self) -> (r: bool)
        ensures
            r == (self.seed@.len() == 0),
    {
        self.seed.len() == 0
    }

    /// Note where the caller is in its own units, half-cycles usually.
    pub fn mark(&mut self, label: u64)
        ensures
            final(self).marks@ == old(self).marks@.push((label, old(self).seed@.len() as u32)),
            final(self).on == old(self).on,
            final(self).seed == old(self).seed,
            final(self).changed == old(self).changed,
            final(self).start == old(self).start,
            final(self).members == old(self).members,
    {
        let n = self.seed.len() as u32;
        self.marks.push((label, n));
    }
}

// ---------------------------------------------------------------------------
// What a group is and how it resolves
// ---------------------------------------------------------------------------

/// Whether node `x` is among the members.
pub open spec fn has_node(g: Seq<u16>, x: int) -> bool {
    exists|k: int| 0 <= k < g.len() && g[k] as int == x
}

/// Grow `g` across these terminals, in order: the far node joins when its
/// transistor conducts and it is not already a member.
pub open spec fn expand(g: Seq<u16>, ts: Seq<Terminal>, on: Seq<bool>) -> Seq<u16>
    decreases ts.len(),
{
    if ts.len() == 0 {
        g
    } else {
        let h = expand(g, ts.drop_last(), on);
        let t = ts.last();
        if on[t.transistor as int] && !has_node(h, t.other as int) {
            h.push(t.other)
        } else {
            h
        }
    }
}

/// Breadth-first growth of `g` from member `i` on. Rails are members but are
/// never crossed. `fuel` bounds the walk; a group never needs more steps than
/// there are nodes.
pub open spec fn bfs(m: NetModel, on: Seq<bool>, g: Seq<u16>, i: nat, fuel: nat) -> Seq<u16>
    decreases fuel,
{
    if fuel == 0 || i >= g.len() {
        g
    } else {
        let x = g[i as int];
        let g2 = if m.is_rail(x as int) {
            g
        } else {
            expand(g, spec_terminals_of(m, x as int), on)
        };
        bfs(m, on, g2, i + 1, (fuel - 1) as nat)
    }
}

/// The group of `n`: every node joined to it through conducting
/// transistors without crossing a rail, in breadth-first order from `n`.
pub open spec fn group_of_spec(m: NetModel, on: Seq<bool>, n: u16) -> Seq<u16> {
    bfs(m, on, seq![n], 0, m.node_count + 1)
}

/// What a walk over a group's members has seen.
pub struct Scan {
    pub drive: Drive,
    pub up: bool,
    pub down: bool,
    pub vss: bool,
    pub vcc: bool,
    pub hi: nat,
    pub lo: nat,
}

/// Walk the members: the strongest drive among the non-rail members' pulls
/// and held charge, whether any pulls up or down, whether the group holds
/// each rail, and the areas of its charged and uncharged non-rail members.
pub open spec fn scan(
    nl: Netlist,
    value: Seq<bool>,
    pullup: Seq<bool>,
    pulldown: Seq<bool>,
    g: Seq<u16>,
) -> Scan
    decreases g.len(),
{
    if g.len() == 0 {
        Scan { drive: Drive::Floating, up: false, down: false, vss: false, vcc: false, hi: 0, lo: 0 }
    } else {
        let s = scan(nl, value, pullup, pulldown, g.drop_last());
        let x = g.last();
        if x == nl.model().vss {
            Scan { drive: s.drive, up: s.up, down: s.down, vss: true, vcc: s.vcc, hi: s.hi, lo: s.lo }
        } else if x == nl.model().vcc {
            Scan { drive: s.drive, up: s.up, down: s.down, vss: s.vss, vcc: true, hi: s.hi, lo: s.lo }
        } else {
            let k = x as int;
            let d1 = if pullup[k] {
                dmax(s.drive, Drive::PullUp)
            } else {
                s.drive
            };
            let d2 = if pulldown[k] {
                dmax(d1, Drive::PullDown)
            } else {
                d1
            };
            let d3 = if value[k] {
                dmax(d2, Drive::ChargedHigh)
            } else {
                d2
            };
            let a = nl.areas()[k] as nat;
            Scan {
                drive: d3,
                up: s.up || pullup[k],
                down: s.down || pulldown[k],
                vss: s.vss,
                vcc: s.vcc,
                hi: if value[k] {
                    s.hi + a
                } else {
                    s.hi
                },
                lo: if value[k] {
                    s.lo
                } else {
                    s.lo + a
                },
            }
        }
    }
}

/// Whether any member carries the rail-conflict hold.
pub open spec fn any_hold(nl: Netlist, g: Seq<u16>) -> bool {
    exists|k: int| 0 <= k < g.len() && nl.holds()[#[trigger] g[k] as int]
}

/// Whether the area vote turned a charged group low.
pub open spec fn vote_lows(nl: Netlist, s: Scan) -> bool {
    nl.rule() == ChargeRule::AreaVote && s.drive == Drive::ChargedHigh && s.hi <= s.lo
}

/// Whether the rails cancel: the group holds both and a marked member.
pub open spec fn rails_cancel(nl: Netlist, s: Scan, g: Seq<u16>) -> bool {
    s.vss && s.vcc && any_hold(nl, g)
}

/// How a group resolves.
///
/// The members' pulls and held charge, under the area vote an undriven
/// charged group going low unless its charged members outweigh the rest;
/// then the rails on top, Vss over Vcc. Where the group holds both rails and
/// a marked member, the rails cancel instead: pulls first, then the
/// area-weighted charge vote.
pub open spec fn group_drive(
    nl: Netlist,
    value: Seq<bool>,
    pullup: Seq<bool>,
    pulldown: Seq<bool>,
    g: Seq<u16>,
) -> Drive {
    let s = scan(nl, value, pullup, pulldown, g);
    let d = if vote_lows(nl, s) {
        Drive::Floating
    } else {
        s.drive
    };
    if rails_cancel(nl, s, g) {
        let held = if s.down {
            Drive::PullDown
        } else if s.up {
            Drive::PullUp
        } else {
            Drive::Floating
        };
        if held == Drive::Floating && s.hi > s.lo {
            Drive::ChargedHigh
        } else {
            held
        }
    } else {
        let d2 = if s.vcc {
            dmax(d, Drive::Vcc)
        } else {
            d
        };
        if s.vss {
            dmax(d2, Drive::Vss)
        } else {
            d2
        }
    }
}

/// The counters after resolving a group.
pub open spec fn group_stats(
    nl: Netlist,
    value: Seq<bool>,
    pullup: Seq<bool>,
    pulldown: Seq<bool>,
    g: Seq<u16>,
    st: Stats,
) -> Stats {
    let s = scan(nl, value, pullup, pulldown, g);
    Stats {
        group_members: st.group_members.wrapping_add(g.len() as u64),
        contested_groups: if s.up && s.down {
            st.contested_groups.wrapping_add(1)
        } else {
            st.contested_groups
        },
        area_vote_lows: if vote_lows(nl, s) {
            st.area_vote_lows.wrapping_add(1)
        } else {
            st.area_vote_lows
        },
        rail_conflict_holds: if rails_cancel(nl, s, g) {
            st.rail_conflict_holds.wrapping_add(1)
        } else {
            st.rail_conflict_holds
        },
        ..st
    }
}

// ---------------------------------------------------------------------------
// What settling does
// ---------------------------------------------------------------------------

/// The part of the solver that settling changes: levels, switches, the queue
/// of nodes to revisit in the next round, and the counters.
pub struct Sim {
    pub value: Seq<bool>,
    pub trans_on: Seq<bool>,
    pub next: Seq<u16>,
    pub stats: Stats,
}

/// Queue a node for the next round, unless it is a rail or already queued.
pub open spec fn queue_spec(m: NetModel, next: Seq<u16>, n: u16) -> Seq<u16> {
    if m.is_rail(n as int) || has_node(next, n as int) {
        next
    } else {
        next.push(n)
    }
}

/// Close a switch. Closing merges c1 and c2 into one group, so recalculating
/// from c1 reaches both.
pub open spec fn switch_on(m: NetModel, s: Sim, t: u16) -> Sim {
    if s.trans_on[t as int] {
        s
    } else {
        Sim {
            trans_on: s.trans_on.update(t as int, true),
            next: queue_spec(m, s.next, m.c1[t as int]),
            ..s
        }
    }
}

/// Open a switch. Opening splits one group into two, so both ends are
/// revisited.
pub open spec fn switch_off(m: NetModel, s: Sim, t: u16) -> Sim {
    if !s.trans_on[t as int] {
        s
    } else {
        Sim {
            trans_on: s.trans_on.update(t as int, false),
            next: queue_spec(m, queue_spec(m, s.next, m.c1[t as int]), m.c2[t as int]),
            ..s
        }
    }
}

/// Set every one of these switches to `level`, in order.
pub open spec fn switch_all(m: NetModel, s: Sim, ts: Seq<u16>, level: bool) -> Sim
    decreases ts.len(),
{
    if ts.len() == 0 {
        s
    } else {
        let s1 = switch_all(m, s, ts.drop_last(), level);
        if level {
            switch_on(m, s1, ts.last())
        } else {
            switch_off(m, s1, ts.last())
        }
    }
}

/// Give every non-rail member the group's level, in member order; a member
/// whose level changes flips the transistors it gates.
pub open spec fn write_members(m: NetModel, s: Sim, g: Seq<u16>, level: bool) -> Sim
    decreases g.len(),
{
    if g.len() == 0 {
        s
    } else {
        let s1 = write_members(m, s, g.drop_last(), level);
        let x = g.last() as int;
        if m.is_rail(x) || s1.value[x] == level {
            s1
        } else {
            switch_all(m, Sim { value: s1.value.update(x, level), ..s1 }, spec_gates_of(m, x), level)
        }
    }
}

/// Recalculate one node: build its group, resolve it, write the level back.
/// Rails are fixed points and are skipped.
pub open spec fn recalc_spec(nl: Netlist, pullup: Seq<bool>, pulldown: Seq<bool>, s: Sim, n: u16) -> Sim {
    let m = nl.model();
    if m.is_rail(n as int) {
        s
    } else {
        let st1 = Stats { node_recalcs: s.stats.node_recalcs.wrapping_add(1), ..s.stats };
        let g = group_of_spec(m, s.trans_on, n);
        let d = group_drive(nl, s.value, pullup, pulldown, g);
        let st2 = group_stats(nl, s.value, pullup, pulldown, g, st1);
        write_members(m, Sim { stats: st2, ..s }, g, drive_level(d))
    }
}

/// One round: recalculate each node of the list in order.
pub open spec fn round_spec(nl: Netlist, pullup: Seq<bool>, pulldown: Seq<bool>, s: Sim, cur: Seq<u16>) -> Sim
    decreases cur.len(),
{
    if cur.len() == 0 {
        s
    } else {
        recalc_spec(nl, pullup, pulldown, round_spec(nl, pullup, pulldown, s, cur.drop_last()), cur.last())
    }
}

/// Up to `k` rounds from this list; whether the list ran dry first.
pub open spec fn rounds_spec(
    nl: Netlist,
    pullup: Seq<bool>,
    pulldown: Seq<bool>,
    s: Sim,
    cur: Seq<u16>,
    k: nat,
) -> (Sim, bool)
    decreases k,
{
    if k == 0 {
        (s, false)
    } else if cur.len() == 0 {
        (s, true)
    } else {
        let s1 = Sim {
            next: Seq::empty(),
            stats: Stats { rounds: s.stats.rounds.wrapping_add(1), ..s.stats },
            ..s
        };
        let s2 = round_spec(nl, pullup, pulldown, s1, cur);
        rounds_spec(nl, pullup, pulldown, Sim { next: Seq::empty(), ..s2 }, s2.next, (k - 1) as nat)
    }
}

/// Settle from these seeds: rounds until nothing is queued, at most
/// `MAX_SETTLE_ROUNDS` of them, counting a settle that runs out as
/// nonconvergent.
pub open spec fn settle_spec(
    nl: Netlist,
    pullup: Seq<bool>,
    pulldown: Seq<bool>,
    value: Seq<bool>,
    trans_on: Seq<bool>,
    stats: Stats,
    seeds: Seq<u16>,
) -> Sim {
    let s0 = Sim {
        value,
        trans_on,
        next: Seq::empty(),
        stats: Stats { settles: stats.settles.wrapping_add(1), ..stats },
    };
    let (r, converged) = rounds_spec(nl, pullup, pulldown, s0, seeds, MAX_SETTLE_ROUNDS as nat);
    if converged {
        r
    } else {
        Sim {
            stats: Stats { nonconvergent_settles: r.stats.nonconvergent_settles.wrapping_add(1), ..r.stats },
            ..r
        }
    }
}

// ---------------------------------------------------------------------------
// What the probe records
// ---------------------------------------------------------------------------

/// One group search: the node it was seeded from, whether it changed any
/// member's stored level, and the group it found.
pub struct Search {
    pub seed: u16,
    pub changed: bool,
    pub members: Seq<u16>,
}

/// Whether writing `level` to the members of `g`, in order, changes the
/// stored level of any member that is not a rail.
pub open spec fn changed_in(m: NetModel, s: Sim, g: Seq<u16>, level: bool) -> bool
    decreases g.len(),
{
    if g.len() == 0 {
        false
    } else {
        let x = g.last() as int;
        changed_in(m, s, g.drop_last(), level) || (!m.is_rail(x) && write_members(
            m,
            s,
            g.drop_last(),
            level,
        ).value[x] != level)
    }
}

/// The search that recalculating `n` makes: none for a rail.
pub open spec fn search_of(nl: Netlist, pullup: Seq<bool>, pulldown: Seq<bool>, s: Sim, n: u16) -> Seq<Search> {
    let m = nl.model();
    if m.is_rail(n as int) {
        Seq::empty()
    } else {
        let st1 = Stats { node_recalcs: s.stats.node_recalcs.wrapping_add(1), ..s.stats };
        let g = group_of_spec(m, s.trans_on, n);
        let d = group_drive(nl, s.value, pullup, pulldown, g);
        let st2 = group_stats(nl, s.value, pullup, pulldown, g, st1);
        seq![Search { seed: n, changed: changed_in(m, Sim { stats: st2, ..s }, g, drive_level(d)), members: g }]
    }
}

/// The searches of one round, in order.
pub open spec fn round_log(nl: Netlist, pullup: Seq<bool>, pulldown: Seq<bool>, s: Sim, cur: Seq<u16>) -> Seq<Search>
    decreases cur.len(),
{
    if cur.len() == 0 {
        Seq::empty()
    } else {
        round_log(nl, pullup, pulldown, s, cur.drop_last()) + search_of(
            nl,
            pullup,
            pulldown,
            round_spec(nl, pullup, pulldown, s, cur.drop_last()),
            cur.last(),
        )
    }
}

/// The searches of up to `k` rounds, as `rounds_spec` runs them.
pub open spec fn rounds_log(
    nl: Netlist,
    pullup: Seq<bool>,
    pulldown: Seq<bool>,
    s: Sim,
    cur: Seq<u16>,
    k: nat,
) -> Seq<Search>
    decreases k,
{
    if k == 0 || cur.len() == 0 {
        Seq::empty()
    } else {
        let s1 = Sim {
            next: Seq::empty(),
            stats: Stats { rounds: s.stats.rounds.wrapping_add(1), ..s.stats },
            ..s
        };
        let s2 = round_spec(nl, pullup, pulldown, s1, cur);
        round_log(nl, pullup, pulldown, s1, cur) + rounds_log(
            nl,
            pullup,
            pulldown,
            Sim { next: Seq::empty(), ..s2 },
            s2.next,
            (k - 1) as nat,
        )
    }
}

/// The searches a settle from these seeds makes, in order.
pub open spec fn settle_log(
    nl: Netlist,
    pullup: Seq<bool>,
    pulldown: Seq<bool>,
    value: Seq<bool>,
    trans_on: Seq<bool>,
    stats: Stats,
    seeds: Seq<u16>,
) -> Seq<Search> {
    let s0 = Sim {
        value,
        trans_on,
        next: Seq::empty(),
        stats: Stats { settles: stats.settles.wrapping_add(1), ..stats },
    };
    rounds_log(nl, pullup, pulldown, s0, seeds, MAX_SETTLE_ROUNDS as nat)
}

/// The searches' seeds.
pub open spec fn seeds_of(l: Seq<Search>) -> Seq<u16> {
    l.map_values(|e: Search| e.seed)
}

/// Whether each search changed a level.
pub open spec fn flags_of(l: Seq<Search>) -> Seq<bool> {
    l.map_values(|e: Search| e.changed)
}

/// The searches' groups, concatenated.
pub open spec fn members_of(l: Seq<Search>) -> Seq<u16>
    decreases l.len(),
{
    if l.len() == 0 {
        Seq::empty()
    } else {
        members_of(l.drop_last()) + l.last().members
    }
}

/// Where each search's group starts, counting from `base` (as a `u32`, the
/// type the probe keeps offsets in).
pub open spec fn starts_of(base: int, l: Seq<Search>) -> Seq<u32>
    decreases l.len(),
{
    if l.len() == 0 {
        Seq::empty()
    } else {
        starts_of(base, l.drop_last()).push((base + members_of(l.drop_last()).len()) as u32)
    }
}

/// `after` is `before` with the searches `l` appended: seed, changed flag,
/// start offset and members for each, the switch and the labels untouched.
pub open spec fn logged(before: Probe, after: Probe, l: Seq<Search>) -> bool {
    &&& after.on == before.on
    &&& after.marks@ == before.marks@
    &&& after.seed@ == before.seed@ + seeds_of(l)
    &&& after.changed@ == before.changed@ + flags_of(l)
    &&& after.start@ == before.start@ + starts_of(before.members@.len() as int, l)
    &&& after.members@ == before.members@ + members_of(l)
}

proof fn lemma_members_of_concat(a: Seq<Search>, b: Seq<Search>)
    ensures
        members_of(a + b) == members_of(a) + members_of(b),
    decreases b.len(),
{
    if b.len() == 0 {
        assert(a + b =~= a);
        assert(members_of(a) + members_of(b) =~= members_of(a));
    } else {
        assert((a + b).drop_last() =~= a + b.drop_last());
        lemma_members_of_concat(a, b.drop_last());
        assert(members_of(a + b) =~= members_of(a) + members_of(b));
    }
}

proof fn lemma_starts_of_concat(base: int, a: Seq<Search>, b: Seq<Search>)
    ensures
        starts_of(base, a + b) == starts_of(base, a) + starts_of(base + members_of(a).len(), b),
    decreases b.len(),
{
    if b.len() == 0 {
        assert(a + b =~= a);
        assert(starts_of(base, a) + starts_of(base + members_of(a).len(), b) =~= starts_of(base, a));
    } else {
        assert((a + b).drop_last() =~= a + b.drop_last());
        lemma_starts_of_concat(base, a, b.drop_last());
        lemma_members_of_concat(a, b.drop_last());
        assert(starts_of(base, a + b) =~= starts_of(base, a) + starts_of(base + members_of(a).len(), b));
    }
}

/// Recording nothing leaves the probe as it is.
proof fn lemma_logged_none(p: Probe)
    ensures
        logged(p, p, Seq::empty()),
{
    assert(p.seed@ + seeds_of(Seq::empty()) =~= p.seed@);
    assert(p.changed@ + flags_of(Seq::empty()) =~= p.changed@);
    assert(p.start@ + starts_of(p.members@.len() as int, Seq::empty()) =~= p.start@);
    assert(p.members@ + members_of(Seq::empty()) =~= p.members@);
}

/// Two recordings in a row are one recording of both.
proof fn lemma_logged_then(a: Probe, b: Probe, c: Probe, x: Seq<Search>, y: Seq<Search>)
    requires
        logged(a, b, x),
        logged(b, c, y),
    ensures
        logged(a, c, x + y),
{
    assert(seeds_of(x + y) =~= seeds_of(x) + seeds_of(y));
    assert(flags_of(x + y) =~= flags_of(x) + flags_of(y));
    lemma_members_of_concat(x, y);
    lemma_starts_of_concat(a.members@.len() as int, x, y);
    assert(c.seed@ =~= a.seed@ + seeds_of(x + y));
    assert(c.changed@ =~= a.changed@ + flags_of(x + y));
    assert(c.members@ =~= a.members@ + members_of(x + y));
    assert(c.start@ =~= a.start@ + starts_of(a.members@.len() as int, x + y));
}

// ---------------------------------------------------------------------------
// Lemmas about groups
// ---------------------------------------------------------------------------

proof fn lemma_count_all_false(s: Seq<bool>)
    requires
        forall|i: int| 0 <= i < s.len() ==> !s[i],
    ensures
        count_true(s) == 0,
    decreases s.len(),
{
    if s.len() > 0 {
        lemma_count_all_false(s.drop_last());
    }
}

proof fn lemma_count_set(s: Seq<bool>, i: int)
    requires
        0 <= i < s.len(),
        !s[i],
    ensures
        count_true(s.update(i, true)) == count_true(s) + 1,
    decreases s.len(),
{
    let t = s.update(i, true);
    if i < s.len() - 1 {
        assert(t.drop_last() =~= s.drop_last().update(i, true));
        lemma_count_set(s.drop_last(), i);
    } else {
        assert(t.drop_last() =~= s.drop_last());
    }
}

proof fn lemma_count_bound(s: Seq<bool>)
    ensures
        count_true(s) <= s.len(),
    decreases s.len(),
{
    if s.len() > 0 {
        lemma_count_bound(s.drop_last());
    }
}

/// Once the walk has passed every member, it is done.
/// `a` is a prefix of `b`.
pub open spec fn prefix_of(a: Seq<u16>, b: Seq<u16>) -> bool {
    a.len() <= b.len() && forall|j: int| 0 <= j < a.len() ==> a[j] == b[j]
}

/// Every member of the group of `n` is a node: nothing joined to `n` is a
/// rail that lies past the node count.
pub open spec fn group_in_range(m: NetModel, on: Seq<bool>, n: u16) -> bool {
    forall|k: int|
        0 <= k < group_of_spec(m, on, n).len() ==> (#[trigger] group_of_spec(m, on, n)[k] as int)
            < m.node_count
}

proof fn lemma_expand_grows(g: Seq<u16>, ts: Seq<Terminal>, on: Seq<bool>)
    ensures
        prefix_of(g, expand(g, ts, on)),
    decreases ts.len(),
{
    if ts.len() > 0 {
        lemma_expand_grows(g, ts.drop_last(), on);
    }
}

proof fn lemma_expand_prefix(g: Seq<u16>, ts: Seq<Terminal>, on: Seq<bool>, k: int)
    requires
        0 <= k <= ts.len(),
    ensures
        prefix_of(expand(g, ts.take(k), on), expand(g, ts, on)),
    decreases ts.len(),
{
    if k == ts.len() {
        assert(ts.take(k) =~= ts);
    } else {
        lemma_expand_prefix(g, ts.drop_last(), on, k);
        assert(ts.drop_last().take(k) =~= ts.take(k));
    }
}

proof fn lemma_bfs_grows(m: NetModel, on: Seq<bool>, g: Seq<u16>, i: nat, fuel: nat)
    ensures
        prefix_of(g, bfs(m, on, g, i, fuel)),
    decreases fuel,
{
    if fuel > 0 && i < g.len() {
        let x = g[i as int];
        let g2 = if m.is_rail(x as int) {
            g
        } else {
            expand(g, spec_terminals_of(m, x as int), on)
        };
        if !m.is_rail(x as int) {
            lemma_expand_grows(g, spec_terminals_of(m, x as int), on);
        }
        lemma_bfs_grows(m, on, g2, i + 1, (fuel - 1) as nat);
    }
}

/// A node that a conducting terminal of a walked member leads to is in the
/// walk's result.
proof fn lemma_joined_in_walk(m: NetModel, on: Seq<bool>, g: Seq<u16>, i: nat, fuel: nat, k: int)
    requires
        fuel > 0,
        i < g.len(),
        !m.is_rail(g[i as int] as int),
        0 <= k < spec_terminals_of(m, g[i as int] as int).len(),
        on[spec_terminals_of(m, g[i as int] as int)[k].transistor as int],
    ensures
        has_node(bfs(m, on, g, i, fuel), spec_terminals_of(m, g[i as int] as int)[k].other as int),
{
    let ts = spec_terminals_of(m, g[i as int] as int);
    let y = ts[k].other;
    let e = expand(g, ts.take(k + 1), on);
    assert(ts.take(k + 1).drop_last() =~= ts.take(k));
    assert(ts.take(k + 1).last() == ts[k]);
    assert(has_node(e, y as int)) by {
        let h = expand(g, ts.take(k), on);
        if !has_node(h, y as int) {
            assert(e[e.len() - 1] == y);
        } else {
            let w = choose|w: int| 0 <= w < h.len() && h[w] as int == y as int;
            assert(e[w] == h[w]);
        }
    }
    lemma_expand_prefix(g, ts, on, k + 1);
    lemma_bfs_grows(m, on, expand(g, ts, on), i + 1, (fuel - 1) as nat);
    let r = bfs(m, on, g, i, fuel);
    let w = choose|w: int| 0 <= w < e.len() && e[w] as int == y as int;
    assert(r[w] == e[w]);
}

/// Members that are nodes or rails stay so under growth, when the rails are
/// nodes.
proof fn lemma_expand_in_range(m: NetModel, g: Seq<u16>, ts: Seq<Terminal>, on: Seq<bool>)
    requires
        forall|j: int| 0 <= j < g.len() ==> (g[j] as int) < m.node_count,
        forall|j: int| 0 <= j < ts.len() ==> terminal_ok(m, #[trigger] ts[j]),
        (m.vss as int) < m.node_count,
        (m.vcc as int) < m.node_count,
    ensures
        forall|j: int| 0 <= j < expand(g, ts, on).len() ==> (expand(g, ts, on)[j] as int) < m.node_count,
    decreases ts.len(),
{
    if ts.len() > 0 {
        let d = ts.drop_last();
        assert forall|j: int| 0 <= j < d.len() implies terminal_ok(m, #[trigger] d[j]) by {
            assert(d[j] == ts[j]);
        }
        lemma_expand_in_range(m, g, d, on);
        assert(terminal_ok(m, ts[ts.len() - 1]));
        let h = expand(g, d, on);
        let e = expand(g, ts, on);
        assert forall|j: int| 0 <= j < e.len() implies (e[j] as int) < m.node_count by {
            if j < h.len() {
                assert(e[j] == h[j]);
            }
        }
    }
}

proof fn lemma_bfs_in_range(nl: Netlist, on: Seq<bool>, g: Seq<u16>, i: nat, fuel: nat)
    requires
        usable(nl),
        forall|j: int| 0 <= j < g.len() ==> (g[j] as int) < nl.model().node_count,
    ensures
        forall|j: int|
            0 <= j < bfs(nl.model(), on, g, i, fuel).len() ==> (bfs(nl.model(), on, g, i, fuel)[j] as int)
                < nl.model().node_count,
    decreases fuel,
{
    let m = nl.model();
    if fuel > 0 && i < g.len() {
        let x = g[i as int];
        if !m.is_rail(x as int) {
            let ts = spec_terminals_of(m, x as int);
            assert forall|j: int| 0 <= j < ts.len() implies terminal_ok(m, #[trigger] ts[j]) by {
                crate::netlist::lemma_terminal_in_range(nl, x as int, j);
            }
            lemma_expand_in_range(m, g, ts, on);
            lemma_bfs_in_range(nl, on, expand(g, ts, on), i + 1, (fuel - 1) as nat);
            assert(bfs(m, on, g, i, fuel) == bfs(m, on, expand(g, ts, on), i + 1, (fuel - 1) as nat));
        } else {
            lemma_bfs_in_range(nl, on, g, i + 1, (fuel - 1) as nat);
            assert(bfs(m, on, g, i, fuel) == bfs(m, on, g, i + 1, (fuel - 1) as nat));
        }
    }
}

/// Where both rails are nodes, every group lies among the nodes.
pub proof fn lemma_usable_groups_in_range(nl: Netlist, on: Seq<bool>, n: u16)
    requires
        usable(nl),
        (n as int) < nl.model().node_count,
    ensures
        group_in_range(nl.model(), on, n),
{
    lemma_bfs_in_range(nl, on, seq![n], 0, nl.model().node_count + 1);
}

proof fn lemma_bfs_done(m: NetModel, on: Seq<bool>, g: Seq<u16>, i: nat, fuel: nat)
    requires
        i >= g.len(),
    ensures
        bfs(m, on, g, i, fuel) == g,
{
}

// ---------------------------------------------------------------------------
// The solver
// ---------------------------------------------------------------------------

/// The solver's mutable part: chip state, counters and reusable scratch.
struct Solver {
    state: ChipState,
    current: Vec<NodeId>,
    next: Vec<NodeId>,
    queued: BitSet,
    /// Fixed-size buffer, node_count + 1 long, with `group_len` saying how
    /// much of it is live: each candidate is written before it is kept.
    group: Vec<NodeId>,
    group_len: usize,
    in_group: BitSet,
    stats: Stats,
    probe: Probe,
}

/// The netlist facts the solver leans on: it is well formed and both rails
/// are nodes.
pub open spec fn usable(nl: Netlist) -> bool {
    &&& nl.wf()
    &&& (nl.model().vss as int) < nl.model().node_count
    &&& (nl.model().vcc as int) < nl.model().node_count
}

impl Solver {
    /// The shapes agree with the netlist.
    spec fn shaped(&self, nl: Netlist) -> bool {
        let n = nl.model().node_count;
        &&& self.state.value@.len() == n
        &&& self.state.pullup@.len() == n
        &&& self.state.pulldown@.len() == n
        &&& self.state.trans_on@.len() == nl.model().trans_count()
        &&& self.queued@.len() == n
        &&& self.in_group@.len() == n
        &&& self.group.len() == n + 1
    }

    /// At rest: shaped, and no scratch bit left set.
    spec fn at_rest(&self, nl: Netlist) -> bool {
        &&& self.shaped(nl)
        &&& forall|i: int| 0 <= i < self.queued@.len() ==> !self.queued@[i]
        &&& forall|i: int| 0 <= i < self.in_group@.len() ==> !self.in_group@[i]
    }

    /// The members of the group last built.
    spec fn members(&self) -> Seq<u16> {
        self.group@.take(self.group_len as int)
    }

    /// The part settling changes.
    spec fn sim(&self) -> Sim {
        Sim {
            value: self.state.value@,
            trans_on: self.state.trans_on@,
            next: self.next@,
            stats: self.stats,
        }
    }

    /// The queue and its membership bits agree, and it holds only nodes that
    /// are not rails.
    spec fn queue_ok(&self, nl: Netlist) -> bool {
        &&& forall|x: int|
            0 <= x < self.queued@.len() ==> self.queued@[x] == has_node(self.next@, x)
        &&& forall|k: int|
            0 <= k < self.next@.len() ==> (self.next@[k] as int) < nl.model().node_count
                && !nl.model().is_rail(self.next@[k] as int)
    }

    fn queue(&mut self, nl: &Netlist, n: NodeId)
        requires
            usable(*nl),
            old(self).shaped(*nl),
            old(self).queue_ok(*nl),
            nl.model().is_rail(n as int) || (n as int) < nl.model().node_count,
        ensures
            final(self).shaped(*nl),
            final(self).queue_ok(*nl),
            final(self).next@ == queue_spec(nl.model(), old(self).next@, n),
            final(self).state == old(self).state,
            final(self).stats == old(self).stats,
            final(self).current == old(self).current,
            final(self).group == old(self).group,
            final(self).group_len == old(self).group_len,
            final(self).in_group == old(self).in_group,
            final(self).probe == old(self).probe,
    {
        if nl.is_rail(n) {
            return;
        }
        let ghost before = self.next@;
        if !self.queued.test_and_set(n as usize) {
            self.next.push(n);
            proof {
                assert forall|x: int| 0 <= x < self.queued@.len() implies self.queued@[x]
                    == has_node(self.next@, x) by {
                    if has_node(self.next@, x) && x != n as int {
                        let k = choose|k: int| 0 <= k < self.next@.len() && self.next@[k] as int == x;
                        assert(before[k] as int == x);
                    }
                    if has_node(before, x) {
                        let k = choose|k: int| 0 <= k < before.len() && before[k] as int == x;
                        assert(self.next@[k] as int == x);
                    }
                    if x == n as int {
                        assert(self.next@[before.len() as int] as int == x);
                    }
                }
            }
        }
    }

    fn transistor_on(&mut self, nl: &Netlist, t: TransId)
        requires
            usable(*nl),
            old(self).shaped(*nl),
            old(self).queue_ok(*nl),
            (t as int) < nl.model().trans_count(),
        ensures
            final(self).shaped(*nl),
            final(self).queue_ok(*nl),
            final(self).sim() == switch_on(nl.model(), old(self).sim(), t),
            final(self).state.pullup == old(self).state.pullup,
            final(self).state.pulldown == old(self).state.pulldown,
            final(self).current == old(self).current,
            final(self).group == old(self).group,
            final(self).group_len == old(self).group_len,
            final(self).in_group == old(self).in_group,
            final(self).probe == old(self).probe,
    {
        proof {
            nl.lemma_wf();
        }
        if self.state.trans_on.test_and_set(t as usize) {
            assert(self.state.trans_on@ =~= old(self).state.trans_on@);
            return;
        }
        self.queue(nl, nl.transistor_c1(t));
    }

    fn transistor_off(&mut self, nl: &Netlist, t: TransId)
        requires
            usable(*nl),
            old(self).shaped(*nl),
            old(self).queue_ok(*nl),
            (t as int) < nl.model().trans_count(),
        ensures
            final(self).shaped(*nl),
            final(self).queue_ok(*nl),
            final(self).sim() == switch_off(nl.model(), old(self).sim(), t),
            final(self).state.pullup == old(self).state.pullup,
            final(self).state.pulldown == old(self).state.pulldown,
            final(self).current == old(self).current,
            final(self).group == old(self).group,
            final(self).group_len == old(self).group_len,
            final(self).in_group == old(self).in_group,
            final(self).probe == old(self).probe,
    {
        proof {
            nl.lemma_wf();
        }
        if !self.state.trans_on.get(t as usize) {
            return;
        }
        self.state.trans_on.clear(t as usize);
        self.queue(nl, nl.transistor_c1(t));
        self.queue(nl, nl.transistor_c2(t));
    }

    /// Recalculate one node: build its group, resolve it, and write the level
    /// into every member that is not a rail. A rail is in a group for its
    /// drive, not to be driven.
    fn recalc_node(&mut self, nl: &Netlist, n: NodeId)
        requires
            usable(*nl),
            old(self).shaped(*nl),
            old(self).queue_ok(*nl),
            forall|i: int| 0 <= i < old(self).in_group@.len() ==> !old(self).in_group@[i],
            (n as int) < nl.model().node_count,
        ensures
            final(self).shaped(*nl),
            final(self).queue_ok(*nl),
            forall|i: int| 0 <= i < final(self).in_group@.len() ==> !final(self).in_group@[i],
            final(self).sim() == recalc_spec(
                *nl,
                old(self).state.pullup@,
                old(self).state.pulldown@,
                old(self).sim(),
                n,
            ),
            final(self).state.pullup == old(self).state.pullup,
            final(self).state.pulldown == old(self).state.pulldown,
            final(self).current == old(self).current,
            final(self).probe.on == old(self).probe.on,
            !old(self).probe.on ==> final(self).probe == old(self).probe,
            old(self).probe.on ==> logged(
                old(self).probe,
                final(self).probe,
                search_of(*nl, old(self).state.pullup@, old(self).state.pulldown@, old(self).sim(), n),
            ),
    {
        if nl.is_rail(n) {
            proof {
                lemma_logged_none(self.probe);
            }
            return;
        }
        self.stats.node_recalcs = self.stats.node_recalcs.wrapping_add(1);
        let ghost s_pre = self.sim();
        let level = self.build_group(nl, n).level();
        let len = self.group_len;
        let ghost g = self.members();
        let ghost m = nl.model();
        let ghost s_start = self.sim();
        proof {
            assert(s_start == Sim { stats: s_start.stats, ..s_pre });
            nl.lemma_wf();
            assert(write_members(m, s_start, g.take(0), level) == s_start);
        }
        let mut touched: bool = false;
        let mut gi: usize = 0;
        while gi < len
            invariant
                self.probe == old(self).probe,
                touched == changed_in(m, s_start, g.take(gi as int), level),
                usable(*nl),
                m == nl.model(),
                self.shaped(*nl),
                self.queue_ok(*nl),
                0 <= gi <= len,
                len == self.group_len,
                len <= m.node_count,
                g == self.group@.take(len as int),
                forall|k: int| 0 <= k < g.len() ==> (g[k] as int) < m.node_count,
                forall|x: int| 0 <= x < self.in_group@.len() ==> self.in_group@[x] == has_node(g, x),
                self.state.pullup == old(self).state.pullup,
                self.state.pulldown == old(self).state.pulldown,
                self.current == old(self).current,
                self.sim() == write_members(m, s_start, g.take(gi as int), level),
            decreases len - gi,
        {
            let x = self.group[gi];
            proof {
                assert(g.take(gi + 1).drop_last() =~= g.take(gi as int));
                assert(g.take(gi + 1).last() == x);
            }
            gi = gi + 1;
            if nl.is_rail(x) {
                continue;
            }
            if self.state.value.get(x as usize) == level {
                continue;
            }
            self.state.value.put(x as usize, level);
            touched = true;
            let gates = nl.gates_of(x);
            let ng = gates.len();
            let ghost s_mid = self.sim();
            proof {
                assert(switch_all(m, s_mid, gates@.take(0), level) == s_mid);
            }
            let mut k: usize = 0;
            while k < ng
                invariant
                    self.probe == old(self).probe,
                    usable(*nl),
                    m == nl.model(),
                    self.shaped(*nl),
                    self.queue_ok(*nl),
                    (x as int) < m.node_count,
                    gates@ == spec_gates_of(m, x as int),
                    ng == gates@.len(),
                    0 <= k <= ng,
                    len == self.group_len,
                    g == self.group@.take(len as int),
                    forall|y: int| 0 <= y < self.in_group@.len() ==> self.in_group@[y] == has_node(g, y),
                    self.state.pullup == old(self).state.pullup,
                    self.state.pulldown == old(self).state.pulldown,
                    self.current == old(self).current,
                    self.sim() == switch_all(m, s_mid, gates@.take(k as int), level),
                decreases ng - k,
            {
                let t = gates[k];
                proof {
                    crate::netlist::lemma_gate_in_range(*nl, x as int, k as int);
                    assert(gates@.take(k + 1).drop_last() =~= gates@.take(k as int));
                    assert(gates@.take(k + 1).last() == t);
                }
                if level {
                    self.transistor_on(nl, t);
                } else {
                    self.transistor_off(nl, t);
                }
                k = k + 1;
            }
            proof {
                assert(gates@.take(ng as int) =~= gates@);
            }
        }
        proof {
            assert(g.take(len as int) =~= g);
        }
        let members = vstd::slice::slice_subrange(self.group.as_slice(), 0, len);
        let ghost p0 = self.probe;
        if self.probe.on {
            self.probe.seed.push(n);
            self.probe.changed.push(touched);
            let at = self.probe.members.len() as u32;
            self.probe.start.push(at);
            self.probe.members.extend_from_slice(members);
            proof {
                let e = Search { seed: n, changed: touched, members: g };
                let l = seq![e];
                assert(l.drop_last() =~= Seq::<Search>::empty());
                assert(l.last() == e);
                assert(members_of(Seq::<Search>::empty()) =~= Seq::<u16>::empty());
                assert(starts_of(p0.members@.len() as int, Seq::<Search>::empty()) =~= Seq::<u32>::empty());
                assert(members_of(l) =~= g);
                assert(seeds_of(l) =~= seq![n]);
                assert(flags_of(l) =~= seq![touched]);
                assert(starts_of(p0.members@.len() as int, l) =~= seq![at]);
                assert(self.probe.members@ =~= p0.members@ + g);
                assert(self.probe.seed@ =~= p0.seed@ + seeds_of(l));
                assert(self.probe.changed@ =~= p0.changed@ + flags_of(l));
                assert(self.probe.start@ =~= p0.start@ + starts_of(p0.members@.len() as int, l));
                assert(logged(p0, self.probe, l));
            }
        }
        self.in_group.clear_only(members);
        proof {
            assert forall|x: int| 0 <= x < self.in_group@.len() implies !self.in_group@[x] by {
                if has_node(g, x) {
                    let k = choose|k: int| 0 <= k < g.len() && g[k] as int == x;
                    assert(members@[k] as int == x);
                }
            }
        }
    }

    /// Propagate from `seeds` until the network reaches a fixed point, or
    /// until `MAX_SETTLE_ROUNDS` rounds have run.
    fn settle(&mut self, nl: &Netlist, seeds: &[NodeId])
        requires
            usable(*nl),
            old(self).at_rest(*nl),
            forall|k: int| 0 <= k < seeds@.len() ==> (seeds@[k] as int) < nl.model().node_count,
        ensures
            final(self).at_rest(*nl),
            final(self).state.pullup == old(self).state.pullup,
            final(self).state.pulldown == old(self).state.pulldown,
            ({
                let r = settle_spec(
                    *nl,
                    old(self).state.pullup@,
                    old(self).state.pulldown@,
                    old(self).state.value@,
                    old(self).state.trans_on@,
                    old(self).stats,
                    seeds@,
                );
                &&& final(self).state.value@ == r.value
                &&& final(self).state.trans_on@ == r.trans_on
                &&& final(self).stats == r.stats
            }),
            final(self).probe.on == old(self).probe.on,
            !old(self).probe.on ==> final(self).probe == old(self).probe,
            old(self).probe.on ==> logged(
                old(self).probe,
                final(self).probe,
                settle_log(
                    *nl,
                    old(self).state.pullup@,
                    old(self).state.pulldown@,
                    old(self).state.value@,
                    old(self).state.trans_on@,
                    old(self).stats,
                    seeds@,
                ),
            ),
    {
        let ghost pu = self.state.pullup@;
        let ghost pd = self.state.pulldown@;
        let ghost m = nl.model();
        self.stats.settles = self.stats.settles.wrapping_add(1);
        let ghost s0 = Sim {
            value: self.state.value@,
            trans_on: self.state.trans_on@,
            next: Seq::empty(),
            stats: self.stats,
        };
        let ghost target = rounds_spec(*nl, pu, pd, s0, seeds@, MAX_SETTLE_ROUNDS as nat);
        let ghost tlog = rounds_log(*nl, pu, pd, s0, seeds@, MAX_SETTLE_ROUNDS as nat);
        self.current.clear();
        let ghost st = self.stats;
        let mut k: usize = 0;
        while k < seeds.len()
            invariant
                self.probe == old(self).probe,
                0 <= k <= seeds@.len(),
                self.current@ =~= seeds@.take(k as int),
                self.state == old(self).state,
                self.queued == old(self).queued,
                self.in_group == old(self).in_group,
                self.group == old(self).group,
                self.stats == st,
            decreases seeds@.len() - k,
        {
            self.current.push(seeds[k]);
            k = k + 1;
        }
        let ghost mut acc: Seq<Search> = Seq::empty();
        proof {
            assert(seeds@.take(seeds@.len() as int) =~= seeds@);
            lemma_logged_none(self.probe);
            assert(acc + tlog =~= tlog);
        }
        let mut r: usize = 0;
        while r < MAX_SETTLE_ROUNDS
            invariant
                self.probe.on == old(self).probe.on,
                !old(self).probe.on ==> self.probe == old(self).probe,
                usable(*nl),
                m == nl.model(),
                self.shaped(*nl),
                forall|i: int| 0 <= i < self.queued@.len() ==> !self.queued@[i],
                forall|i: int| 0 <= i < self.in_group@.len() ==> !self.in_group@[i],
                forall|i: int| 0 <= i < self.current@.len() ==> (self.current@[i] as int) < m.node_count,
                self.state.pullup@ == pu,
                self.state.pulldown@ == pd,
                self.state.pullup == old(self).state.pullup,
                self.state.pulldown == old(self).state.pulldown,
                pu == old(self).state.pullup@,
                pd == old(self).state.pulldown@,
                s0 == (Sim {
                    value: old(self).state.value@,
                    trans_on: old(self).state.trans_on@,
                    next: Seq::empty(),
                    stats: Stats { settles: old(self).stats.settles.wrapping_add(1), ..old(self).stats },
                }),
                target == rounds_spec(*nl, pu, pd, s0, seeds@, MAX_SETTLE_ROUNDS as nat),
                0 <= r <= MAX_SETTLE_ROUNDS,
                rounds_spec(
                    *nl,
                    pu,
                    pd,
                    Sim {
                        value: self.state.value@,
                        trans_on: self.state.trans_on@,
                        next: Seq::empty(),
                        stats: self.stats,
                    },
                    self.current@,
                    (MAX_SETTLE_ROUNDS - r) as nat,
                ) == target,
                tlog == rounds_log(*nl, pu, pd, s0, seeds@, MAX_SETTLE_ROUNDS as nat),
                old(self).probe.on ==> logged(old(self).probe, self.probe, acc),
                acc + rounds_log(
                    *nl,
                    pu,
                    pd,
                    Sim {
                        value: self.state.value@,
                        trans_on: self.state.trans_on@,
                        next: Seq::empty(),
                        stats: self.stats,
                    },
                    self.current@,
                    (MAX_SETTLE_ROUNDS - r) as nat,
                ) == tlog,
            decreases MAX_SETTLE_ROUNDS - r,
        {
            let ghost sv = Sim {
                value: self.state.value@,
                trans_on: self.state.trans_on@,
                next: Seq::empty(),
                stats: self.stats,
            };
            let ghost kr = (MAX_SETTLE_ROUNDS - r) as nat;
            if self.current.len() == 0 {
                proof {
                    assert(rounds_log(*nl, pu, pd, sv, self.current@, kr) =~= Seq::<Search>::empty());
                    assert(acc =~= tlog);
                }
                proof {
                    let sv = Sim {
                        value: self.state.value@,
                        trans_on: self.state.trans_on@,
                        next: Seq::empty(),
                        stats: self.stats,
                    };
                    assert(rounds_spec(*nl, pu, pd, sv, self.current@, (MAX_SETTLE_ROUNDS - r) as nat)
                        == (sv, true));
                    assert(s0 == Sim {
                        value: old(self).state.value@,
                        trans_on: old(self).state.trans_on@,
                        next: Seq::empty(),
                        stats: Stats { settles: old(self).stats.settles.wrapping_add(1), ..old(self).stats },
                    });
                }
                return;
            }
            self.stats.rounds = self.stats.rounds.wrapping_add(1);
            self.next.clear();
            let ghost s1 = self.sim();
            let ghost cur = self.current@;
            let ghost pr = self.probe;
            proof {
                lemma_logged_none(pr);
                assert(round_log(*nl, pu, pd, s1, cur.take(0)) =~= Seq::<Search>::empty());
                assert(round_spec(*nl, pu, pd, s1, cur.take(0)) == s1);
                assert forall|x: int| 0 <= x < self.queued@.len() implies self.queued@[x]
                    == has_node(self.next@, x) by {}
            }
            let nc = self.current.len();
            let mut i: usize = 0;
            while i < nc
                invariant
                    self.probe.on == old(self).probe.on,
                    !old(self).probe.on ==> self.probe == old(self).probe,
                    usable(*nl),
                    m == nl.model(),
                    self.shaped(*nl),
                    self.queue_ok(*nl),
                    forall|j: int| 0 <= j < self.in_group@.len() ==> !self.in_group@[j],
                    self.current@ == cur,
                    nc == cur.len(),
                    forall|j: int| 0 <= j < cur.len() ==> (cur[j] as int) < m.node_count,
                    self.state.pullup@ == pu,
                    self.state.pulldown@ == pd,
                    self.state.pullup == old(self).state.pullup,
                    self.state.pulldown == old(self).state.pulldown,
                    0 <= i <= nc,
                    self.sim() == round_spec(*nl, pu, pd, s1, cur.take(i as int)),
                    old(self).probe.on ==> logged(pr, self.probe, round_log(*nl, pu, pd, s1, cur.take(i as int))),
                decreases nc - i,
            {
                let n = self.current[i];
                proof {
                    assert(cur.take(i + 1).drop_last() =~= cur.take(i as int));
                    assert(cur.take(i + 1).last() == n);
                }
                let ghost pm = self.probe;
                let ghost sm = self.sim();
                self.recalc_node(nl, n);
                proof {
                    if old(self).probe.on {
                        lemma_logged_then(
                            pr,
                            pm,
                            self.probe,
                            round_log(*nl, pu, pd, s1, cur.take(i as int)),
                            search_of(*nl, pu, pd, sm, n),
                        );
                    }
                }
                i = i + 1;
            }
            proof {
                assert(cur.take(nc as int) =~= cur);
            }
            let ghost s2 = self.sim();
            self.queued.clear_only(self.next.as_slice());
            proof {
                assert forall|x: int| 0 <= x < self.queued@.len() implies !self.queued@[x] by {
                    if has_node(s2.next, x) {
                        let k = choose|k: int| 0 <= k < s2.next.len() && s2.next[k] as int == x;
                        assert(self.next@[k] as int == x);
                    }
                }
            }
            std::mem::swap(&mut self.current, &mut self.next);
            proof {
                let rl = round_log(*nl, pu, pd, s1, cur);
                let rest = rounds_log(*nl, pu, pd, Sim { next: Seq::empty(), ..s2 }, s2.next, (kr - 1) as nat);
                assert(s1 == Sim {
                    next: Seq::empty(),
                    stats: Stats { rounds: sv.stats.rounds.wrapping_add(1), ..sv.stats },
                    ..sv
                });
                assert(rounds_log(*nl, pu, pd, sv, cur, kr) == rl + rest);
                if old(self).probe.on {
                    lemma_logged_then(old(self).probe, pr, self.probe, acc, rl);
                }
                assert(acc + (rl + rest) =~= (acc + rl) + rest);
                acc = acc + rl;
            }
            r = r + 1;
        }
        proof {
            let sv = Sim {
                value: self.state.value@,
                trans_on: self.state.trans_on@,
                next: Seq::empty(),
                stats: self.stats,
            };
            assert(rounds_log(*nl, pu, pd, sv, self.current@, 0) =~= Seq::<Search>::empty());
            assert(acc =~= tlog);
        }
        self.stats.nonconvergent_settles = self.stats.nonconvergent_settles.wrapping_add(1);
        self.current.clear();
    }

    /// Collect everything electrically joined to `n` through conducting
    /// transistors, accumulating the group's drive as it goes.
    ///
    /// The group buffer is both the result and the work queue. Each
    /// candidate is written at `len` whether or not it is kept and `len`
    /// advances by a bool, so neither "is this transistor conducting" nor "do
    /// I already have this node" becomes a branch.
    fn build_group(&mut self, nl: &Netlist, n: NodeId) -> (d: Drive)
        requires
            usable(*nl),
            old(self).shaped(*nl),
            forall|i: int| 0 <= i < old(self).in_group@.len() ==> !old(self).in_group@[i],
            (n as int) < nl.model().node_count,
        ensures
            final(self).shaped(*nl),
            final(self).state == old(self).state,
            final(self).current == old(self).current,
            final(self).next == old(self).next,
            final(self).queued == old(self).queued,
            final(self).probe == old(self).probe,
            final(self).group_len <= nl.model().node_count,
            final(self).members() == group_of_spec(nl.model(), old(self).state.trans_on@, n),
            d == group_drive(
                *nl,
                old(self).state.value@,
                old(self).state.pullup@,
                old(self).state.pulldown@,
                final(self).members(),
            ),
            final(self).stats == group_stats(
                *nl,
                old(self).state.value@,
                old(self).state.pullup@,
                old(self).state.pulldown@,
                final(self).members(),
                old(self).stats,
            ),
            forall|x: int|
                0 <= x < final(self).in_group@.len() ==> final(self).in_group@[x] == has_node(
                    final(self).members(),
                    x,
                ),
            forall|k: int|
                0 <= k < final(self).members().len() ==> (final(self).members()[k] as int)
                    < nl.model().node_count,
    {
        let ghost m = nl.model();
        let ghost on = self.state.trans_on@;
        let ghost value = self.state.value@;
        let ghost pullup = self.state.pullup@;
        let ghost pulldown = self.state.pulldown@;
        let ghost fuel = (m.node_count + 1) as nat;
        let count = nl.node_count();
        proof {
            lemma_count_all_false(self.in_group@);
            nl.lemma_wf();
        }
        self.group.set(0, n);
        let mut len: usize = 1;
        self.in_group.set(n as usize);
        proof {
            lemma_count_set(old(self).in_group@, n as int);
            assert(self.group@.take(1) =~= seq![n]);
            assert forall|y: int| 0 <= y < count implies self.in_group@[y] == has_node(
                self.group@.take(1),
                y,
            ) by {
                if y == n as int {
                    assert(self.group@.take(1)[0] as int == y);
                }
            }
        }
        let vss = nl.vss();
        let vcc = nl.vcc();
        let area_vote = nl.charge_rule() == ChargeRule::AreaVote;
        let mut drive = Drive::Floating;
        let mut saw_up = false;
        let mut saw_down = false;
        let mut saw_vss = false;
        let mut saw_vcc = false;
        let mut hi_area: u128 = 0;
        let mut lo_area: u128 = 0;
        let mut i: usize = 0;
        while i < len
            invariant
                self.probe == old(self).probe,
                usable(*nl),
                m == nl.model(),
                count == m.node_count,
                self.shaped(*nl),
                self.state.trans_on@ == on,
                self.state.value@ == value,
                self.state.pullup@ == pullup,
                self.state.pulldown@ == pulldown,
                self.state == old(self).state,
                self.current == old(self).current,
                self.next == old(self).next,
                self.queued == old(self).queued,
                self.stats == old(self).stats,
                fuel == count + 1,
                vss == m.vss,
                vcc == m.vcc,
                area_vote == (nl.rule() == ChargeRule::AreaVote),
                area_vote ==> nl.areas().len() == count,
                0 <= i <= len,
                1 <= len <= count,
                count_true(self.in_group@) == len,
                forall|k: int| 0 <= k < len ==> (self.group@[k] as int) < count,
                forall|y: int|
                    0 <= y < count ==> self.in_group@[y] == has_node(self.group@.take(len as int), y),
                bfs(m, on, self.group@.take(len as int), i as nat, (fuel - i) as nat)
                    == group_of_spec(m, on, n),
                ({
                    let s = scan(*nl, value, pullup, pulldown, self.group@.take(i as int));
                    &&& drive == s.drive
                    &&& saw_up == s.up
                    &&& saw_down == s.down
                    &&& saw_vss == s.vss
                    &&& saw_vcc == s.vcc
                    &&& area_vote ==> hi_area == s.hi && lo_area == s.lo
                }),
                area_vote ==> hi_area <= i * 0xffff_ffff_ffff_ffffu128 && lo_area <= i
                    * 0xffff_ffff_ffff_ffffu128,
            decreases count + 1 - i,
        {
            let x = self.group[i];
            let ghost g0 = self.group@.take(len as int);
            let ghost i0 = i;
            let ghost gi = self.group@.take(i + 1);
            let ghost s0 = scan(*nl, value, pullup, pulldown, self.group@.take(i as int));
            proof {
                assert(gi.drop_last() =~= self.group@.take(i as int));
                assert(gi.last() == x);
            }
            i = i + 1;
            if x == vss {
                saw_vss = true;
                proof {
                    assert(bfs(m, on, g0, i0 as nat, (fuel - i0) as nat) == bfs(
                        m,
                        on,
                        g0,
                        i as nat,
                        (fuel - i) as nat,
                    ));
                }
                continue;
            }
            if x == vcc {
                saw_vcc = true;
                proof {
                    assert(bfs(m, on, g0, i0 as nat, (fuel - i0) as nat) == bfs(
                        m,
                        on,
                        g0,
                        i as nat,
                        (fuel - i) as nat,
                    ));
                }
                continue;
            }
            if self.state.pullup.get(x as usize) {
                drive = drive.stronger(Drive::PullUp);
                saw_up = true;
            }
            if self.state.pulldown.get(x as usize) {
                drive = drive.stronger(Drive::PullDown);
                saw_down = true;
            }
            let high = self.state.value.get(x as usize);
            if high {
                drive = drive.stronger(Drive::ChargedHigh);
            }
            if area_vote {
                let a = nl.node_area(x) as u128;
                assert(a == nl.areas()[x as int]);
                proof {
                    assert(hi_area + a <= (i0 + 1) * 0xffff_ffff_ffff_ffffu128) by (nonlinear_arith)
                        requires
                            hi_area <= i0 * 0xffff_ffff_ffff_ffffu128,
                            a <= 0xffff_ffff_ffff_ffffu128,
                    ;
                    assert(lo_area + a <= (i0 + 1) * 0xffff_ffff_ffff_ffffu128) by (nonlinear_arith)
                        requires
                            lo_area <= i0 * 0xffff_ffff_ffff_ffffu128,
                            a <= 0xffff_ffff_ffff_ffffu128,
                    ;
                    assert((i0 + 1) * 0xffff_ffff_ffff_ffffu128 <= 0xffff_ffff_ffff_ffffu128
                        * 0x1_0000_0000_0000_0000u128) by (nonlinear_arith)
                        requires
                            i0 + 1 <= 0x1_0000_0000_0000_0000u128,
                    ;
                }
                if high {
                    hi_area = hi_area + a;
                } else {
                    lo_area = lo_area + a;
                }
            }
            let ghost s1 = scan(*nl, value, pullup, pulldown, gi);
            assert(drive == s1.drive && saw_up == s1.up && saw_down == s1.down);
            assert(area_vote ==> hi_area == s1.hi && lo_area == s1.lo);
            let ts = nl.terminals_of(x);
            let nt = ts.len();
            let mut k: usize = 0;
            while k < nt
                invariant
                    self.probe == old(self).probe,
                    usable(*nl),
                    m == nl.model(),
                    count == m.node_count,
                    self.shaped(*nl),
                    self.state.trans_on@ == on,
                    self.state == old(self).state,
                    self.current == old(self).current,
                    self.next == old(self).next,
                    self.queued == old(self).queued,
                    self.stats == old(self).stats,
                    ts@ == spec_terminals_of(m, x as int),
                    nt == ts@.len(),
                    0 <= k <= nt,
                    1 <= len <= count,
                    i <= len,
                    count_true(self.in_group@) == len,
                    forall|j: int| 0 <= j < len ==> (self.group@[j] as int) < count,
                    forall|y: int|
                        0 <= y < count ==> self.in_group@[y] == has_node(self.group@.take(len as int), y),
                    (x as int) < count,
                    self.group@.take(len as int) == expand(g0, ts@.take(k as int), on),
                    self.group@.take(i as int) == g0.take(i as int),
                    g0.len() >= i,
                decreases nt - k,
            {
                let term = ts[k];
                proof {
                    crate::netlist::lemma_terminal_in_range(*nl, x as int, k as int);
                    lemma_count_bound(self.in_group@);
                    assert(ts@.take(k + 1).drop_last() =~= ts@.take(k as int));
                    assert(ts@.take(k + 1).last() == term);
                }
                let on_t = self.state.trans_on.get(term.transistor as usize);
                let ghost before = self.group@.take(len as int);
                let ghost in_before = self.in_group@;
                let fresh = self.in_group.insert_if(term.other as usize, on_t);
                self.group.set(len, term.other);
                len = len + if fresh {
                    1
                } else {
                    0
                };
                proof {
                    let after = self.group@.take(len as int);
                    if fresh {
                        lemma_count_set(in_before, term.other as int);
                        assert(after =~= before.push(term.other));
                        assert forall|y: int| 0 <= y < count implies self.in_group@[y] == has_node(
                            after,
                            y,
                        ) by {
                            if y == term.other as int {
                                assert(after[after.len() - 1] as int == y);
                            } else {
                                if has_node(after, y) {
                                    let w = choose|w: int| 0 <= w < after.len() && after[w] as int == y;
                                    assert(before[w] as int == y);
                                }
                                if has_node(before, y) {
                                    let w = choose|w: int| 0 <= w < before.len() && before[w] as int == y;
                                    assert(after[w] as int == y);
                                }
                            }
                        }
                    } else {
                        assert(after =~= before);
                        assert(self.in_group@ =~= in_before);
                    }
                    lemma_count_bound(self.in_group@);
                    assert(self.group@.take(i as int) =~= g0.take(i as int));
                }
                k = k + 1;
            }
            proof {
                assert(ts@.take(nt as int) =~= ts@);
                assert(self.group@.take(i as int) =~= gi);
                assert(bfs(m, on, g0, i0 as nat, (fuel - i0) as nat) == bfs(
                    m,
                    on,
                    self.group@.take(len as int),
                    i as nat,
                    (fuel - i) as nat,
                ));
            }
        }
        let ghost g = self.group@.take(len as int);
        proof {
            lemma_bfs_done(m, on, g, i as nat, (fuel - i) as nat);
            assert(self.group@.take(i as int) =~= g);
        }
        self.group_len = len;
        self.stats.group_members = self.stats.group_members.wrapping_add(len as u64);
        if saw_up && saw_down {
            self.stats.contested_groups = self.stats.contested_groups.wrapping_add(1);
        }
        if area_vote && drive == Drive::ChargedHigh && hi_area <= lo_area {
            drive = Drive::Floating;
            self.stats.area_vote_lows = self.stats.area_vote_lows.wrapping_add(1);
        }
        let members = vstd::slice::slice_subrange(self.group.as_slice(), 0, len);
        if saw_vss && saw_vcc && nl.any_rail_conflict_hold(members) {
            proof {
                nl.lemma_wf();
                let k = choose|k: int| 0 <= k < members@.len() && nl.holds()[#[trigger] members@[k] as int];
                assert(0 <= members@[k] as int && (members@[k] as int) < count);
                assert(nl.holds()[members@[k] as int]);
            }
            self.stats.rail_conflict_holds = self.stats.rail_conflict_holds.wrapping_add(1);
            // The rails cancel: pulls first, then the area-weighted charge vote.
            let mut held = Drive::Floating;
            let mut hi: u128 = 0;
            let mut lo: u128 = 0;
            let mut j: usize = 0;
            while j < len
                invariant
                    self.probe == old(self).probe,
                    usable(*nl),
                    m == nl.model(),
                    count == m.node_count,
                    self.shaped(*nl),
                    self.state == old(self).state,
                    self.state.value@ == value,
                    self.state.pullup@ == pullup,
                    self.state.pulldown@ == pulldown,
                    nl.areas().len() == count,
                    0 <= j <= len,
                    len <= count,
                    g == self.group@.take(len as int),
                    forall|k: int| 0 <= k < len ==> (self.group@[k] as int) < count,
                    vss == m.vss,
                    vcc == m.vcc,
                    ({
                        let s = scan(*nl, value, pullup, pulldown, g.take(j as int));
                        &&& held == (if s.down {
                            Drive::PullDown
                        } else if s.up {
                            Drive::PullUp
                        } else {
                            Drive::Floating
                        })
                        &&& hi == s.hi
                        &&& lo == s.lo
                    }),
                    hi <= j * 0xffff_ffff_ffff_ffffu128,
                    lo <= j * 0xffff_ffff_ffff_ffffu128,
                decreases len - j,
            {
                let x = self.group[j];
                proof {
                    assert(g.take(j + 1).drop_last() =~= g.take(j as int));
                    assert(g.take(j + 1).last() == x);
                    assert(x == g[j as int]);
                }
                let j0 = j;
                j = j + 1;
                if x == vss || x == vcc {
                    continue;
                }
                if self.state.pullup.get(x as usize) {
                    held = held.stronger(Drive::PullUp);
                }
                if self.state.pulldown.get(x as usize) {
                    held = held.stronger(Drive::PullDown);
                }
                let a = nl.node_area(x) as u128;
                assert(a == nl.areas()[x as int]);
                proof {
                    assert(hi + a <= (j0 + 1) * 0xffff_ffff_ffff_ffffu128) by (nonlinear_arith)
                        requires
                            hi <= j0 * 0xffff_ffff_ffff_ffffu128,
                            a <= 0xffff_ffff_ffff_ffffu128,
                    ;
                    assert(lo + a <= (j0 + 1) * 0xffff_ffff_ffff_ffffu128) by (nonlinear_arith)
                        requires
                            lo <= j0 * 0xffff_ffff_ffff_ffffu128,
                            a <= 0xffff_ffff_ffff_ffffu128,
                    ;
                    assert((j0 + 1) * 0xffff_ffff_ffff_ffffu128 <= 0xffff_ffff_ffff_ffffu128
                        * 0x1_0000_0000_0000_0000u128) by (nonlinear_arith)
                        requires
                            j0 + 1 <= 0x1_0000_0000_0000_0000u128,
                    ;
                }
                if self.state.value.get(x as usize) {
                    hi = hi + a;
                } else {
                    lo = lo + a;
                }
            }
            proof {
                assert(g.take(len as int) =~= g);
            }
            if held == Drive::Floating && hi > lo {
                held = Drive::ChargedHigh;
            }
            drive = held;
        } else {
            if saw_vcc {
                drive = drive.stronger(Drive::Vcc);
            }
            if saw_vss {
                drive = drive.stronger(Drive::Vss);
            }
        }
        drive
    }
}

// ---------------------------------------------------------------------------
// Reading buses and state
// ---------------------------------------------------------------------------

/// The number whose bit `i` is `bits[i]`.
pub open spec fn bus_value(bits: Seq<bool>) -> nat
    decreases bits.len(),
{
    if bits.len() == 0 {
        0
    } else {
        (if bits[0] {
            1nat
        } else {
            0nat
        }) + 2 * bus_value(bits.drop_first())
    }
}

/// Accumulate a bus from its top bit down: `v` holds the bits from `i` up;
/// prepend bit `i - 1`.
pub proof fn lemma_bus_step(bits: Seq<bool>, i: int)
    requires
        0 < i <= bits.len(),
    ensures
        bus_value(bits.skip(i - 1)) == (if bits[i - 1] {
            1nat
        } else {
            0nat
        }) + 2 * bus_value(bits.skip(i)),
        bits.len() - (i - 1) <= 32 ==> bus_value(bits.skip(i - 1)) < vstd::arithmetic::power2::pow2(
            (bits.len() - (i - 1)) as nat,
        ),
    decreases bits.len() - i,
{
    assert(bits.skip(i - 1).drop_first() =~= bits.skip(i));
    lemma_bus_bound(bits.skip(i - 1));
}

proof fn lemma_bus_bound(bits: Seq<bool>)
    ensures
        bus_value(bits) < vstd::arithmetic::power2::pow2(bits.len()),
    decreases bits.len(),
{
    if bits.len() == 0 {
        vstd::arithmetic::power2::lemma2_to64();
    } else {
        lemma_bus_bound(bits.drop_first());
        vstd::arithmetic::power2::lemma_pow2_unfold(bits.len());
    }
}

/// The levels of these nodes, in order.
pub open spec fn levels(value: Seq<bool>, nodes: Seq<u16>) -> Seq<bool> {
    Seq::new(nodes.len(), |i: int| value[nodes[i] as int])
}

/// The one-character node state: `x` undefined, `g` ground,
/// `v` supply, `h` high, `l` low.
pub open spec fn state_char(m: NetModel, value: Seq<bool>, n: int) -> char {
    if !m.exists[n] {
        'x'
    } else if n == m.vss as int {
        'g'
    } else if n == m.vcc as int {
        'v'
    } else if value[n] {
        'h'
    } else {
        'l'
    }
}

/// The nodes a power-on settle starts from: every node number below `k`
/// that exists and is not a rail, ascending.
pub open spec fn settle_all_seeds(m: NetModel, k: nat) -> Seq<u16>
    decreases k,
{
    if k == 0 {
        Seq::empty()
    } else {
        let prev = settle_all_seeds(m, (k - 1) as nat);
        let n = (k - 1) as int;
        if m.exists[n] && !m.is_rail(n) {
            prev.push(n as u16)
        } else {
            prev
        }
    }
}

/// How many node numbers `settle_all` and `state_string` cover: every node
/// where all of them fit a `u16` node id; past that, the node count taken
/// as a `u16`, as the node ids wrap.
pub open spec fn node_span(m: NetModel) -> nat {
    if m.node_count <= 65536 {
        m.node_count
    } else {
        (m.node_count % 65536) as nat
    }
}

// ---------------------------------------------------------------------------
// The engine
// ---------------------------------------------------------------------------

/// The solver: a shared netlist plus its mutable state plus reusable scratch.
pub struct Engine {
    netlist: Arc<Netlist>,
    run: Solver,
}

impl Engine {
    /// The netlist being simulated.
    pub closed spec fn netlist_view(&self) -> Netlist {
        *self.netlist
    }

    /// The chip state.
    pub closed spec fn state_view(&self) -> ChipState {
        self.run.state
    }

    /// The counters.
    pub closed spec fn stats_view(&self) -> Stats {
        self.run.stats
    }

    /// The record of group searches.
    pub closed spec fn probe_view(&self) -> Probe {
        self.run.probe
    }

    /// The engine's arrays fit its netlist and its scratch is clear.
    pub closed spec fn wf(&self) -> bool {
        &&& self.netlist.wf()
        &&& self.run.at_rest(*self.netlist)
    }

    /// The chip state has the netlist's shape.
    pub open spec fn fits(st: ChipState, nl: Netlist) -> bool {
        &&& st.value@.len() == nl.model().node_count
        &&& st.pullup@.len() == nl.model().node_count
        &&& st.pulldown@.len() == nl.model().node_count
        &&& st.trans_on@.len() == nl.model().trans_count()
    }

    /// What `settle` leaves behind, for the engine's current state.
    pub open spec fn settled(&self, seeds: Seq<u16>) -> Sim {
        settle_spec(
            self.netlist_view(),
            self.state_view().pullup@,
            self.state_view().pulldown@,
            self.state_view().value@,
            self.state_view().trans_on@,
            self.stats_view(),
            seeds,
        )
    }

    pub proof fn lemma_wf(&self)
        requires
            self.wf(),
        ensures
            self.netlist_view().wf(),
            Self::fits(self.state_view(), self.netlist_view()),
    {
    }

    /// An engine over this netlist: every node low, pulls as laid out, every
    /// transistor off, counters zero.
    pub fn new(netlist: Arc<Netlist>) -> (r: Engine)
        requires
            netlist.wf(),
        ensures
            r.wf(),
            r.netlist_view() == *netlist,
            r.state_view().value@ == Seq::new(netlist.model().node_count, |i: int| false),
            r.state_view().pullup@ == netlist.model().pullup,
            r.state_view().pulldown@ == Seq::new(netlist.model().node_count, |i: int| false),
            r.state_view().trans_on@ == Seq::new(netlist.model().trans_count(), |i: int| false),
            r.stats_view() == zero_stats(),
            !r.probe_view().on,
            r.probe_view().seed@.len() == 0,
            r.probe_view().changed@.len() == 0,
            r.probe_view().start@.len() == 0,
            r.probe_view().members@.len() == 0,
            r.probe_view().marks@.len() == 0,
    {
        proof {
            netlist.lemma_wf();
        }
        let state = ChipState::new(&netlist);
        let nodes = netlist.node_count();
        let group: Vec<NodeId> = vec![0; nodes + 1];
        let run = Solver {
            state,
            current: Vec::new(),
            next: Vec::new(),
            queued: BitSet::new(nodes),
            group,
            group_len: 0,
            in_group: BitSet::new(nodes),
            stats: Stats::default(),
            probe: Probe::default(),
        };
        Engine { netlist, run }
    }

    pub fn netlist(&self) -> (r: &Netlist)
        ensures
            *r == self.netlist_view(),
    {
        &self.netlist
    }

    pub fn netlist_arc(&self) -> (r: &Arc<Netlist>)
        ensures
            **r == self.netlist_view(),
    {
        &self.netlist
    }

    pub fn state(&self) -> (r: &ChipState)
        ensures
            *r == self.state_view(),
    {
        &self.run.state
    }

    /// The chip state, to change directly. The engine stays well formed as
    /// long as the state keeps its shape.
    pub fn state_mut(&mut self) -> (r: &mut ChipState)
        ensures
            *r == old(self).state_view(),
            final(self).state_view() == *final(r),
            final(self).netlist_view() == old(self).netlist_view(),
            final(self).probe_view() == old(self).probe_view(),
            final(self).stats_view() == old(self).stats_view(),
            old(self).wf() && Self::fits(*final(r), old(self).netlist_view()) ==> final(self).wf(),
    {
        &mut self.run.state
    }

    /// The record of group searches. Recording is off in a new engine.
    pub fn probe(&self) -> (r: &Probe)
        ensures
            *r == self.probe_view(),
    {
        &self.run.probe
    }

    /// The record, to switch on or off, to label or to clear. While `on`,
    /// each group search that settling makes appends its seed, whether it
    /// changed a level, where its members start, and its members (see
    /// `logged` and `settle_log`).
    pub fn probe_mut(&mut self) -> (r: &mut Probe)
        ensures
            *r == old(self).probe_view(),
            final(self).probe_view() == *final(r),
            final(self).netlist_view() == old(self).netlist_view(),
            final(self).state_view() == old(self).state_view(),
            final(self).stats_view() == old(self).stats_view(),
            old(self).wf() ==> final(self).wf(),
    {
        &mut self.run.probe
    }

    pub fn stats(&self) -> (r: &Stats)
        ensures
            *r == self.stats_view(),
    {
        &self.run.stats
    }

    pub fn reset_stats(&mut self)
        requires
            old(self).wf(),
        ensures
            final(self).wf(),
            final(self).stats_view() == zero_stats(),
            final(self).state_view() == old(self).state_view(),
            final(self).netlist_view() == old(self).netlist_view(),
            final(self).probe_view() == old(self).probe_view(),
    {
        self.run.stats = Stats::default();
    }

    pub fn is_high(&self, n: NodeId) -> (r: bool)
        requires
            self.wf(),
            (n as int) < self.netlist_view().model().node_count,
        ensures
            r == self.state_view().value@[n as int],
    {
        self.run.state.value.get(n as usize)
    }

    /// Read a little-endian bus: `nodes[0]` is bit 0.
    pub fn read_bus(&self, nodes: &[NodeId]) -> (r: u32)
        requires
            self.wf(),
            nodes@.len() <= 32,
            forall|k: int|
                0 <= k < nodes@.len() ==> (nodes@[k] as int) < self.netlist_view().model().node_count,
        ensures
            r == bus_value(levels(self.state_view().value@, nodes@)),
    {
        let ghost bits = levels(self.run.state.value@, nodes@);
        let mut v: u32 = 0;
        let mut i = nodes.len();
        proof {
            assert(bits.skip(i as int) =~= Seq::<bool>::empty());
            vstd::arithmetic::power2::lemma2_to64();
        }
        while i > 0
            invariant
                0 <= i <= nodes@.len(),
                nodes@.len() <= 32,
                self.wf(),
                bits == levels(self.run.state.value@, nodes@),
                forall|k: int|
                    0 <= k < nodes@.len() ==> (nodes@[k] as int) < self.netlist_view().model().node_count,
                v == bus_value(bits.skip(i as int)),
                v < vstd::arithmetic::power2::pow2((nodes@.len() - i) as nat),
            decreases i,
        {
            proof {
                lemma_bus_step(bits, i as int);
                vstd::arithmetic::power2::lemma2_to64();
                vstd::arithmetic::power2::lemma_pow2_unfold((nodes@.len() - i + 1) as nat);
                if nodes@.len() - i + 1 < 32 {
                    vstd::arithmetic::power2::lemma_pow2_strictly_increases(
                        (nodes@.len() - i + 1) as nat,
                        32,
                    );
                }
            }
            let b: u32 = if self.run.state.value.get(nodes[i - 1] as usize) {
                1
            } else {
                0
            };
            v = v * 2 + b;
            i = i - 1;
        }
        proof {
            assert(bits.skip(0) =~= bits);
        }
        v
    }

    /// Drive a node high (pullup on, pulldown off) and settle from it.
    pub fn drive_high(&mut self, n: NodeId)
        requires
            old(self).wf(),
            usable(old(self).netlist_view()),
            (n as int) < old(self).netlist_view().model().node_count,
        ensures
            final(self).wf(),
            final(self).netlist_view() == old(self).netlist_view(),
            final(self).probe_view().on == old(self).probe_view().on,
            !old(self).probe_view().on ==> final(self).probe_view() == old(self).probe_view(),
            old(self).probe_view().on ==> logged(
                old(self).probe_view(),
                final(self).probe_view(),
                settle_log(
                    old(self).netlist_view(),
                    final(self).state_view().pullup@,
                    final(self).state_view().pulldown@,
                    old(self).state_view().value@,
                    old(self).state_view().trans_on@,
                    old(self).stats_view(),
                    seq![n],
                ),
            ),
            final(self).state_view().pullup@ == old(self).state_view().pullup@.update(n as int, true),
            final(self).state_view().pulldown@ == old(self).state_view().pulldown@.update(n as int, false),
            ({
                let r = settle_spec(
                    old(self).netlist_view(),
                    final(self).state_view().pullup@,
                    final(self).state_view().pulldown@,
                    old(self).state_view().value@,
                    old(self).state_view().trans_on@,
                    old(self).stats_view(),
                    seq![n],
                );
                &&& final(self).state_view().value@ == r.value
                &&& final(self).state_view().trans_on@ == r.trans_on
                &&& final(self).stats_view() == r.stats
            }),
    {
        self.run.state.pullup.set(n as usize);
        self.run.state.pulldown.clear(n as usize);
        let seeds = vec![n];
        assert(seeds@ =~= seq![n]);
        self.run.settle(&self.netlist, seeds.as_slice());
    }

    /// Drive a node low (pulldown on, pullup off) and settle from it.
    pub fn drive_low(&mut self, n: NodeId)
        requires
            old(self).wf(),
            usable(old(self).netlist_view()),
            (n as int) < old(self).netlist_view().model().node_count,
        ensures
            final(self).wf(),
            final(self).netlist_view() == old(self).netlist_view(),
            final(self).probe_view().on == old(self).probe_view().on,
            !old(self).probe_view().on ==> final(self).probe_view() == old(self).probe_view(),
            old(self).probe_view().on ==> logged(
                old(self).probe_view(),
                final(self).probe_view(),
                settle_log(
                    old(self).netlist_view(),
                    final(self).state_view().pullup@,
                    final(self).state_view().pulldown@,
                    old(self).state_view().value@,
                    old(self).state_view().trans_on@,
                    old(self).stats_view(),
                    seq![n],
                ),
            ),
            final(self).state_view().pullup@ == old(self).state_view().pullup@.update(n as int, false),
            final(self).state_view().pulldown@ == old(self).state_view().pulldown@.update(n as int, true),
            ({
                let r = settle_spec(
                    old(self).netlist_view(),
                    final(self).state_view().pullup@,
                    final(self).state_view().pulldown@,
                    old(self).state_view().value@,
                    old(self).state_view().trans_on@,
                    old(self).stats_view(),
                    seq![n],
                );
                &&& final(self).state_view().value@ == r.value
                &&& final(self).state_view().trans_on@ == r.trans_on
                &&& final(self).stats_view() == r.stats
            }),
    {
        self.run.state.pullup.clear(n as usize);
        self.run.state.pulldown.set(n as usize);
        let seeds = vec![n];
        assert(seeds@ =~= seq![n]);
        self.run.settle(&self.netlist, seeds.as_slice());
    }

    /// Set the pull on a node without settling: for driving several nodes as
    /// one event, then settling once with all of them as seeds.
    pub fn set_pull(&mut self, n: NodeId, high: bool)
        requires
            old(self).wf(),
            (n as int) < old(self).netlist_view().model().node_count,
        ensures
            final(self).wf(),
            final(self).netlist_view() == old(self).netlist_view(),
            final(self).probe_view() == old(self).probe_view(),
            final(self).stats_view() == old(self).stats_view(),
            final(self).state_view().value == old(self).state_view().value,
            final(self).state_view().trans_on == old(self).state_view().trans_on,
            final(self).state_view().pullup@ == old(self).state_view().pullup@.update(n as int, high),
            final(self).state_view().pulldown@ == old(self).state_view().pulldown@.update(n as int, !high),
    {
        self.run.state.pullup.put(n as usize, high);
        self.run.state.pulldown.put(n as usize, !high);
    }

    /// Restore every pull to the layout's: pullups as extracted, no
    /// pulldowns.
    pub fn restore_layout_pulls(&mut self)
        requires
            old(self).wf(),
        ensures
            final(self).wf(),
            final(self).netlist_view() == old(self).netlist_view(),
            final(self).probe_view() == old(self).probe_view(),
            final(self).stats_view() == old(self).stats_view(),
            final(self).state_view().value == old(self).state_view().value,
            final(self).state_view().trans_on == old(self).state_view().trans_on,
            final(self).state_view().pullup@ == old(self).netlist_view().model().pullup,
            final(self).state_view().pulldown@ == Seq::new(
                old(self).netlist_view().model().node_count,
                |i: int| false,
            ),
    {
        proof {
            self.netlist.lemma_wf();
        }
        self.run.state.pullup.copy_from(self.netlist.pullups());
        self.run.state.pulldown.clear_all();
    }

    /// Force the power-on condition: every node low except the supply, every
    /// transistor off. Does not settle.
    pub fn force_power_on_state(&mut self)
        requires
            old(self).wf(),
            (old(self).netlist_view().model().vcc as int) < old(self).netlist_view().model().node_count,
        ensures
            final(self).wf(),
            final(self).netlist_view() == old(self).netlist_view(),
            final(self).probe_view() == old(self).probe_view(),
            final(self).stats_view() == old(self).stats_view(),
            final(self).state_view().pullup == old(self).state_view().pullup,
            final(self).state_view().pulldown == old(self).state_view().pulldown,
            final(self).state_view().value@ == Seq::new(
                old(self).netlist_view().model().node_count,
                |i: int| false,
            ).update(old(self).netlist_view().model().vcc as int, true),
            final(self).state_view().trans_on@ == Seq::new(
                old(self).netlist_view().model().trans_count(),
                |i: int| false,
            ),
    {
        self.run.state.value.clear_all();
        let vcc = self.netlist.vcc();
        self.run.state.value.set(vcc as usize);
        self.run.state.trans_on.clear_all();
    }

    /// Recalculate every node that exists and is not a rail. Used once after
    /// power-on, when no incremental seed set is meaningful.
    pub fn settle_all(&mut self)
        requires
            old(self).wf(),
            usable(old(self).netlist_view()),
        ensures
            final(self).wf(),
            final(self).netlist_view() == old(self).netlist_view(),
            final(self).probe_view().on == old(self).probe_view().on,
            !old(self).probe_view().on ==> final(self).probe_view() == old(self).probe_view(),
            old(self).probe_view().on ==> logged(
                old(self).probe_view(),
                final(self).probe_view(),
                settle_log(
                    old(self).netlist_view(),
                    old(self).state_view().pullup@,
                    old(self).state_view().pulldown@,
                    old(self).state_view().value@,
                    old(self).state_view().trans_on@,
                    old(self).stats_view(),
                    settle_all_seeds(old(self).netlist_view().model(), node_span(old(self).netlist_view().model())),
                ),
            ),
            final(self).state_view().pullup == old(self).state_view().pullup,
            final(self).state_view().pulldown == old(self).state_view().pulldown,
            ({
                let r = old(self).settled(
                    settle_all_seeds(old(self).netlist_view().model(), node_span(old(self).netlist_view().model())),
                );
                &&& final(self).state_view().value@ == r.value
                &&& final(self).state_view().trans_on@ == r.trans_on
                &&& final(self).stats_view() == r.stats
            }),
    {
        let ghost m = self.netlist.model();
        let count = self.netlist.node_count();
        let limit: usize = if count <= 65536 {
            count
        } else {
            count % 65536
        };
        let mut seeds: Vec<NodeId> = Vec::new();
        let mut i: usize = 0;
        while i < limit
            invariant
                0 <= i <= limit,
                limit <= 65536,
                (limit as nat) == node_span(m),
                (limit as nat) <= m.node_count,
                m == self.netlist.model(),
                self.netlist.wf(),
                seeds@ == settle_all_seeds(m, i as nat),
                forall|k: int| 0 <= k < seeds@.len() ==> (seeds@[k] as int) < i,
            decreases limit - i,
        {
            let n = i as NodeId;
            if self.netlist.node_exists(n) && !self.netlist.is_rail(n) {
                seeds.push(n);
            }
            i = i + 1;
        }
        self.run.settle(&self.netlist, seeds.as_slice());
    }

    /// Every node currently shorted to `n` through conducting transistors,
    /// in breadth-first order from `n`; empty for a node that does not exist.
    /// The same traversal `settle` uses, exposed read-only.
    pub fn group_of(&self, n: NodeId) -> (r: Vec<NodeId>)
        requires
            self.wf(),
            (n as int) < self.netlist_view().model().node_count && self.netlist_view().model().exists[n as int]
                ==> group_in_range(self.netlist_view().model(), self.state_view().trans_on@, n),
        ensures
            r@ == (if (n as int) < self.netlist_view().model().node_count
                && self.netlist_view().model().exists[n as int] {
                group_of_spec(self.netlist_view().model(), self.state_view().trans_on@, n)
            } else {
                Seq::empty()
            }),
    {
        let nl: &Netlist = &self.netlist;
        let ghost m = nl.model();
        let ghost on = self.run.state.trans_on@;
        let count = nl.node_count();
        if n as usize >= count || !nl.node_exists(n) {
            return Vec::new();
        }
        proof {
            nl.lemma_wf();
        }
        let ghost fuel = (count + 1) as nat;
        let mut group: Vec<NodeId> = Vec::new();
        group.push(n);
        let mut seen = BitSet::new(count);
        proof {
            lemma_count_all_false(seen@);
        }
        let ghost seen0 = seen@;
        seen.set(n as usize);
        proof {
            lemma_count_set(seen0, n as int);
            assert forall|y: int| 0 <= y < count implies seen@[y] == has_node(group@, y) by {
                if y == n as int {
                    assert(group@[0] as int == y);
                }
            }
            assert(group@ =~= seq![n]);
        }
        let mut i: usize = 0;
        while i < group.len()
            invariant
                group_in_range(m, on, n),
                nl.wf(),
                m == nl.model(),
                count == m.node_count,
                *nl == self.netlist_view(),
                self.wf(),
                on == self.run.state.trans_on@,
                on.len() == m.trans_count(),
                fuel == count + 1,
                0 <= i <= group@.len(),
                1 <= group@.len() <= count,
                seen@.len() == count,
                count_true(seen@) == group@.len(),
                forall|k: int| 0 <= k < group@.len() ==> (group@[k] as int) < count,
                forall|y: int| 0 <= y < count ==> seen@[y] == has_node(group@, y),
                bfs(m, on, group@, i as nat, (fuel - i) as nat) == group_of_spec(m, on, n),
            decreases count + 1 - i,
        {
            let x = group[i];
            let ghost g0 = group@;
            let ghost i0 = i;
            i = i + 1;
            if nl.is_rail(x) {
                continue;
            }
            let ts = nl.terminals_of(x);
            let nt = ts.len();
            let mut k: usize = 0;
            while k < nt
                invariant
                    group_in_range(m, on, n),
                    nl.wf(),
                    bfs(m, on, g0, i0 as nat, (fuel - i0) as nat) == group_of_spec(m, on, n),
                    (i0 as int) < g0.len(),
                    g0[i0 as int] == x,
                    !m.is_rail(x as int),
                    fuel > i0,
                    m == nl.model(),
                    count == m.node_count,
                    on == self.run.state.trans_on@,
                    on.len() == m.trans_count(),
                    (x as int) < count,
                    ts@ == spec_terminals_of(m, x as int),
                    nt == ts@.len(),
                    0 <= k <= nt,
                    1 <= group@.len() <= count,
                    i <= group@.len(),
                    seen@.len() == count,
                    count_true(seen@) == group@.len(),
                    forall|j: int| 0 <= j < group@.len() ==> (group@[j] as int) < count,
                    forall|y: int| 0 <= y < count ==> seen@[y] == has_node(group@, y),
                    group@ == expand(g0, ts@.take(k as int), on),
                    group@.take(i as int) == g0.take(i as int),
                    g0.len() >= i,
                decreases nt - k,
            {
                let term = ts[k];
                proof {
                    crate::netlist::lemma_terminal_in_range(*nl, x as int, k as int);
                    lemma_count_bound(seen@);
                    assert(ts@.take(k + 1).drop_last() =~= ts@.take(k as int));
                    assert(ts@.take(k + 1).last() == term);
                }
                let ghost before = group@;
                let ghost seen_before = seen@;
                if self.run.state.trans_on.get(term.transistor as usize) {
                    proof {
                        lemma_joined_in_walk(m, on, g0, i0 as nat, (fuel - i0) as nat, k as int);
                        let target = group_of_spec(m, on, n);
                        let w = choose|w: int| 0 <= w < target.len() && target[w] as int == term.other as int;
                        assert((target[w] as int) < count);
                    }
                    if !seen.test_and_set(term.other as usize) {
                        group.push(term.other);
                        proof {
                            lemma_count_set(seen_before, term.other as int);
                            assert forall|y: int| 0 <= y < count implies seen@[y] == has_node(
                                group@,
                                y,
                            ) by {
                                if y == term.other as int {
                                    assert(group@[group@.len() - 1] as int == y);
                                } else {
                                    if has_node(group@, y) {
                                        let w = choose|w: int|
                                            0 <= w < group@.len() && group@[w] as int == y;
                                        assert(before[w] as int == y);
                                    }
                                    if has_node(before, y) {
                                        let w = choose|w: int|
                                            0 <= w < before.len() && before[w] as int == y;
                                        assert(group@[w] as int == y);
                                    }
                                }
                            }
                        }
                    } else {
                        assert(seen@ =~= seen_before);
                    }
                }
                proof {
                    lemma_count_bound(seen@);
                    assert(group@.take(i as int) =~= g0.take(i as int));
                }
                k = k + 1;
            }
            proof {
                assert(ts@.take(nt as int) =~= ts@);
            }
        }
        proof {
            lemma_bfs_done(m, on, group@, i as nat, (fuel - i) as nat);
        }
        group
    }

    /// The node-state encoding used for differential testing: one
    /// character per node number, gaps included.
    pub fn state_string(&self) -> (r: String)
        requires
            self.wf(),
        ensures
            r@ == Seq::new(
                node_span(self.netlist_view().model()),
                |n: int| state_char(self.netlist_view().model(), self.state_view().value@, n),
            ),
    {
        let nl: &Netlist = &self.netlist;
        let ghost m = nl.model();
        let count = nl.node_count();
        let limit: usize = if count <= 65536 {
            count
        } else {
            count % 65536
        };
        proof {
            nl.lemma_wf();
        }
        let mut out = String::new();
        let mut i: usize = 0;
        while i < limit
            invariant
                0 <= i <= limit,
                limit <= 65536,
                (limit as nat) == node_span(m),
                (limit as nat) <= m.node_count,
                m == nl.model(),
                *nl == self.netlist_view(),
                self.wf(),
                nl.wf(),
                m.exists.len() == m.node_count,
                out@ =~= Seq::new(i as nat, |k: int| state_char(m, self.run.state.value@, k)),
            decreases limit - i,
        {
            let n = i as NodeId;
            let c = if !nl.node_exists(n) {
                "x"
            } else if n == nl.vss() {
                "g"
            } else if n == nl.vcc() {
                "v"
            } else if self.run.state.value.get(n as usize) {
                "h"
            } else {
                "l"
            };
            proof {
                reveal_strlit("x");
                reveal_strlit("g");
                reveal_strlit("v");
                reveal_strlit("h");
                reveal_strlit("l");
            }
            assert(c@ == seq![state_char(m, self.run.state.value@, i as int)]);
            out.append(c);
            i = i + 1;
        }
        out
    }

    /// How many nodes that exist are high.
    pub fn high_count(&self) -> (r: usize)
        requires
            self.wf(),
        ensures
            r == count_true(
                Seq::new(
                    self.netlist_view().model().node_count,
                    |i: int| self.netlist_view().model().exists[i] && self.state_view().value@[i],
                ),
            ),
    {
        proof {
            self.netlist.lemma_wf();
        }
        let nl: &Netlist = &self.netlist;
        let ghost m = nl.model();
        let ghost f = Seq::new(m.node_count, |i: int| m.exists[i] && self.run.state.value@[i]);
        let n = nl.node_count();
        let mut c: usize = 0;
        let mut i: usize = 0;
        while i < n
            invariant
                0 <= i <= n,
                n == m.node_count,
                m == nl.model(),
                nl.wf(),
                m.exists.len() == m.node_count,
                self.run.state.value@.len() == m.node_count,
                f == Seq::new(m.node_count, |i: int| m.exists[i] && self.run.state.value@[i]),
                c == count_true(f.take(i as int)),
                c <= i,
            decreases n - i,
        {
            assert(f.take(i + 1).drop_last() =~= f.take(i as int));
            if nl.exists_at(i) && self.run.state.value.get(i) {
                c = c + 1;
            }
            i = i + 1;
        }
        assert(f.take(n as int) =~= f);
        c
    }

    /// Propagate from `seeds` until the network reaches a fixed point.
    pub fn settle(&mut self, seeds: &[NodeId])
        requires
            old(self).wf(),
            usable(old(self).netlist_view()),
            forall|k: int|
                0 <= k < seeds@.len() ==> (seeds@[k] as int) < old(self).netlist_view().model().node_count,
        ensures
            final(self).wf(),
            final(self).netlist_view() == old(self).netlist_view(),
            final(self).probe_view().on == old(self).probe_view().on,
            !old(self).probe_view().on ==> final(self).probe_view() == old(self).probe_view(),
            old(self).probe_view().on ==> logged(
                old(self).probe_view(),
                final(self).probe_view(),
                settle_log(
                    old(self).netlist_view(),
                    old(self).state_view().pullup@,
                    old(self).state_view().pulldown@,
                    old(self).state_view().value@,
                    old(self).state_view().trans_on@,
                    old(self).stats_view(),
                    seeds@,
                ),
            ),
            final(self).state_view().pullup == old(self).state_view().pullup,
            final(self).state_view().pulldown == old(self).state_view().pulldown,
            ({
                let r = old(self).settled(seeds@);
                &&& final(self).state_view().value@ == r.value
                &&& final(self).state_view().trans_on@ == r.trans_on
                &&& final(self).stats_view() == r.stats
            }),
    {
        self.run.settle(&self.netlist, seeds);
    }
}

} // verus!

//! The netlist: which nodes exist, which transistors join them, what they are
//! called. Holds no simulation state.
//!
//! Adjacency is CSR (compressed sparse row): one flat index array plus
//! per-node offsets. The rails arrive as node numbers in the decoded blob, not
//! as names, and they are given no terminal entries: group traversal records a
//! rail and never crosses it.

use vstd::prelude::*;
use crate::bitset::{BitSet, count_true};
use crate::csr::{csr_build, select};
use crate::text::{string_from_utf8_lossy, utf8_lossy, str_eq, indexed_name, decimal};

verus! {

/// Index of a node (a set of electrically joined polygons on the die).
pub type NodeId = u16;

/// Index of a transistor.
pub type TransId = u16;

/// A terminal connection: the transistor, and the node on its other side.
#[derive(Copy, Clone, Debug, PartialEq, Eq, Structural)]
pub struct Terminal {
    pub transistor: TransId,
    pub other: NodeId,
}

/// Why a blob is not a netlist.
#[derive(Debug)]
pub enum DecodeError {
    BadMagic,
    Truncated,
}

impl DecodeError {
    /// The sentence that describes the error.
    pub fn message(&self) -> (r: &'static str)
        ensures
            r@ == (match self {
                DecodeError::BadMagic => "netlist blob has wrong magic"@,
                DecodeError::Truncated => "netlist blob is truncated"@,
            }),
    {
        match self {
            DecodeError::BadMagic => "netlist blob has wrong magic",
            DecodeError::Truncated => "netlist blob is truncated",
        }
    }
}

/// How an undriven group that holds charge resolves.
#[derive(Copy, Clone, Debug, PartialEq, Eq, Structural)]
pub enum ChargeRule {
    /// High if any member holds charge.
    AnyHigh,
    /// High only if the charged members outweigh the uncharged ones by area.
    AreaVote,
}

// ---------------------------------------------------------------------------
// The blob format
// ---------------------------------------------------------------------------

/// The eight bytes a blob starts with: `HALFPHI1`.
pub open spec fn magic() -> Seq<u8> {
    seq![72u8, 65u8, 76u8, 70u8, 80u8, 72u8, 73u8, 49u8]
}

/// A little-endian `u16` at byte `i`.
pub open spec fn le16(b: Seq<u8>, i: int) -> u16 {
    (b[i] as int + 256 * (b[i + 1] as int)) as u16
}

/// A little-endian `u32` at byte `i`.
pub open spec fn le32(b: Seq<u8>, i: int) -> u32 {
    (b[i] as int + 256 * (b[i + 1] as int) + 65536 * (b[i + 2] as int) + 16777216 * (
    b[i + 3] as int)) as u32
}

/// Bit `k` (0 = least significant) of a byte.
pub open spec fn bit8(byte: u8, k: int) -> bool {
    (byte >> (k as u8)) & 1u8 == 1u8
}

/// How many bytes hold `len` flags.
pub open spec fn bytes_for(len: nat) -> nat {
    (len + 7) / 8
}

/// `len` flags packed least-significant-bit first from byte `at`.
pub open spec fn flags_at(b: Seq<u8>, at: int, len: nat) -> Seq<bool> {
    Seq::new(len, |i: int| bit8(b[at + i / 8], i % 8))
}

/// The first `k` name records from byte `pos`: each a `u16` length, that many
/// bytes, and an `i32` node. `None` if the blob ends first; otherwise the
/// records and the position after them.
pub open spec fn name_records(b: Seq<u8>, pos: int, k: nat) -> Option<(Seq<(Seq<u8>, i32)>, int)>
    decreases k,
{
    if k == 0 {
        Some((Seq::empty(), pos))
    } else {
        match name_records(b, pos, (k - 1) as nat) {
            None => None,
            Some((rs, p)) => {
                if p + 2 > b.len() {
                    None
                } else {
                    let l = le16(b, p) as int;
                    if p + 2 + l + 4 > b.len() {
                        None
                    } else {
                        Some((rs.push((b.subrange(p + 2, p + 2 + l), le32(b, p + 2 + l) as i32)), p + 6 + l))
                    }
                }
            }
        }
    }
}

/// The names that refer to a node in range, as (text, node), in blob order.
/// A record whose node is negative or past the end (the status register's
/// missing bit is recorded as -1) is left out.
pub open spec fn kept_names(rs: Seq<(Seq<u8>, i32)>, n: nat) -> Seq<(Seq<char>, u16)>
    decreases rs.len(),
{
    if rs.len() == 0 {
        Seq::empty()
    } else {
        let prev = kept_names(rs.drop_last(), n);
        let (bytes, node) = rs.last();
        if 0 <= node < n {
            prev.push((utf8_lossy(bytes), node as u16))
        } else {
            prev
        }
    }
}

/// What a netlist is, as numbers and sequences.
pub struct NetModel {
    pub node_count: nat,
    pub vss: u16,
    pub vcc: u16,
    pub exists: Seq<bool>,
    pub pullup: Seq<bool>,
    pub gate: Seq<u16>,
    pub c1: Seq<u16>,
    pub c2: Seq<u16>,
    /// Every kept name record, in blob order; a later record of a name wins.
    pub names: Seq<(Seq<char>, u16)>,
}

impl NetModel {
    pub open spec fn is_rail(self, n: int) -> bool {
        n == self.vss as int || n == self.vcc as int
    }

    pub open spec fn trans_count(self) -> nat {
        self.gate.len()
    }

    /// Every transistor's gate is a node, and so is every end that is not a
    /// rail.
    pub open spec fn ends_in_range(self) -> bool {
        &&& self.c1.len() == self.gate.len()
        &&& self.c2.len() == self.gate.len()
        &&& forall|t: int|
            0 <= t < self.gate.len() ==> {
                &&& (self.gate[t] as int) < self.node_count
                &&& !self.is_rail(self.c1[t] as int) ==> (self.c1[t] as int) < self.node_count
                &&& !self.is_rail(self.c2[t] as int) ==> (self.c2[t] as int) < self.node_count
            }
    }
}

/// Where the transistor records start.
pub open spec fn trans_at(b: Seq<u8>) -> int {
    (28 + 2 * bytes_for(le32(b, 8) as nat)) as int
}

/// The netlist a blob describes, or why it describes none.
pub open spec fn spec_decode(b: Seq<u8>) -> Result<NetModel, DecodeError> {
    if b.len() < 8 {
        Err(DecodeError::Truncated)
    } else if b.take(8) != magic() {
        Err(DecodeError::BadMagic)
    } else if b.len() < 28 {
        Err(DecodeError::Truncated)
    } else {
        let n = le32(b, 8) as nat;
        let t = le32(b, 12) as nat;
        let k = le32(b, 16) as nat;
        let e = bytes_for(n) as int;
        let p0 = trans_at(b);
        let p1 = p0 + 6 * t;
        if b.len() < p1 {
            Err(DecodeError::Truncated)
        } else {
            match name_records(b, p1, k) {
                None => Err(DecodeError::Truncated),
                Some((rs, _)) => Ok(
                    NetModel {
                        node_count: n,
                        vss: le32(b, 20) as u16,
                        vcc: le32(b, 24) as u16,
                        exists: flags_at(b, 28, n),
                        pullup: flags_at(b, 28 + e, n),
                        gate: Seq::new(t, |i: int| le16(b, p0 + 6 * i)),
                        c1: Seq::new(t, |i: int| le16(b, p0 + 6 * i + 2)),
                        c2: Seq::new(t, |i: int| le16(b, p0 + 6 * i + 4)),
                        names: kept_names(rs, n),
                    },
                ),
            }
        }
    }
}

/// The terminal list in transistor order, as (near node, terminal) pairs:
/// for each transistor, first its c1 end (if not a rail) then its c2 end.
/// A transistor with c1 == c2 appears twice.
pub open spec fn term_pairs(m: NetModel, t: nat) -> (Seq<u16>, Seq<Terminal>)
    decreases t,
{
    if t == 0 {
        (Seq::empty(), Seq::empty())
    } else {
        let (ks, vs) = term_pairs(m, (t - 1) as nat);
        let i = t - 1;
        let (a, b) = (m.c1[i], m.c2[i]);
        let (ks1, vs1) = if !m.is_rail(a as int) {
            (ks.push(a), vs.push(Terminal { transistor: tid(i), other: b }))
        } else {
            (ks, vs)
        };
        if !m.is_rail(b as int) {
            (ks1.push(b), vs1.push(Terminal { transistor: tid(i), other: a }))
        } else {
            (ks1, vs1)
        }
    }
}

/// The transistors whose gate is `n`, in order.
pub open spec fn spec_gates_of(m: NetModel, n: int) -> Seq<u16> {
    select(m.gate, Seq::new(m.gate.len(), |t: int| tid(t)), n)
}

/// The terminals whose near end is `n`, in transistor order.
pub open spec fn spec_terminals_of(m: NetModel, n: int) -> Seq<Terminal> {
    select(term_pairs(m, m.trans_count()).0, term_pairs(m, m.trans_count()).1, n)
}

/// The blobs that decode without running off an array: every gate and every
/// non-rail end is a node, and the terminal list fits `u32` offsets.
pub open spec fn decodable(b: Seq<u8>) -> bool {
    spec_decode(b) matches Ok(m) ==> {
        &&& m.ends_in_range()
        &&& m.node_count < usize::MAX
        &&& term_pairs(m, m.trans_count()).0.len() <= u32::MAX
    }
}

/// The node a name resolves to: its last record.
pub open spec fn lookup(names: Seq<(Seq<char>, u16)>, name: Seq<char>) -> Option<u16>
    decreases names.len(),
{
    if names.len() == 0 {
        None
    } else if names.last().0 == name {
        Some(names.last().1)
    } else {
        lookup(names.drop_last(), name)
    }
}

/// A node's canonical name: the first record that names it.
pub open spec fn first_name(names: Seq<(Seq<char>, u16)>, n: int) -> Option<Seq<char>>
    decreases names.len(),
{
    if names.len() == 0 {
        None
    } else {
        match first_name(names.drop_last(), n) {
            Some(s) => Some(s),
            None => if names.last().1 as int == n {
                Some(names.last().0)
            } else {
                None
            },
        }
    }
}

proof fn lemma_term_keys(m: NetModel, t: nat)
    requires
        m.ends_in_range(),
        t <= m.trans_count(),
    ensures
        term_pairs(m, t).0.len() == term_pairs(m, t).1.len(),
        forall|j: int|
            0 <= j < term_pairs(m, t).0.len() ==> (term_pairs(m, t).0[j] as int) < m.node_count,
    decreases t,
{
    if t > 0 {
        lemma_term_keys(m, (t - 1) as nat);
    }
}

proof fn lemma_records_none(b: Seq<u8>, pos: int, j: nat, k: nat)
    requires
        j <= k,
        name_records(b, pos, j) is None,
    ensures
        name_records(b, pos, k) is None,
    decreases k - j,
{
    if j < k {
        lemma_records_none(b, pos, j, (k - 1) as nat);
    }
}

// ---------------------------------------------------------------------------
// Reading
// ---------------------------------------------------------------------------

struct Reader<'a> {
    b: &'a [u8],
    i: usize,
}

impl<'a> Reader<'a> {
    fn take(&mut self, n: usize) -> (r: Result<&'a [u8], DecodeError>)
        ensures
            final(self).b == old(self).b,
            old(self).i + n <= old(self).b@.len() ==> (r matches Ok(s) && s@ == old(self).b@.subrange(
                old(self).i as int,
                old(self).i + n,
            ) && final(self).i == old(self).i + n),
            old(self).i + n > old(self).b@.len() ==> (r matches Err(DecodeError::Truncated)
                && final(self).i == old(self).i),
    {
        if self.i <= self.b.len() && n <= self.b.len() - self.i {
            let s = vstd::slice::slice_subrange(self.b, self.i, self.i + n);
            self.i = self.i + n;
            Ok(s)
        } else {
            Err(DecodeError::Truncated)
        }
    }

    fn u16(&mut self) -> (r: Result<u16, DecodeError>)
        requires
            old(self).i <= old(self).b@.len(),
        ensures
            final(self).b == old(self).b,
            final(self).i <= final(self).b@.len(),
            old(self).i + 2 <= old(self).b@.len() ==> r == Ok::<u16, DecodeError>(
                le16(old(self).b@, old(self).i as int),
            ) && final(self).i == old(self).i + 2,
            old(self).i + 2 > old(self).b@.len() ==> r matches Err(DecodeError::Truncated),
    {
        let s = self.take(2)?;
        Ok((s[0] as u16) + (s[1] as u16) * 256)
    }

    fn u32(&mut self) -> (r: Result<u32, DecodeError>)
        requires
            old(self).i <= old(self).b@.len(),
        ensures
            final(self).b == old(self).b,
            final(self).i <= final(self).b@.len(),
            old(self).i + 4 <= old(self).b@.len() ==> r == Ok::<u32, DecodeError>(
                le32(old(self).b@, old(self).i as int),
            ) && final(self).i == old(self).i + 4,
            old(self).i + 4 > old(self).b@.len() ==> r matches Err(DecodeError::Truncated),
    {
        let s = self.take(4)?;
        Ok((s[0] as u32) + (s[1] as u32) * 256 + (s[2] as u32) * 65536 + (s[3] as u32) * 16777216)
    }

    fn i32(&mut self) -> (r: Result<i32, DecodeError>)
        requires
            old(self).i <= old(self).b@.len(),
        ensures
            final(self).b == old(self).b,
            final(self).i <= final(self).b@.len(),
            old(self).i + 4 <= old(self).b@.len() ==> r == Ok::<i32, DecodeError>(
                le32(old(self).b@, old(self).i as int) as i32,
            ) && final(self).i == old(self).i + 4,
            old(self).i + 4 > old(self).b@.len() ==> r matches Err(DecodeError::Truncated),
    {
        let v = self.u32()?;
        Ok(v as i32)
    }

    fn bits(&mut self, len: usize) -> (r: Result<BitSet, DecodeError>)
        requires
            old(self).i <= old(self).b@.len(),
        ensures
            final(self).b == old(self).b,
            final(self).i <= final(self).b@.len(),
            old(self).i + bytes_for(len as nat) <= old(self).b@.len() ==> (r matches Ok(set)
                && set@ == flags_at(old(self).b@, old(self).i as int, len as nat) && final(self).i
                == old(self).i + bytes_for(len as nat)),
            old(self).i + bytes_for(len as nat) > old(self).b@.len() ==> r matches Err(
                DecodeError::Truncated,
            ),
    {
        let at = self.i;
        let nbytes = len / 8 + if len % 8 != 0 {
            1
        } else {
            0
        };
        let bytes = self.take(nbytes)?;
        let mut set = BitSet::new(len);
        let nb = bytes.len();
        let mut bi: usize = 0;
        while bi < nb
            invariant
                0 <= bi <= nb,
                nb == bytes@.len(),
                nb == bytes_for(len as nat),
                set@.len() == len,
                forall|x: int|
                    0 <= x < len ==> set@[x] == (x < bi * 8 && bit8(bytes@[x / 8], x % 8)),
            decreases nb - bi,
        {
            let byte = bytes[bi];
            let mut k: usize = 0;
            while k < 8
                invariant
                    0 <= k <= 8,
                    0 <= bi < nb,
                    nb == bytes@.len(),
                    nb == bytes_for(len as nat),
                    byte == bytes@[bi as int],
                    set@.len() == len,
                    forall|x: int|
                        0 <= x < len ==> set@[x] == (x < bi * 8 + k && bit8(bytes@[x / 8], x % 8)),
                decreases 8 - k,
            {
                if k < len - bi * 8 && (byte >> (k as u8)) & 1 != 0 {
                    set.set(bi * 8 + k);
                }
                proof {
                    lemma_bit8(byte, k as u8);
                }
                k = k + 1;
            }
            bi = bi + 1;
        }
        proof {
            assert(set@ =~= flags_at(self.b@, at as int, len as nat));
        }
        Ok(set)
    }
}

// ---------------------------------------------------------------------------
// The netlist
// ---------------------------------------------------------------------------

/// A chip's topology: nodes, transistors, names, and the two adjacency lists
/// the solver walks. It embeds no die data and names no chip.
#[derive(Debug)]
pub struct Netlist {
    node_count: usize,
    vss: NodeId,
    vcc: NodeId,
    exists: BitSet,
    pullup: BitSet,
    trans_gate: Vec<NodeId>,
    trans_c1: Vec<NodeId>,
    trans_c2: Vec<NodeId>,
    // node -> transistors whose gate this node drives
    gate_offsets: Vec<u32>,
    gate_index: Vec<TransId>,
    // node -> terminals (transistor + far-side node)
    term_offsets: Vec<u32>,
    term_index: Vec<Terminal>,
    // every kept name record, in blob order; a later record of a name wins
    names: Vec<(String, NodeId)>,
    node_names: Vec<Option<String>>,
    /// Nodes whose groups, when joined to both rails at once, resolve by their
    /// pulls and held charge instead of by either rail. Empty by default.
    rail_conflict_holds: BitSet,
    /// Per-node areas (twice the shoelace area, summed over a node's
    /// polygons), for the charge vote. Empty unless supplied.
    node_areas: Vec<u64>,
    charge_rule: ChargeRule,
}

pub open spec fn name_view(e: (String, NodeId)) -> (Seq<char>, u16) {
    (e.0@, e.1)
}

pub open spec fn opt_view(o: Option<String>) -> Option<Seq<char>> {
    match o {
        Some(s) => Some(s@),
        None => None,
    }
}

impl Netlist {
    /// The topology and names.
    pub closed spec fn model(&self) -> NetModel {
        NetModel {
            node_count: self.node_count as nat,
            vss: self.vss,
            vcc: self.vcc,
            exists: self.exists@,
            pullup: self.pullup@,
            gate: self.trans_gate@,
            c1: self.trans_c1@,
            c2: self.trans_c2@,
            names: self.names@.map_values(|e: (String, NodeId)| name_view(e)),
        }
    }

    /// Which nodes carry the rail-conflict hold.
    pub closed spec fn holds(&self) -> Seq<bool> {
        self.rail_conflict_holds@
    }

    /// The per-node areas; empty until supplied.
    pub closed spec fn areas(&self) -> Seq<u64> {
        self.node_areas@
    }

    /// The charge rule in force.
    pub closed spec fn rule(&self) -> ChargeRule {
        self.charge_rule
    }

    /// What every netlist satisfies: its arrays agree with its model.
    pub closed spec fn wf(&self) -> bool {
        let m = self.model();
        let n = self.node_count as int;
        &&& m.ends_in_range()
        &&& self.node_count < usize::MAX
        &&& self.node_count <= u32::MAX
        &&& m.trans_count() <= u32::MAX
        &&& m.exists.len() == n
        &&& m.pullup.len() == n
        &&& self.gate_offsets.len() == n + 1
        &&& self.term_offsets.len() == n + 1
        &&& self.gate_offsets@[n] == self.gate_index.len()
        &&& self.term_offsets@[n] == self.term_index.len()
        &&& forall|a: int, b: int|
            0 <= a <= b <= n ==> self.gate_offsets@[a] <= self.gate_offsets@[b]
        &&& forall|a: int, b: int|
            0 <= a <= b <= n ==> self.term_offsets@[a] <= self.term_offsets@[b]
        &&& forall|v: int|
            0 <= v < n ==> self.gate_index@.subrange(
                self.gate_offsets@[v] as int,
                self.gate_offsets@[v + 1] as int,
            ) == spec_gates_of(m, v)
        &&& forall|v: int|
            0 <= v < n ==> self.term_index@.subrange(
                self.term_offsets@[v] as int,
                self.term_offsets@[v + 1] as int,
            ) == spec_terminals_of(m, v)
        &&& self.node_names.len() == n
        &&& forall|u: int| 0 <= u < self.names@.len() ==> (self.names@[u].1 as int) < n
        &&& forall|v: int|
            0 <= v < n ==> opt_view(#[trigger] self.node_names@[v]) == first_name(m.names, v)
        &&& self.holds().len() == n
        &&& forall|v: int| 0 <= v < n && #[trigger] self.holds()[v] ==> !m.is_rail(v)
        &&& self.areas().len() == 0 || self.areas().len() == n
        &&& (exists|v: int| 0 <= v < n && #[trigger] self.holds()[v]) ==> self.areas().len() == n
        &&& self.charge_rule == ChargeRule::AreaVote ==> self.areas().len() == n
    }

    pub fn node_count(&self) -> (r: usize)
        ensures
            r == self.model().node_count,
    {
        self.node_count
    }

    pub fn transistor_count(&self) -> (r: usize)
        requires
            self.wf(),
        ensures
            r == self.model().trans_count(),
    {
        self.trans_gate.len()
    }

    pub fn vss(&self) -> (r: NodeId)
        ensures
            r == self.model().vss,
    {
        self.vss
    }

    pub fn vcc(&self) -> (r: NodeId)
        ensures
            r == self.model().vcc,
    {
        self.vcc
    }

    pub fn is_rail(&self, n: NodeId) -> (r: bool)
        ensures
            r == self.model().is_rail(n as int),
    {
        n == self.vss || n == self.vcc
    }

    /// Supply per-node areas: one per node, in the die's own units (twice
    /// the shoelace area summed over the node's polygons). Call after
    /// decoding, before marking holds.
    pub fn set_node_areas(&mut self, areas: Vec<u64>)
        requires
            old(self).wf(),
            areas.len() == old(self).model().node_count,
        ensures
            final(self).wf(),
            final(self).model() == old(self).model(),
            final(self).holds() == old(self).holds(),
            final(self).rule() == old(self).rule(),
            final(self).areas() == areas@,
    {
        self.node_areas = areas;
    }

    pub fn node_area(&self, n: NodeId) -> (r: u64)
        requires
            (n as int) < self.areas().len(),
        ensures
            r == self.areas()[n as int],
    {
        self.node_areas[n as usize]
    }

    /// Choose how an undriven group holding charge resolves. The area vote
    /// weighs by the per-node areas, so they must be supplied first.
    pub fn set_charge_rule(&mut self, rule: ChargeRule)
        requires
            old(self).wf(),
            rule == ChargeRule::AreaVote ==> old(self).areas().len() == old(self).model().node_count,
        ensures
            final(self).wf(),
            final(self).model() == old(self).model(),
            final(self).holds() == old(self).holds(),
            final(self).areas() == old(self).areas(),
            final(self).rule() == rule,
    {
        self.charge_rule = rule;
    }

    /// The charge rule in force.
    pub fn charge_rule(&self) -> (r: ChargeRule)
        ensures
            r == self.rule(),
    {
        self.charge_rule
    }

    /// Mark nodes for the rail-conflict hold. The hold's charge vote is
    /// weighted by area, so the areas must be supplied first; a rail cannot
    /// carry the hold.
    pub fn set_rail_conflict_holds(&mut self, nodes: &[NodeId])
        requires
            old(self).wf(),
            old(self).areas().len() == old(self).model().node_count,
            forall|k: int|
                0 <= k < nodes@.len() ==> (nodes@[k] as int) < old(self).model().node_count
                    && !old(self).model().is_rail(nodes@[k] as int),
        ensures
            final(self).wf(),
            final(self).model() == old(self).model(),
            final(self).areas() == old(self).areas(),
            final(self).rule() == old(self).rule(),
            final(self).holds().len() == old(self).holds().len(),
            forall|v: int|
                0 <= v < old(self).holds().len() ==> final(self).holds()[v] == (old(self).holds()[v]
                    || exists|k: int| 0 <= k < nodes@.len() && #[trigger] nodes@[k] as int == v),
    {
        let n = nodes.len();
        let mut k: usize = 0;
        while k < n
            invariant
                0 <= k <= n,
                n == nodes@.len(),
                self.wf(),
                self.model() == old(self).model(),
                self.areas() == old(self).areas(),
                self.rule() == old(self).rule(),
                self.areas().len() == self.model().node_count,
                self.holds().len() == old(self).holds().len(),
                forall|j: int|
                    0 <= j < nodes@.len() ==> (nodes@[j] as int) < old(self).model().node_count
                        && !old(self).model().is_rail(nodes@[j] as int),
                forall|v: int|
                    0 <= v < old(self).holds().len() ==> self.holds()[v] == (old(self).holds()[v]
                        || exists|j: int| 0 <= j < k && #[trigger] nodes@[j] as int == v),
            decreases n - k,
        {
            let x = nodes[k];
            self.rail_conflict_holds.set(x as usize);
            proof {
                assert forall|v: int| 0 <= v < old(self).holds().len() implies self.holds()[v] == (
                old(self).holds()[v] || exists|j: int| 0 <= j < k + 1 && #[trigger] nodes@[j] as int
                    == v) by {
                    if v == x as int {
                        assert(nodes@[k as int] as int == v);
                    }
                }
            }
            k = k + 1;
        }
    }

    /// Whether any of these group members carries the rail-conflict hold.
    pub fn any_rail_conflict_hold(&self, members: &[NodeId]) -> (r: bool)
        requires
            self.wf(),
            forall|k: int| 0 <= k < members@.len() ==> (members@[k] as int) < self.model().node_count,
        ensures
            r == exists|k: int| 0 <= k < members@.len() && self.holds()[#[trigger] members@[k] as int],
    {
        let n = members.len();
        let mut k: usize = 0;
        while k < n
            invariant
                0 <= k <= n,
                n == members@.len(),
                self.wf(),
                forall|j: int| 0 <= j < members@.len() ==> (members@[j] as int) < self.model().node_count,
                forall|j: int| 0 <= j < k ==> !self.holds()[#[trigger] members@[j] as int],
            decreases n - k,
        {
            if self.rail_conflict_holds.get(members[k] as usize) {
                return true;
            }
            k = k + 1;
        }
        false
    }

    /// Whether the die data defines this node at all: the node array is
    /// sparse.
    /// Whether node `i` exists, by a `usize` index.
    pub(crate) fn exists_at(&self, i: usize) -> (r: bool)
        requires
            self.wf(),
            (i as int) < self.model().node_count,
        ensures
            r == self.model().exists[i as int],
    {
        self.exists.get(i)
    }

    pub fn node_exists(&self, n: NodeId) -> (r: bool)
        requires
            self.wf(),
            (n as int) < self.model().node_count,
        ensures
            r == self.model().exists[n as int],
    {
        self.exists.get(n as usize)
    }

    /// How many nodes carry a layout pullup.
    pub fn pullup_count(&self) -> (r: usize)
        requires
            self.wf(),
        ensures
            r == count_true(self.model().pullup),
    {
        let ghost f = self.model().pullup;
        let n = self.node_count;
        let mut c: usize = 0;
        let mut i: usize = 0;
        while i < n
            invariant
                0 <= i <= n,
                n == f.len(),
                f == self.pullup@,
                c == count_true(f.take(i as int)),
                c <= i,
            decreases n - i,
        {
            assert(f.take(i + 1).drop_last() =~= f.take(i as int));
            if self.pullup.get(i) {
                c = c + 1;
            }
            i = i + 1;
        }
        assert(f.take(n as int) =~= f);
        c
    }

    /// Initial pullup flags, as extracted from the layout.
    pub fn pullups(&self) -> (r: &BitSet)
        ensures
            r@ == self.model().pullup,
    {
        &self.pullup
    }

    /// The transistors whose gate this node is.
    pub fn gates_of(&self, n: NodeId) -> (r: &[TransId])
        requires
            self.wf(),
            (n as int) < self.model().node_count,
        ensures
            r@ == spec_gates_of(self.model(), n as int),
    {
        let a = self.gate_offsets[n as usize];
        let b = self.gate_offsets[n as usize + 1];
        vstd::slice::slice_subrange(self.gate_index.as_slice(), a as usize, b as usize)
    }

    /// The terminals on this node: each transistor end that is this node,
    /// with the node at the transistor's other end.
    pub fn terminals_of(&self, n: NodeId) -> (r: &[Terminal])
        requires
            self.wf(),
            (n as int) < self.model().node_count,
        ensures
            r@ == spec_terminals_of(self.model(), n as int),
    {
        let a = self.term_offsets[n as usize];
        let b = self.term_offsets[n as usize + 1];
        vstd::slice::slice_subrange(self.term_index.as_slice(), a as usize, b as usize)
    }

    pub fn transistor_gate(&self, t: TransId) -> (r: NodeId)
        requires
            (t as int) < self.model().trans_count(),
        ensures
            r == self.model().gate[t as int],
    {
        self.trans_gate[t as usize]
    }

    pub fn transistor_c1(&self, t: TransId) -> (r: NodeId)
        requires
            self.wf(),
            (t as int) < self.model().trans_count(),
        ensures
            r == self.model().c1[t as int],
    {
        self.trans_c1[t as usize]
    }

    pub fn transistor_c2(&self, t: TransId) -> (r: NodeId)
        requires
            self.wf(),
            (t as int) < self.model().trans_count(),
        ensures
            r == self.model().c2[t as int],
    {
        self.trans_c2[t as usize]
    }

    /// Resolve a signal name (`"clk0"`, `"ab3"`, `"#pclp0"`) to a node.
    pub fn node(&self, name: &str) -> (r: Option<NodeId>)
        ensures
            r == lookup(self.model().names, name@),
    {
        let ghost es = self.model().names;
        let mut k = self.names.len();
        assert(es.take(k as int) =~= es);
        while k > 0
            invariant
                0 <= k <= self.names@.len(),
                es == self.names@.map_values(|e: (String, NodeId)| name_view(e)),
                lookup(es, name@) == lookup(es.take(k as int), name@),
            decreases k,
        {
            proof {
                assert(es.take(k as int).drop_last() =~= es.take(k - 1));
                assert(es.take(k as int).last() == name_view(self.names@[k - 1]));
            }
            if str_eq(self.names[k - 1].0.as_str(), name) {
                return Some(self.names[k - 1].1);
            }
            k = k - 1;
        }
        proof {
            assert(es.take(0) =~= Seq::<(Seq<char>, u16)>::empty());
        }
        None
    }

    /// The canonical name for a node (the first that names it), if any.
    pub fn name_of(&self, n: NodeId) -> (r: Option<&str>)
        requires
            self.wf(),
        ensures
            match r {
                Some(s) => first_name(self.model().names, n as int) == Some(s@),
                None => first_name(self.model().names, n as int) is None,
            },
    {
        if n as usize >= self.node_names.len() {
            proof {
                lemma_first_name_range(self.model().names, n as int, self.node_count as int, &self.names@);
            }
            return None;
        }
        match &self.node_names[n as usize] {
            Some(s) => Some(s.as_str()),
            None => None,
        }
    }

    /// Whether record `k` is the last with its name.
    fn is_last_record(&self, k: usize) -> (r: bool)
        requires
            k < self.model().names.len(),
        ensures
            r == last_record(self.model().names, k as int),
    {
        let ghost es = self.model().names;
        let n = self.names.len();
        let mut j: usize = k + 1;
        while j < n
            invariant
                n == self.names@.len(),
                es == self.names@.map_values(|e: (String, NodeId)| name_view(e)),
                k < j <= n,
                forall|y: int| k < y < j ==> es[y].0 != es[k as int].0,
            decreases n - j,
        {
            assert(es[j as int].0 == self.names@[j as int].0@);
            assert(es[k as int].0 == self.names@[k as int].0@);
            if str_eq(self.names[j].0.as_str(), self.names[k].0.as_str()) {
                return false;
            }
            j = j + 1;
        }
        true
    }

    /// Every name once, with the node it resolves to (its last record), in
    /// the order of those last records.
    pub fn names(&self) -> (r: Vec<(&str, NodeId)>)
        ensures
            forall|i: int|
                0 <= i < r@.len() ==> lookup(self.model().names, r@[i].0@) == Some(r@[i].1),
            forall|i: int, j: int| 0 <= i < j < r@.len() ==> r@[i].0@ != r@[j].0@,
            forall|k: int|
                0 <= k < self.model().names.len() ==> #[trigger] listed(
                    r@,
                    self.model().names[k].0,
                ),
    {
        let ghost es = self.model().names;
        let n = self.names.len();
        let mut out: Vec<(&str, NodeId)> = Vec::new();
        let ghost mut taken: Seq<int> = Seq::empty();
        let mut k: usize = 0;
        while k < n
            invariant
                n == self.names@.len(),
                es == self.model().names,
                es == self.names@.map_values(|e: (String, NodeId)| name_view(e)),
                0 <= k <= n,
                taken.len() == out@.len(),
                forall|i: int|
                    0 <= i < taken.len() ==> 0 <= #[trigger] taken[i] < k && last_record(es, taken[i])
                        && out@[i].0@ == es[taken[i]].0 && out@[i].1 == es[taken[i]].1,
                forall|i: int, j: int| 0 <= i < j < out@.len() ==> out@[i].0@ != out@[j].0@,
                forall|x: int| 0 <= x < k && last_record(es, x) ==> taken.contains(x),
            decreases n - k,
        {
            if self.is_last_record(k) {
                let ghost before = out@;
                proof {
                    assert forall|i: int| 0 <= i < before.len() implies before[i].0@ != es[k as int].0 by {
                        assert(last_record(es, taken[i]));
                        assert(taken[i] < k);
                    }
                }
                out.push((self.names[k].0.as_str(), self.names[k].1));
                proof {
                    let old_taken = taken;
                    taken = taken.push(k as int);
                    assert(taken[taken.len() - 1] == k);
                    assert forall|x: int| 0 <= x < k + 1 && last_record(es, x) implies taken.contains(x) by {
                        if x < k {
                            assert(old_taken.contains(x));
                            let i = choose|i: int| 0 <= i < old_taken.len() && old_taken[i] == x;
                            assert(taken[i] == old_taken[i]);
                        } else {
                            assert(taken[taken.len() - 1] == x);
                        }
                    }
                }
            } else {
                proof {
                    assert forall|x: int| 0 <= x < k + 1 && last_record(es, x) implies taken.contains(x) by {
                    }
                }
            }
            k = k + 1;
        }
        proof {
            assert forall|i: int|
                0 <= i < out@.len() implies lookup(es, out@[i].0@) == Some(out@[i].1) by {
                lemma_lookup_last_record(es, taken[i]);
            }
            assert forall|q: int|
                0 <= q < self.model().names.len() implies #[trigger] listed(
                    out@,
                    self.model().names[q].0,
                ) by {
                let x = lemma_last_of(es, q);
                assert(taken.contains(x));
                let i = choose|i: int| 0 <= i < taken.len() && taken[i] == x;
                assert(0 <= i < out@.len() && out@[i].0@ == self.model().names[q].0);
            }
        }
        out
    }

    /// The nodes of the bus named `prefix0` .. `prefix{width-1}`, or `None`
    /// if any bit is missing, so that a typo fails instead of reading a
    /// short bus.
    pub fn bus(&self, prefix: &str, width: usize) -> (r: Option<Vec<NodeId>>)
        ensures
            r is Some <==> forall|i: int|
                0 <= i < width ==> #[trigger] lookup(
                    self.model().names,
                    prefix@ + decimal(i as nat),
                ) is Some,
            r matches Some(v) ==> v@.len() == width && forall|i: int|
                0 <= i < width ==> Some(v@[i]) == #[trigger] lookup(
                    self.model().names,
                    prefix@ + decimal(i as nat),
                ),
    {
        let mut out: Vec<NodeId> = Vec::new();
        let mut i: usize = 0;
        while i < width
            invariant
                0 <= i <= width,
                out@.len() == i,
                forall|j: int|
                    0 <= j < i ==> Some(out@[j]) == #[trigger] lookup(
                        self.model().names,
                        prefix@ + decimal(j as nat),
                    ),
            decreases width - i,
        {
            let name = indexed_name(prefix, i);
            match self.node(name.as_str()) {
                Some(v) => out.push(v),
                None => {
                    let ghost ii: int = i as int;
                    assert(lookup(self.model().names, prefix@ + decimal(ii as nat)) is None);
                    return None;
                },
            }
            i = i + 1;
        }
        Some(out)
    }

    /// The width of the bus named `prefix`: how many of `prefix0`,
    /// `prefix1`, ... resolve before the first that does not.
    pub fn bus_width(&self, prefix: &str) -> (r: usize)
        ensures
            forall|i: int|
                0 <= i < r ==> #[trigger] lookup(self.model().names, prefix@ + decimal(i as nat))
                    is Some,
            lookup(self.model().names, prefix@ + decimal(r as nat)) is None,
    {
        let ghost es = self.model().names;
        let n = self.names.len();
        let mut i: usize = 0;
        loop
            invariant
                es == self.model().names,
                es.len() == self.names@.len(),
                n == es.len(),
                i <= es.len(),
                forall|j: int|
                    0 <= j < i ==> #[trigger] lookup(es, prefix@ + decimal(j as nat)) is Some,
            decreases es.len() - i,
        {
            let name = indexed_name(prefix, i);
            if self.node(name.as_str()).is_none() {
                return i;
            }
            proof {
                let ii: int = i as int;
                assert(lookup(es, prefix@ + decimal(ii as nat)) is Some);
                lemma_bus_bound(es, prefix@, (i + 1) as nat);
            }
            i = i + 1;
        }
    }

    /// Decode a netlist blob.
    ///
    /// Layout, all integers little-endian: the magic `HALFPHI1`; `u32` node,
    /// transistor and name counts; `u32` ground and supply nodes; the exists
    /// and pullup flags, a bit per node; per transistor `u16` gate, c1, c2; per
    /// name a `u16` length, the bytes, an `i32` node.
    ///
    /// For a blob whose network fits what a netlist indexes (`decodable`):
    /// node ids below the node count, terminal lists within 32-bit offsets.
    /// See `decode_checked` for any blob.
    pub fn decode(blob: &[u8]) -> (r: Result<Netlist, DecodeError>)
        requires
            decodable(blob@),
        ensures
            match r {
                Ok(nl) => {
                    &&& spec_decode(blob@) == Ok::<NetModel, DecodeError>(nl.model())
                    &&& nl.wf()
                    &&& nl.holds() == Seq::new(nl.model().node_count, |i: int| false)
                    &&& nl.areas().len() == 0
                    &&& nl.rule() == ChargeRule::AnyHigh
                },
                Err(e) => spec_decode(blob@) == Err::<NetModel, DecodeError>(e),
            },
    {
        match Self::decode_checked(blob) {
            Ok(Some(nl)) => Ok(nl),
            Ok(None) => {
                proof {
                    assert(!decodable(blob@));
                }
                Err(DecodeError::Truncated)
            },
            Err(e) => Err(e),
        }
    }

    /// `decode` for any blob: `Ok(None)` where the blob reads whole but
    /// describes a network a netlist cannot index (a transistor on a node
    /// past the node count, a node count at the top of `usize`, more
    /// terminals than 32-bit offsets reach).
    pub fn decode_checked(blob: &[u8]) -> (r: Result<Option<Netlist>, DecodeError>)
        ensures
            match r {
                Ok(Some(nl)) => {
                    &&& decodable(blob@)
                    &&& spec_decode(blob@) == Ok::<NetModel, DecodeError>(nl.model())
                    &&& nl.wf()
                    &&& nl.holds() == Seq::new(nl.model().node_count, |i: int| false)
                    &&& nl.areas().len() == 0
                    &&& nl.rule() == ChargeRule::AnyHigh
                },
                Ok(None) => spec_decode(blob@) is Ok && !decodable(blob@),
                Err(e) => spec_decode(blob@) == Err::<NetModel, DecodeError>(e),
            },
    {
        let ghost b = blob@;
        let mut r = Reader { b: blob, i: 0 };
        let m = r.take(8)?;
        if !(m[0] == 72 && m[1] == 65 && m[2] == 76 && m[3] == 70 && m[4] == 80 && m[5] == 72
            && m[6] == 73 && m[7] == 49) {
            proof {
                assert(b.take(8) != magic()) by {
                    if b.take(8) == magic() {
                        assert(m@ == b.take(8));
                    }
                }
            }
            return Err(DecodeError::BadMagic);
        }
        assert(b.take(8) =~= magic());
        let node_count = r.u32()? as usize;
        let trans_count = r.u32()? as usize;
        let name_count = r.u32()? as usize;
        let vss = #[verifier::truncate] (r.u32()? as NodeId);
        let vcc = #[verifier::truncate] (r.u32()? as NodeId);
        assert(r.i == 28);

        let exists = r.bits(node_count)?;
        let pullup = r.bits(node_count)?;

        let ghost p0 = trans_at(b);
        let mut trans_gate: Vec<NodeId> = Vec::new();
        let mut trans_c1: Vec<NodeId> = Vec::new();
        let mut trans_c2: Vec<NodeId> = Vec::new();
        let mut t: usize = 0;
        while t < trans_count
            invariant
                0 <= t <= trans_count,
                r.b@ == b,
                r.i <= b.len(),
                r.i == p0 + 6 * t,
                p0 == trans_at(b),
                trans_count == le32(b, 12),
                b == blob@,
                b.len() >= 28,
                b.take(8) == magic(),
                trans_gate@ =~= Seq::new(t as nat, |i: int| le16(b, p0 + 6 * i)),
                trans_c1@ =~= Seq::new(t as nat, |i: int| le16(b, p0 + 6 * i + 2)),
                trans_c2@ =~= Seq::new(t as nat, |i: int| le16(b, p0 + 6 * i + 4)),
            decreases trans_count - t,
        {
            let g = match r.u16() {
                Ok(x) => x,
                Err(e) => {
                    assert(b.len() < p0 + 6 * trans_count);
                    assert(e == DecodeError::Truncated);
                    assert(spec_decode(b) == Err::<NetModel, DecodeError>(DecodeError::Truncated));
                    assert(e == DecodeError::Truncated);
                    return Err(e);
                },
            };
            let a = match r.u16() {
                Ok(x) => x,
                Err(e) => {
                    assert(b.len() < p0 + 6 * trans_count);
                    assert(spec_decode(b) == Err::<NetModel, DecodeError>(DecodeError::Truncated));
                    assert(e == DecodeError::Truncated);
                    return Err(e);
                },
            };
            let c = match r.u16() {
                Ok(x) => x,
                Err(e) => {
                    assert(b.len() < p0 + 6 * trans_count);
                    assert(spec_decode(b) == Err::<NetModel, DecodeError>(DecodeError::Truncated));
                    assert(e == DecodeError::Truncated);
                    return Err(e);
                },
            };
            trans_gate.push(g);
            trans_c1.push(a);
            trans_c2.push(c);
            t = t + 1;
        }

        let ghost p1 = p0 + 6 * trans_count;
        let mut names: Vec<(String, NodeId)> = Vec::new();
        let mut node_names: Vec<Option<String>> = Vec::new();
        let mut v: usize = 0;
        while v < node_count
            invariant
                0 <= v <= node_count,
                node_names@.len() == v,
                forall|u: int| 0 <= u < v ==> node_names@[u] is None,
            decreases node_count - v,
        {
            node_names.push(None);
            v = v + 1;
        }
        let ghost mut rs: Seq<(Seq<u8>, i32)> = Seq::empty();
        let mut j: usize = 0;
        while j < name_count
            invariant
                0 <= j <= name_count,
                name_count == le32(b, 16),
                b == blob@,
                node_count == le32(b, 8),
                trans_count == le32(b, 12),
                b.len() >= 28,
                b.take(8) == magic(),
                p0 == trans_at(b),
                p1 == p0 + 6 * trans_count,
                b.len() >= p1,
                r.b@ == b,
                r.i <= b.len(),
                name_records(b, p1, j as nat) == Some((rs, r.i as int)),
                names@.map_values(|e: (String, NodeId)| name_view(e)) == kept_names(
                    rs,
                    node_count as nat,
                ),
                node_names@.len() == node_count,
                forall|u: int|
                    0 <= u < node_count ==> opt_view(#[trigger] node_names@[u]) == first_name(
                        kept_names(rs, node_count as nat),
                        u,
                    ),
                forall|u: int| 0 <= u < names@.len() ==> (names@[u].1 as int) < node_count,
            decreases name_count - j,
        {
            let ghost before = r.i;
            let len = match r.u16() {
                Ok(x) => x,
                Err(e) => {
                    proof {
                        assert(name_records(b, p1, (j + 1) as nat) is None);
                        lemma_records_none(b, p1, (j + 1) as nat, name_count as nat);
                        assert(spec_decode(b) == Err::<NetModel, DecodeError>(DecodeError::Truncated));
                        assert(e == DecodeError::Truncated);
                    }
                    return Err(e);
                },
            } as usize;
            assert(len == le16(b, before as int));
            assert(r.i == before + 2);
            let bytes = match r.take(len) {
                Ok(x) => x,
                Err(e) => {
                    proof {
                        assert(name_records(b, p1, (j + 1) as nat) is None);
                        lemma_records_none(b, p1, (j + 1) as nat, name_count as nat);
                        assert(spec_decode(b) == Err::<NetModel, DecodeError>(DecodeError::Truncated));
                        assert(e == DecodeError::Truncated);
                    }
                    return Err(e);
                },
            };
            let node = match r.i32() {
                Ok(x) => x,
                Err(e) => {
                    proof {
                        assert(name_records(b, p1, (j + 1) as nat) is None);
                        lemma_records_none(b, p1, (j + 1) as nat, name_count as nat);
                        assert(spec_decode(b) == Err::<NetModel, DecodeError>(DecodeError::Truncated));
                        assert(e == DecodeError::Truncated);
                    }
                    return Err(e);
                },
            };
            let name = string_from_utf8_lossy(bytes);
            let ghost rec = (bytes@, node);
            let ghost old_names = names@;
            proof {
                assert(name_records(b, p1, (j + 1) as nat) == Some((rs.push(rec), r.i as int)));
                assert(rs.push(rec).drop_last() =~= rs);
            }
            if !(node < 0 || node as usize >= node_count) {
                let nid = #[verifier::truncate] (node as NodeId);
                if node_names[nid as usize].is_none() {
                    node_names.set(nid as usize, Some(name.clone()));
                }
                names.push((name, nid));
                proof {
                    assert(names@.map_values(|e: (String, NodeId)| name_view(e)) =~= old_names.map_values(
                        |e: (String, NodeId)| name_view(e),
                    ).push((utf8_lossy(rec.0), nid)));
                }
            }
            proof {
                rs = rs.push(rec);
                let kn = kept_names(rs, node_count as nat);
                assert forall|u: int|
                    0 <= u < node_count implies opt_view(#[trigger] node_names@[u]) == first_name(
                    kn,
                    u,
                ) by {
                    if 0 <= node < node_count {
                        assert(kn.drop_last() == kept_names(rs.drop_last(), node_count as nat));
                    }
                }
            }
            j = j + 1;
        }

        let ghost model = NetModel {
            node_count: node_count as nat,
            vss,
            vcc,
            exists: exists@,
            pullup: pullup@,
            gate: trans_gate@,
            c1: trans_c1@,
            c2: trans_c2@,
            names: names@.map_values(|e: (String, NodeId)| name_view(e)),
        };
        proof {
            assert(spec_decode(b) == Ok::<NetModel, DecodeError>(model));
        }
        if node_count == usize::MAX {
            return Ok(None);
        }
        let mut t: usize = 0;
        while t < trans_count
            invariant
                0 <= t <= trans_count,
                trans_count == model.gate.len(),
                trans_gate@ == model.gate,
                trans_c1@ == model.c1,
                trans_c2@ == model.c2,
                model.c1.len() == model.gate.len(),
                model.c2.len() == model.gate.len(),
                vss == model.vss,
                vcc == model.vcc,
                node_count == model.node_count,
                spec_decode(b) == Ok::<NetModel, DecodeError>(model),
                b == blob@,
                forall|u: int|
                    0 <= u < t ==> {
                        &&& (model.gate[u] as int) < model.node_count
                        &&& !model.is_rail(model.c1[u] as int) ==> (model.c1[u] as int) < model.node_count
                        &&& !model.is_rail(model.c2[u] as int) ==> (model.c2[u] as int) < model.node_count
                    },
            decreases trans_count - t,
        {
            let (g, a, c) = (trans_gate[t], trans_c1[t], trans_c2[t]);
            if (g as usize) >= node_count || (a != vss && a != vcc && (a as usize) >= node_count) || (c
                != vss && c != vcc && (c as usize) >= node_count) {
                return Ok(None);
            }
            t = t + 1;
        }
        proof {
            lemma_term_keys(model, trans_count as nat);
        }

        // Adjacency: per node, the transistors it switches, then its terminals.
        let mut gate_vals: Vec<TransId> = Vec::new();
        let mut t: usize = 0;
        while t < trans_count
            invariant
                0 <= t <= trans_count,
                gate_vals@ =~= Seq::new(t as nat, |i: int| tid(i)),
            decreases trans_count - t,
        {
            proof {
                lemma_tid(t);
            }
            gate_vals.push(#[verifier::truncate] (t as TransId));
            t = t + 1;
        }
        let (gate_offsets, gate_index) = csr_build(&trans_gate, &gate_vals, node_count, 0);

        let mut term_keys: Vec<NodeId> = Vec::new();
        let mut term_vals: Vec<Terminal> = Vec::new();
        let mut t: usize = 0;
        while t < trans_count
            invariant
                0 <= t <= trans_count,
                trans_count == model.gate.len(),
                trans_c1@ == model.c1,
                trans_c2@ == model.c2,
                vss == model.vss,
                vcc == model.vcc,
                model.ends_in_range(),
                (term_keys@, term_vals@) == term_pairs(model, t as nat),
            decreases trans_count - t,
        {
            let (a, c) = (trans_c1[t], trans_c2[t]);
            proof {
                lemma_tid(t);
            }
            if a != vss && a != vcc {
                term_keys.push(a);
                term_vals.push(Terminal { transistor: #[verifier::truncate] (t as TransId), other: c });
            }
            if c != vss && c != vcc {
                term_keys.push(c);
                term_vals.push(Terminal { transistor: #[verifier::truncate] (t as TransId), other: a });
            }
            t = t + 1;
            proof {
                assert((term_keys@, term_vals@) == term_pairs(model, t as nat));
            }
        }
        if term_keys.len() > 4294967295 {
            return Ok(None);
        }
        let (term_offsets, term_index) = csr_build(
            &term_keys,
            &term_vals,
            node_count,
            Terminal { transistor: 0, other: 0 },
        );
        let rail_conflict_holds = BitSet::new(node_count);
        let nl = Netlist {
            node_count,
            vss,
            vcc,
            exists,
            pullup,
            trans_gate,
            trans_c1,
            trans_c2,
            gate_offsets,
            gate_index,
            term_offsets,
            term_index,
            names,
            node_names,
            rail_conflict_holds,
            node_areas: Vec::new(),
            charge_rule: ChargeRule::AnyHigh,
        };
        proof {
            assert(nl.model() == model);
        }
        Ok(Some(nl))
    }
}

/// Whether `name` is among the names of the list.
pub open spec fn listed(r: Seq<(&str, NodeId)>, name: Seq<char>) -> bool {
    exists|i: int| 0 <= i < r.len() && r[i].0@ == name
}

/// Whether record `k` is the last one with its name.
pub open spec fn last_record(names: Seq<(Seq<char>, u16)>, k: int) -> bool {
    forall|y: int| k < y < names.len() ==> names[y].0 != names[k].0
}

proof fn lemma_lookup_last_record(names: Seq<(Seq<char>, u16)>, k: int)
    requires
        0 <= k < names.len(),
        last_record(names, k),
    ensures
        lookup(names, names[k].0) == Some(names[k].1),
    decreases names.len(),
{
    if k < names.len() - 1 {
        let d = names.drop_last();
        assert(names.last().0 != names[k].0);
        assert(d[k] == names[k]);
        lemma_lookup_last_record(d, k);
    }
}

/// The last record that has record `k`'s name.
proof fn lemma_last_of(names: Seq<(Seq<char>, u16)>, k: int) -> (x: int)
    requires
        0 <= k < names.len(),
    ensures
        k <= x < names.len(),
        last_record(names, x),
        names[x].0 == names[k].0,
    decreases names.len() - k,
{
    if last_record(names, k) {
        k
    } else {
        let y = choose|y: int| k < y < names.len() && names[y].0 == names[k].0;
        lemma_last_of(names, y)
    }
}

proof fn lemma_lookup_some(names: Seq<(Seq<char>, u16)>, key: Seq<char>)
    requires
        lookup(names, key) is Some,
    ensures
        exists|j: int| 0 <= j < names.len() && names[j].0 == key,
    decreases names.len(),
{
    if names.last().0 != key {
        lemma_lookup_some(names.drop_last(), key);
        let j = choose|j: int| 0 <= j < names.len() - 1 && names.drop_last()[j].0 == key;
        assert(names[j] == names.drop_last()[j]);
    }
}

proof fn lemma_decimal_len(n: nat)
    ensures
        decimal(n).len() >= 1,
        n >= 10 ==> decimal(n).len() >= 2,
    decreases n,
{
    if n >= 10 {
        lemma_decimal_len(n / 10);
    }
}

proof fn lemma_digit_char(a: nat, b: nat)
    requires
        a < 10,
        b < 10,
        crate::text::digit_char(a) == crate::text::digit_char(b),
    ensures
        a == b,
{
}

/// Different numbers have different decimal forms.
pub proof fn lemma_decimal_injective(a: nat, b: nat)
    requires
        decimal(a) == decimal(b),
    ensures
        a == b,
    decreases a,
{
    lemma_decimal_len(a / 10);
    lemma_decimal_len(b / 10);
    if a < 10 && b < 10 {
        let da = crate::text::digit_char(a);
        let db = crate::text::digit_char(b);
        assert(decimal(a) == seq![da]);
        assert(decimal(b) == seq![db]);
        assert(seq![da][0] == da);
        assert(seq![db][0] == db);
        assert(da == db);
        lemma_digit_char(a, b);
    } else if a < 10 {
        lemma_decimal_len(b);
    } else if b < 10 {
        lemma_decimal_len(a);
    } else {
        assert(decimal(a) == decimal(a / 10).push(crate::text::digit_char(a % 10)));
        assert(decimal(b) == decimal(b / 10).push(crate::text::digit_char(b % 10)));
        let da = crate::text::digit_char(a % 10);
        let db = crate::text::digit_char(b % 10);
        assert(decimal(a).last() == da);
        assert(decimal(b).last() == db);
        lemma_digit_char(a % 10, b % 10);
        assert(decimal(a).drop_last() =~= decimal(a / 10));
        assert(decimal(b).drop_last() =~= decimal(b / 10));
        lemma_decimal_injective(a / 10, b / 10);
    }
}

/// At most as many bus bits resolve as there are name records.
proof fn lemma_bus_bound(names: Seq<(Seq<char>, u16)>, prefix: Seq<char>, m: nat)
    requires
        forall|j: int| 0 <= j < m ==> #[trigger] lookup(names, prefix + decimal(j as nat)) is Some,
    ensures
        m <= names.len(),
{
    let f = |j: int|
        choose|x: int| 0 <= x < names.len() && names[x].0 == prefix + decimal(j as nat);
    let dom = vstd::set_lib::set_int_range(0, m as int);
    let img = dom.map(f);
    vstd::set_lib::lemma_int_range(0, m as int);
    vstd::set_lib::lemma_int_range(0, names.len() as int);
    assert forall|j: int| dom.contains(j) implies 0 <= #[trigger] f(j) < names.len() && names[f(
        j,
    )].0 == prefix + decimal(j as nat) by {
        assert(lookup(names, prefix + decimal(j as nat)) is Some);
        lemma_lookup_some(names, prefix + decimal(j as nat));
    }
    assert forall|a: int, b: int| dom.contains(a) && dom.contains(b) && #[trigger] f(a) == #[trigger] f(
        b,
    ) implies a == b by {
        assert(prefix + decimal(a as nat) == prefix + decimal(b as nat));
        assert((prefix + decimal(a as nat)).skip(prefix.len() as int) =~= decimal(a as nat));
        assert((prefix + decimal(b as nat)).skip(prefix.len() as int) =~= decimal(b as nat));
        lemma_decimal_injective(a as nat, b as nat);
    }
    assert(vstd::relations::injective_on(f, dom));
    vstd::set_lib::lemma_map_size(dom, img, f);
    assert(img.subset_of(vstd::set_lib::set_int_range(0, names.len() as int)));
    vstd::set_lib::lemma_len_subset(img, vstd::set_lib::set_int_range(0, names.len() as int));
}

/// A name only ever refers to a node in range.
proof fn lemma_first_name_range(
    names: Seq<(Seq<char>, u16)>,
    n: int,
    count: int,
    raw: &Seq<(String, NodeId)>,
)
    requires
        names == raw.map_values(|e: (String, NodeId)| name_view(e)),
        forall|u: int| 0 <= u < raw.len() ==> (raw[u].1 as int) < count,
        n >= count,
    ensures
        first_name(names, n) is None,
    decreases names.len(),
{
    if names.len() > 0 {
        let r2 = raw.drop_last();
        assert(names.drop_last() =~= r2.map_values(|e: (String, NodeId)| name_view(e)));
        lemma_first_name_range(names.drop_last(), n, count, &r2);
    }
}

/// A terminal names a real transistor, and its far end is a node or a rail.
pub open spec fn terminal_ok(m: NetModel, term: Terminal) -> bool {
    &&& (term.transistor as int) < m.trans_count()
    &&& (m.is_rail(term.other as int) || (term.other as int) < m.node_count)
}

/// The transistor number a terminal records: `t` truncated to 16 bits.
pub open spec fn tid(t: int) -> u16 {
    (t % 65536) as u16
}

proof fn lemma_tid(t: usize)
    by (bit_vector)
    ensures
        (t as u16) == ((t % 65536) as u16),
{
}

proof fn lemma_pairs_ok(m: NetModel, t: nat)
    requires
        m.ends_in_range(),
        t <= m.trans_count(),
        m.trans_count() <= u32::MAX,
    ensures
        forall|j: int|
            0 <= j < term_pairs(m, t).1.len() ==> terminal_ok(m, #[trigger] term_pairs(m, t).1[j]),
    decreases t,
{
    if t > 0 {
        lemma_pairs_ok(m, (t - 1) as nat);
        let prev = term_pairs(m, (t - 1) as nat).1;
        let cur = term_pairs(m, t).1;
        assert forall|j: int| 0 <= j < cur.len() implies terminal_ok(m, #[trigger] cur[j]) by {
            if j < prev.len() {
                assert(cur[j] == prev[j]);
            }
        }
    }
}

pub proof fn lemma_select_from<V>(keys: Seq<u16>, vals: Seq<V>, k: int, j: int)
    requires
        0 <= j < select(keys, vals, k).len(),
    ensures
        exists|w: int| 0 <= w < vals.len() && vals[w] == #[trigger] select(keys, vals, k)[j],
    decreases keys.len(),
{
    if keys.len() > 0 && vals.len() > 0 {
        let prev = select(keys.drop_last(), vals.drop_last(), k);
        if j < prev.len() {
            lemma_select_from(keys.drop_last(), vals.drop_last(), k, j);
            let w = choose|w: int| 0 <= w < vals.drop_last().len() && vals.drop_last()[w] == prev[j];
            assert(vals[w] == select(keys, vals, k)[j]);
        } else {
            assert(vals[vals.len() - 1] == select(keys, vals, k)[j]);
        }
    }
}

/// Every terminal of a node names a real transistor, and its far end is a
/// node or a rail.
pub proof fn lemma_terminal_in_range(nl: Netlist, x: int, k: int)
    requires
        nl.wf(),
        0 <= x < nl.model().node_count,
        0 <= k < spec_terminals_of(nl.model(), x).len(),
    ensures
        terminal_ok(nl.model(), spec_terminals_of(nl.model(), x)[k]),
{
    let m = nl.model();
    let ps = term_pairs(m, m.trans_count());
    lemma_pairs_ok(m, m.trans_count());
    lemma_select_from(ps.0, ps.1, x, k);
    let w = choose|w: int| 0 <= w < ps.1.len() && ps.1[w] == select(ps.0, ps.1, x)[k];
    assert(terminal_ok(m, ps.1[w]));
}

/// Every transistor a node gates is a real transistor.
pub proof fn lemma_gate_in_range(nl: Netlist, x: int, k: int)
    requires
        nl.wf(),
        0 <= x < nl.model().node_count,
        0 <= k < spec_gates_of(nl.model(), x).len(),
    ensures
        (spec_gates_of(nl.model(), x)[k] as int) < nl.model().trans_count(),
{
    let m = nl.model();
    let vs = Seq::new(m.gate.len(), |t: int| tid(t));
    lemma_select_from(m.gate, vs, x, k);
    let w = choose|w: int| 0 <= w < vs.len() && vs[w] == select(m.gate, vs, x)[k];
    assert(vs[w] == tid(w));
}

/// A value among the selected ones: every value whose key is `k` is there.
pub proof fn lemma_select_has<V>(keys: Seq<u16>, vals: Seq<V>, k: int, w: int)
    requires
        keys.len() == vals.len(),
        0 <= w < keys.len(),
        keys[w] as int == k,
    ensures
        select(keys, vals, k).contains(vals[w]),
    decreases keys.len(),
{
    let prev = select(keys.drop_last(), vals.drop_last(), k);
    if w == keys.len() - 1 {
        assert(select(keys, vals, k).last() == vals[w]);
    } else {
        lemma_select_has(keys.drop_last(), vals.drop_last(), k, w);
        let j = choose|j: int| 0 <= j < prev.len() && prev[j] == vals.drop_last()[w];
        assert(select(keys, vals, k)[j] == prev[j]);
    }
}

/// Transistor `t`'s two ends are among the terminal pairs of the first `n`
/// transistors, each non-rail end keyed to the other end.
proof fn lemma_pairs_have(m: NetModel, n: nat, t: int)
    requires
        m.ends_in_range(),
        0 <= t < n <= m.trans_count(),
    ensures
        term_pairs(m, n).0.len() == term_pairs(m, n).1.len(),
        !m.is_rail(m.c1[t] as int) ==> exists|w: int|
            0 <= w < term_pairs(m, n).0.len() && term_pairs(m, n).0[w] == m.c1[t]
                && term_pairs(m, n).1[w] == (Terminal { transistor: tid(t), other: m.c2[t] }),
        !m.is_rail(m.c2[t] as int) ==> exists|w: int|
            0 <= w < term_pairs(m, n).0.len() && term_pairs(m, n).0[w] == m.c2[t]
                && term_pairs(m, n).1[w] == (Terminal { transistor: tid(t), other: m.c1[t] }),
    decreases n,
{
    lemma_term_keys(m, n);
    let (ks, vs) = term_pairs(m, (n - 1) as nat);
    lemma_term_keys(m, (n - 1) as nat);
    let (k2, v2) = term_pairs(m, n);
    assert(k2.len() >= ks.len());
    assert(forall|w: int| 0 <= w < ks.len() ==> k2[w] == ks[w] && v2[w] == vs[w]);
    if t < n - 1 {
        lemma_pairs_have(m, (n - 1) as nat, t);
        if !m.is_rail(m.c1[t] as int) {
            let w = choose|w: int|
                0 <= w < ks.len() && ks[w] == m.c1[t] && vs[w] == (Terminal {
                    transistor: tid(t),
                    other: m.c2[t],
                });
            assert(k2[w] == m.c1[t] && v2[w] == vs[w]);
        }
        if !m.is_rail(m.c2[t] as int) {
            let w = choose|w: int|
                0 <= w < ks.len() && ks[w] == m.c2[t] && vs[w] == (Terminal {
                    transistor: tid(t),
                    other: m.c1[t],
                });
            assert(k2[w] == m.c2[t] && v2[w] == vs[w]);
        }
    } else {
        if !m.is_rail(m.c1[t] as int) {
            assert(k2[ks.len() as int] == m.c1[t]);
        }
        if !m.is_rail(m.c2[t] as int) {
            assert(k2[k2.len() - 1] == m.c2[t]);
        }
    }
}

/// A transistor is an edge from both of its ends: for every transistor `t`
/// and each end of it that is not a rail, the terminals of that end include
/// one for `t` (by its `TransId`) leading to `t`'s other end.
pub proof fn law_terminals_symmetric(nl: Netlist, t: int)
    requires
        nl.wf(),
        0 <= t < nl.model().trans_count(),
    ensures
        !nl.model().is_rail(nl.model().c1[t] as int) ==> spec_terminals_of(nl.model(), nl.model().c1[t] as int).contains(
            Terminal { transistor: tid(t), other: nl.model().c2[t] },
        ),
        !nl.model().is_rail(nl.model().c2[t] as int) ==> spec_terminals_of(nl.model(), nl.model().c2[t] as int).contains(
            Terminal { transistor: tid(t), other: nl.model().c1[t] },
        ),
{
    let m = nl.model();
    nl.lemma_wf();
    let n = m.trans_count();
    lemma_pairs_have(m, n, t);
    let (ks, vs) = term_pairs(m, n);
    if !m.is_rail(m.c1[t] as int) {
        let w = choose|w: int|
            0 <= w < ks.len() && ks[w] == m.c1[t] && vs[w] == (Terminal { transistor: tid(t), other: m.c2[t] });
        lemma_select_has(ks, vs, m.c1[t] as int, w);
    }
    if !m.is_rail(m.c2[t] as int) {
        let w = choose|w: int|
            0 <= w < ks.len() && ks[w] == m.c2[t] && vs[w] == (Terminal { transistor: tid(t), other: m.c1[t] });
        lemma_select_has(ks, vs, m.c2[t] as int, w);
    }
}

/// Each selected value is a value whose key is `k`.
pub proof fn lemma_select_keyed<V>(keys: Seq<u16>, vals: Seq<V>, k: int, j: int)
    requires
        keys.len() == vals.len(),
        0 <= j < select(keys, vals, k).len(),
    ensures
        exists|w: int| 0 <= w < vals.len() && keys[w] as int == k && vals[w] == #[trigger] select(keys, vals, k)[j],
    decreases keys.len(),
{
    let prev = select(keys.drop_last(), vals.drop_last(), k);
    if j < prev.len() {
        lemma_select_keyed(keys.drop_last(), vals.drop_last(), k, j);
        let w = choose|w: int|
            0 <= w < vals.drop_last().len() && keys.drop_last()[w] as int == k && vals.drop_last()[w] == prev[j];
        assert(vals[w] == select(keys, vals, k)[j]);
    } else {
        assert(vals[vals.len() - 1] == select(keys, vals, k)[j]);
    }
}

/// Whether terminal `v` keyed by `x` is an end of transistor `t`: `x` is one
/// end and not a rail, and `v` leads through `t` to the other end.
pub open spec fn terminal_of(m: NetModel, x: int, v: Terminal, t: int) -> bool {
    &&& v.transistor == tid(t)
    &&& !m.is_rail(x)
    &&& ((m.c1[t] as int == x && v.other == m.c2[t]) || (m.c2[t] as int == x && v.other == m.c1[t]))
}

proof fn lemma_pairs_from(m: NetModel, n: nat, w: int)
    requires
        m.ends_in_range(),
        n <= m.trans_count(),
        0 <= w < term_pairs(m, n).0.len(),
    ensures
        exists|t: int| 0 <= t < n && terminal_of(m, term_pairs(m, n).0[w] as int, term_pairs(m, n).1[w], t),
    decreases n,
{
    lemma_term_keys(m, n);
    let (ks, vs) = term_pairs(m, (n - 1) as nat);
    lemma_term_keys(m, (n - 1) as nat);
    let (k2, v2) = term_pairs(m, n);
    if w < ks.len() {
        assert(k2[w] == ks[w] && v2[w] == vs[w]);
        lemma_pairs_from(m, (n - 1) as nat, w);
        let t = choose|t: int| 0 <= t < n - 1 && terminal_of(m, ks[w] as int, vs[w], t);
        assert(terminal_of(m, k2[w] as int, v2[w], t));
    } else {
        assert(terminal_of(m, k2[w] as int, v2[w], n - 1));
    }
}

/// Every terminal of a node is an end of a transistor: the node is one end
/// of it and not a rail, and the terminal leads through it to the other end.
pub proof fn law_terminals_are_ends(nl: Netlist, x: int, j: int)
    requires
        nl.wf(),
        0 <= j < spec_terminals_of(nl.model(), x).len(),
    ensures
        exists|t: int|
            0 <= t < nl.model().trans_count() && terminal_of(
                nl.model(),
                x,
                #[trigger] spec_terminals_of(nl.model(), x)[j],
                t,
            ),
{
    let m = nl.model();
    nl.lemma_wf();
    let n = m.trans_count();
    lemma_term_keys(m, n);
    let (ks, vs) = term_pairs(m, n);
    lemma_select_keyed(ks, vs, x, j);
    let w = choose|w: int| 0 <= w < vs.len() && ks[w] as int == x && vs[w] == select(ks, vs, x)[j];
    lemma_pairs_from(m, n, w);
}

impl Netlist {
    /// What a well-formed netlist guarantees about its sizes, holds, areas
    /// and charge rule.
    pub proof fn lemma_wf(&self)
        requires
            self.wf(),
        ensures
            self.model().ends_in_range(),
            self.model().node_count < usize::MAX,
            self.model().node_count <= u32::MAX,
            self.model().trans_count() <= u32::MAX,
            self.model().exists.len() == self.model().node_count,
            self.model().pullup.len() == self.model().node_count,
            self.holds().len() == self.model().node_count,
            forall|v: int|
                0 <= v < self.model().node_count && #[trigger] self.holds()[v] ==> !self.model().is_rail(v),
            self.areas().len() == 0 || self.areas().len() == self.model().node_count,
            (exists|v: int| 0 <= v < self.model().node_count && #[trigger] self.holds()[v])
                ==> self.areas().len() == self.model().node_count,
            self.rule() == ChargeRule::AreaVote ==> self.areas().len() == self.model().node_count,
            forall|u: int|
                0 <= u < self.model().names.len() ==> (#[trigger] self.model().names[u].1 as int)
                    < self.model().node_count,
    {
    }
}

proof fn lemma_bit8(byte: u8, k: u8)
    by (bit_vector)
    requires
        k < 8,
    ensures
        ((byte >> k) & 1u8 != 0u8) == ((byte >> k) & 1u8 == 1u8),
{
}

} // verus!

//! One chip's three source files in, one netlist blob (and its geometry) out.
//!
//! The node numbers, the polygons and the transistors come from the
//! literals that `source::parse_decl` reads; this module checks them, fixes
//! the node count, normalises each transistor's ends and encodes the blob
//! that `Netlist::decode` reads back.

use vstd::prelude::*;
use vstd::string::*;
use crate::netlist::{bytes_for, magic};
use crate::bitset::count_true;
use crate::source::{
    SVal, Val, Reading, decl_value, parse_decl_checked, sv_list, sv_pairs, lemma_sv_list_len,
    lemma_sv_list_index, lemma_sv_pairs_len, lemma_sv_pairs_index,
};
use crate::text::{
    str_eq, append_decimal, str_shown, is_printable, push_str_shown, append_i64, signed_decimal,
};

verus! {

// ---------------------------------------------------------------------------
// Inputs and outputs
// ---------------------------------------------------------------------------

/// Which node names are the power rails, in the order (ground, supply).
///
/// A parameter rather than a constant: most chips call their rails `vss`
/// and `vcc`, but some call ground `gnd`.
#[derive(Debug, Clone, Copy)]
pub struct Rails<'a> {
    pub ground: &'a str,
    pub supply: &'a str,
}

impl<'a> Default for Rails<'a> {
    /// `vss` and `vcc`.
    fn default() -> (r: Self)
        ensures
            r.ground@ == seq!['v', 's', 's'],
            r.supply@ == seq!['v', 'c', 'c'],
    {
        proof {
            reveal_strlit("vss");
            reveal_strlit("vcc");
        }
        Rails { ground: "vss", supply: "vcc" }
    }
}

/// The three source files, as text.
pub struct ChipSource<'a> {
    pub segdefs: &'a str,
    pub transdefs: &'a str,
    pub nodenames: &'a str,
    pub rails: Rails<'a>,
}

/// One polygon on the die: the node that owns it and its mask layer.
#[derive(Debug)]
pub struct Polygon {
    pub layer: u8,
    pub node: u16,
    pub pts: Vec<(u16, u16)>,
}

/// A polygon as values.
pub struct PolyModel {
    pub layer: u8,
    pub node: u16,
    pub pts: Seq<(u16, u16)>,
}

impl Polygon {
    pub open spec fn model(self) -> PolyModel {
        PolyModel { layer: self.layer, node: self.node, pts: self.pts@ }
    }
}

impl Clone for Polygon {
    fn clone(&self) -> (r: Self)
        ensures
            r.model() == self.model(),
    {
        let mut pts: Vec<(u16, u16)> = Vec::new();
        let mut i: usize = 0;
        while i < self.pts.len()
            invariant
                0 <= i <= self.pts@.len(),
                pts@ =~= self.pts@.take(i as int),
            decreases self.pts@.len() - i,
        {
            pts.push(self.pts[i]);
            i = i + 1;
        }
        assert(self.pts@.take(self.pts@.len() as int) =~= self.pts@);
        Polygon { layer: self.layer, node: self.node, pts }
    }
}

/// What a parse yields: the encoded netlist, plus the geometry and the
/// counts a caller may want to check or draw.
pub struct Parsed {
    /// The netlist, ready for `Netlist::decode`.
    pub blob: Vec<u8>,
    pub polygons: Vec<Polygon>,
    /// Gate bounding boxes `[xmin, xmax, ymin, ymax]`, one per transistor.
    pub gate_boxes: Vec<[u16; 4]>,
    pub node_count: usize,
    pub transistor_count: usize,
    pub name_count: usize,
    /// Transistors whose gate is tied to the supply rail: always on in
    /// silicon, always off here, because a group never crosses a rail.
    pub gated_by_supply: usize,
}

/// A parse result as values.
pub struct ParsedModel {
    pub blob: Seq<u8>,
    pub polygons: Seq<PolyModel>,
    pub gate_boxes: Seq<Seq<u16>>,
    pub node_count: int,
    pub transistor_count: int,
    pub name_count: int,
    pub gated_by_supply: int,
}

/// Per polygon, whether it lies on `layer`.
pub open spec fn layer_flags(ps: Seq<Polygon>, layer: int) -> Seq<bool> {
    ps.map_values(|p: Polygon| p.layer as int == layer)
}

/// How many of the polygons lie on `layer`.
pub open spec fn on_layer(ps: Seq<Polygon>, layer: int) -> nat {
    count_true(layer_flags(ps, layer))
}

impl Parsed {
    /// How many polygons lie on each layer: entry `l` for layer `l`, one
    /// entry for every `u8`.
    pub fn layer_counts(&self) -> (r: Vec<usize>)
        ensures
            r@.len() == 256,
            forall|l: int| 0 <= l < 256 ==> r@[l] == on_layer(self.polygons@, l),
    {
        let ghost ps = self.polygons@;
        let mut counts: Vec<usize> = Vec::new();
        let mut l: usize = 0;
        while l < 256
            invariant
                0 <= l <= 256,
                counts@.len() == l,
                forall|k: int| 0 <= k < l ==> counts@[k] == 0,
            decreases 256 - l,
        {
            counts.push(0);
            l = l + 1;
        }
        let n = self.polygons.len();
        let mut i: usize = 0;
        while i < n
            invariant
                0 <= i <= n,
                n == ps.len(),
                ps == self.polygons@,
                counts@.len() == 256,
                forall|k: int| 0 <= k < 256 ==> #[trigger] counts@[k] == count_true(layer_flags(ps.take(i as int), k)),
                forall|k: int| 0 <= k < 256 ==> #[trigger] counts@[k] <= i,
            decreases n - i,
        {
            let layer = self.polygons[i].layer as usize;
            proof {
                assert forall|k: int| 0 <= k < 256 implies #[trigger] layer_flags(ps.take(i + 1), k).drop_last()
                    =~= layer_flags(ps.take(i as int), k) && layer_flags(ps.take(i + 1), k).last() == (
                layer as int == k) by {}
            }
            let c = counts[layer];
            counts.set(layer, c + 1);
            i = i + 1;
        }
        proof {
            assert(ps.take(n as int) =~= ps);
        }
        assert forall|l: int| 0 <= l < 256 implies counts@[l] == on_layer(self.polygons@, l) by {}
        counts
    }

    pub open spec fn model(self) -> ParsedModel {
        ParsedModel {
            blob: self.blob@,
            polygons: poly_models(self.polygons@),
            gate_boxes: box_views(self.gate_boxes@),
            node_count: self.node_count as int,
            transistor_count: self.transistor_count as int,
            name_count: self.name_count as int,
            gated_by_supply: self.gated_by_supply as int,
        }
    }
}

/// How a parse ends: with a result, with an error (and its text, where
/// the text is stated), or (on an input the reader cannot survive) not at
/// all.
pub enum Outcome<T> {
    Done(T),
    Fail(Option<Seq<char>>),
    Crash,
}

/// The text of an error: stated, or not.
pub open spec fn err_text(r: Result<Parsed, String>, m: Option<Seq<char>>) -> bool {
    r is Err && (m is Some ==> r->Err_0@ == m->Some_0)
}

/// The error for a declaration that is missing, or malformed with the
/// reader's error `m`.
pub open spec fn decl_fail(src: Seq<u8>, key: Seq<char>, m: Option<Seq<char>>) -> Option<Seq<char>> {
    if crate::source::decl_start(src, vstd::utf8::encode_utf8(key)) is None {
        Some(crate::source::decl_missing_msg(key))
    } else {
        m
    }
}

// ---------------------------------------------------------------------------
// The names
// ---------------------------------------------------------------------------

pub open spec fn key_nodenames() -> Seq<char> {
    seq!['n', 'o', 'd', 'e', 'n', 'a', 'm', 'e', 's']
}

pub open spec fn key_segdefs() -> Seq<char> {
    seq!['s', 'e', 'g', 'd', 'e', 'f', 's']
}

pub open spec fn key_transdefs() -> Seq<char> {
    seq!['t', 'r', 'a', 'n', 's', 'd', 'e', 'f', 's']
}

/// The entries of the names object as (name, number), or `None` if some
/// value is not a number.
pub open spec fn name_nums(es: Seq<(Seq<char>, SVal)>) -> Option<Seq<(Seq<char>, int)>>
    decreases es.len(),
{
    if es.len() == 0 {
        Some(Seq::empty())
    } else {
        match name_nums(es.drop_last()) {
            None => None,
            Some(ns) => match es.last().1 {
                SVal::Num(n) => Some(ns.push((es.last().0, n))),
                _ => None,
            },
        }
    }
}

/// The error for the first entry of the names object whose value is not a
/// number.
pub open spec fn name_msg(es: Seq<(Seq<char>, SVal)>) -> Seq<char>
    decreases es.len(),
{
    if es.len() == 0 {
        Seq::empty()
    } else if name_nums(es.drop_last()) is None {
        name_msg(es.drop_last())
    } else {
        "nodename "@ + es.last().0 + " is not a number"@
    }
}

/// The error for a rail name with no entry; its text is stated for
/// printable-ASCII names.
pub open spec fn rail_msg(w: Seq<char>) -> Option<Seq<char>> {
    match str_shown(w) {
        Some(x) => Some("no rail called "@ + x + " in nodenames"@),
        None => None,
    }
}

/// The number of the last entry called `which`.
pub open spec fn last_num(ns: Seq<(Seq<char>, int)>, which: Seq<char>) -> Option<int>
    decreases ns.len(),
{
    if ns.len() == 0 {
        None
    } else if ns.last().0 == which {
        Some(ns.last().1)
    } else {
        last_num(ns.drop_last(), which)
    }
}

pub open spec fn names_view(v: Seq<(String, i64)>) -> Seq<(Seq<char>, int)> {
    v.map_values(|e: (String, i64)| (e.0@, e.1 as int))
}

/// The names table of the names object.
fn name_table(v: &Val) -> (r: Result<Vec<(String, i64)>, String>)
    ensures
        match v.sv() {
            SVal::Obj(es) => match name_nums(es) {
                Some(ns) => r matches Ok(t) && names_view(t@) == ns,
                None => r is Err && r->Err_0@ == name_msg(es),
            },
            _ => r is Err && r->Err_0@ == "nodenames is not an object"@,
        },
{
    let entries = match v {
        Val::Obj(entries) => entries,
        _ => {
            return Err(String::from_str("nodenames is not an object"));
        },
    };
    let ghost es = sv_pairs(entries@);
    assert(v.sv() == SVal::Obj(es));
    proof {
        lemma_sv_pairs_len(entries@);
    }
    let mut names: Vec<(String, i64)> = Vec::new();
    let mut k: usize = 0;
    while k < entries.len()
        invariant
            v.sv() == SVal::Obj(es),
            es == sv_pairs(entries@),
            es.len() == entries@.len(),
            0 <= k <= entries@.len(),
            name_nums(es.take(k as int)) == Some(names_view(names@)),
        decreases entries@.len() - k,
    {
        proof {
            lemma_sv_pairs_index(entries@, k as int);
            assert(es.take(k + 1).drop_last() =~= es.take(k as int));
        }
        match &entries[k].1 {
            Val::Num(n) => {
                let ghost before = names@;
                names.push((entries[k].0.clone(), *n));
                proof {
                    assert(names_view(names@) =~= names_view(before).push((entries@[k as int].0@, *n as int)));
                }
            },
            _ => {
                proof {
                    assert(es.take(k + 1).last() == es[k as int]);
                    assert(name_nums(es.take(k + 1)) is None);
                    assert(es.take(k + 1).drop_last() =~= es.take(k as int));
                    assert(name_msg(es.take(k + 1)) == "nodename "@ + entries@[k as int].0@
                        + " is not a number"@);
                    lemma_none_stays(es, k as int);
                }
                return Err(fmt_not_a_number(entries[k].0.as_str()));
            },
        }
        k = k + 1;
    }
    assert(es.take(entries@.len() as int) =~= es);
    Ok(names)
}

proof fn lemma_none_stays(es: Seq<(Seq<char>, SVal)>, k: int)
    requires
        0 <= k < es.len(),
        name_nums(es.take(k + 1)) is None,
    ensures
        name_nums(es) is None,
        name_msg(es) == name_msg(es.take(k + 1)),
    decreases es.len() - k,
{
    if k + 1 < es.len() {
        assert(es.take(k + 2).drop_last() =~= es.take(k + 1));
        lemma_none_stays(es, k + 1);
    } else {
        assert(es.take(k + 1) =~= es);
    }
}

/// The node number of the rail called `which`, as the blob stores it.
fn rail(names: &Vec<(String, i64)>, which: &str) -> (r: Result<u32, String>)
    ensures
        match last_num(names_view(names@), which@) {
            Some(n) => r == Ok::<u32, String>(n as u32),
            None => r is Err && (rail_msg(which@) is Some ==> r->Err_0@ == rail_msg(which@)->Some_0),
        },
{
    let ghost ns = names_view(names@);
    let mut k: usize = names.len();
    assert(ns.take(k as int) =~= ns);
    while k > 0
        invariant
            ns == names_view(names@),
            0 <= k <= names@.len(),
            last_num(ns, which@) == last_num(ns.take(k as int), which@),
        decreases k,
    {
        proof {
            assert(ns.take(k as int).drop_last() =~= ns.take(k - 1));
        }
        if str_eq(names[k - 1].0.as_str(), which) {
            return Ok(names[k - 1].1 as u32);
        }
        k = k - 1;
    }
    Err(fmt_no_rail(which))
}

// ---------------------------------------------------------------------------
// The polygons
// ---------------------------------------------------------------------------

/// The items of an array literal (empty for anything else).
pub open spec fn items(v: SVal) -> Seq<SVal> {
    match v {
        SVal::Arr(a) => a,
        _ => Seq::empty(),
    }
}

/// The number at `k` (0 for anything else).
pub open spec fn num_at(a: Seq<SVal>, k: int) -> int {
    match a[k] {
        SVal::Num(n) => n,
        _ => 0,
    }
}

/// The node number a polygon entry starts with.
pub open spec fn seg_node(e: SVal) -> Option<int> {
    match e {
        SVal::Arr(a) => if a.len() > 0 && a[0] is Num {
            Some(num_at(a, 0))
        } else {
            None
        },
        _ => None,
    }
}

/// The error for a polygon entry without a node number.
pub open spec fn seg_entry_msg(e: SVal) -> Seq<char> {
    if e is Arr {
        "segdef entry has no node number"@
    } else {
        "segdef entry is not an array"@
    }
}

/// One more than the largest polygon node number, scanning the entries in
/// order: an entry that is not an array with a number first fails, and a
/// node number one below the top of `usize` overflows the count.
pub open spec fn seg_count(segs: Seq<SVal>) -> Outcome<int>
    decreases segs.len(),
{
    if segs.len() == 0 {
        Outcome::Done(0)
    } else {
        match seg_count(segs.drop_last()) {
            Outcome::Done(c) => match seg_node(segs.last()) {
                None => Outcome::Fail(Some(seg_entry_msg(segs.last()))),
                Some(n) => {
                    let u = (n as usize) as int;
                    if u == usize::MAX {
                        Outcome::Crash
                    } else if c < u + 1 {
                        Outcome::Done(u + 1)
                    } else {
                        Outcome::Done(c)
                    }
                },
            },
            other => other,
        }
    }
}

/// The count raised to cover every name with a node number of zero or more.
pub open spec fn name_bump(c: int, ns: Seq<(Seq<char>, int)>) -> int
    decreases ns.len(),
{
    if ns.len() == 0 {
        c
    } else {
        let c0 = name_bump(c, ns.drop_last());
        let m = (ns.last().1 as i32) as int;
        if m >= 0 && c0 < m + 1 {
            m + 1
        } else {
            c0
        }
    }
}

/// Every polygon entry starts with a node number below `count`.
pub open spec fn seg_nodes_below(segs: Seq<SVal>, count: int) -> bool {
    forall|k: int|
        0 <= k < segs.len() ==> ((#[trigger] seg_node(segs[k])) matches Some(n) && ((
        n as usize) as int) < count)
}

/// Whether every literal is a number.
pub open spec fn all_nums(a: Seq<SVal>) -> bool {
    forall|k: int| 0 <= k < a.len() ==> a[k] is Num
}

/// The point list of a polygon entry's coordinates.
pub open spec fn points(coords: Seq<SVal>) -> Seq<(u16, u16)> {
    Seq::new(
        coords.len() / 2,
        |i: int| ((num_at(coords, 2 * i) as u16), (num_at(coords, 2 * i + 1) as u16)),
    )
}

/// The error for the first non-numeric coordinate, from pair `i` on.
pub open spec fn pair_msg(c: Seq<SVal>, i: nat) -> Seq<char>
    decreases c.len() - 2 * i,
{
    if 2 * i + 1 >= c.len() {
        "non-numeric polygon x"@
    } else if !(c[2 * i as int] is Num) {
        "non-numeric polygon x"@
    } else if !(c[2 * i + 1 as int] is Num) {
        "non-numeric polygon y"@
    } else {
        pair_msg(c, i + 1)
    }
}

/// The pass over the polygons: which nodes exist, which have a pullup (as
/// the first polygon of the node says), and the polygons with at least
/// three points. An entry without a layer number, or with a non-numeric
/// coordinate in a point list long enough to keep, fails.
pub open spec fn seg_pass(segs: Seq<SVal>, count: nat) -> Result<
    (Seq<bool>, Seq<bool>, Seq<PolyModel>),
    Seq<char>,
>
    decreases segs.len(),
{
    if segs.len() == 0 {
        Ok((Seq::new(count, |i: int| false), Seq::new(count, |i: int| false), Seq::empty()))
    } else {
        match seg_pass(segs.drop_last(), count) {
            Err(m) => Err(m),
            Ok((ex, pu, ps)) => {
                let a = items(segs.last());
                let n = (num_at(a, 0) as usize) as int;
                let fresh = !ex[n];
                let ex2 = if fresh {
                    ex.update(n, true)
                } else {
                    ex
                };
                let plus = a.len() > 1 && (a[1] matches SVal::Str(t) && t == seq!['+']);
                let pu2 = if fresh {
                    pu.update(n, plus)
                } else {
                    pu
                };
                if a.len() <= 2 || !(a[2] is Num) {
                    Err("segdef entry has no layer"@)
                } else {
                    let coords = a.skip(3);
                    if coords.len() < 6 || coords.len() % 2 != 0 {
                        Ok((ex2, pu2, ps))
                    } else if !all_nums(coords) {
                        Err(pair_msg(coords, 0))
                    } else {
                        Ok(
                            (
                                ex2,
                                pu2,
                                ps.push(
                                    PolyModel {
                                        layer: num_at(a, 2) as u8,
                                        node: n as u16,
                                        pts: points(coords),
                                    },
                                ),
                            ),
                        )
                    }
                }
            },
        }
    }
}

proof fn lemma_seg_count_stuck(segs: Seq<SVal>, p: int)
    requires
        0 <= p <= segs.len(),
        !(seg_count(segs.take(p)) is Done),
    ensures
        seg_count(segs) == seg_count(segs.take(p)),
    decreases segs.len() - p,
{
    if p < segs.len() {
        assert(segs.take(p + 1).drop_last() =~= segs.take(p));
        lemma_seg_count_stuck(segs, p + 1);
    } else {
        assert(segs.take(p) =~= segs);
    }
}

pub proof fn lemma_seg_count_bound(segs: Seq<SVal>)
    requires
        seg_count(segs) is Done,
    ensures
        seg_nodes_below(segs, seg_count(segs)->Done_0),
        seg_count(segs)->Done_0 >= 0,
    decreases segs.len(),
{
    if segs.len() > 0 {
        let s0 = segs.drop_last();
        lemma_seg_count_bound(s0);
        assert forall|k: int| 0 <= k < segs.len() implies ((#[trigger] seg_node(segs[k])) matches Some(
            n,
        ) && ((n as usize) as int) < seg_count(segs)->Done_0) by {
            if k < segs.len() - 1 {
                assert(segs[k] == s0[k]);
            }
        }
    }
}

pub proof fn lemma_name_bump_grows(c: int, ns: Seq<(Seq<char>, int)>)
    ensures
        name_bump(c, ns) >= c,
    decreases ns.len(),
{
    if ns.len() > 0 {
        lemma_name_bump_grows(c, ns.drop_last());
    }
}

/// The node count the polygons call for.
fn count_nodes(segs: &[Val]) -> (r: Result<usize, String>)
    ensures
        match seg_count(sv_list(segs@)) {
            Outcome::Done(c) => r matches Ok(x) && x as int == c,
            Outcome::Fail(m) => r is Err && (m is Some ==> r->Err_0@ == m->Some_0),
            _ => r is Err,
        },
{
    let ghost ss = sv_list(segs@);
    proof {
        lemma_sv_list_len(segs@);
    }
    let mut count: usize = 0;
    let mut k: usize = 0;
    while k < segs.len()
        invariant
            ss == sv_list(segs@),
            ss.len() == segs@.len(),
            0 <= k <= segs@.len(),
            seg_count(ss.take(k as int)) == Outcome::<int>::Done(count as int),
        decreases segs@.len() - k,
    {
        proof {
            lemma_sv_list_index(segs@, k as int);
            assert(ss.take(k + 1).drop_last() =~= ss.take(k as int));
            assert(ss.take(k + 1).last() == ss[k as int]);
        }
        let n = match segs[k].as_arr() {
            Some(a) => {
                proof {
                    lemma_sv_list_len(a@);
                }
                if a.len() == 0 {
                    proof {
                        lemma_seg_count_stuck(ss, k + 1);
                    }
                    return Err(String::from_str("segdef entry has no node number"));
                }
                proof {
                    lemma_sv_list_index(a@, 0);
                }
                match a[0].as_num() {
                    Some(n) => n,
                    None => {
                        proof {
                            lemma_seg_count_stuck(ss, k + 1);
                        }
                        return Err(String::from_str("segdef entry has no node number"));
                    },
                }
            },
            None => {
                proof {
                    lemma_seg_count_stuck(ss, k + 1);
                }
                return Err(String::from_str("segdef entry is not an array"));
            },
        };
        let u = n as usize;
        if u == usize::MAX {
            proof {
                lemma_seg_count_stuck(ss, k + 1);
            }
            return Err(String::from_str("segdef node number overflows"));
        }
        if count < u + 1 {
            count = u + 1;
        }
        k = k + 1;
    }
    assert(ss.take(segs@.len() as int) =~= ss);
    Ok(count)
}

/// The count raised to cover the named nodes.
fn bump_for_names(count: usize, names: &Vec<(String, i64)>) -> (r: usize)
    ensures
        r as int == name_bump(count as int, names_view(names@)),
{
    let ghost ns = names_view(names@);
    let mut c = count;
    let mut k: usize = 0;
    while k < names.len()
        invariant
            ns == names_view(names@),
            0 <= k <= names@.len(),
            c as int == name_bump(count as int, ns.take(k as int)),
        decreases names@.len() - k,
    {
        proof {
            assert(ns.take(k + 1).drop_last() =~= ns.take(k as int));
        }
        let m = names[k].1 as i32;
        if m >= 0 && c < m as usize + 1 {
            c = m as usize + 1;
        }
        k = k + 1;
    }
    assert(ns.take(names@.len() as int) =~= ns);
    c
}

proof fn lemma_seg_pass_stuck(segs: Seq<SVal>, count: nat, p: int)
    requires
        0 <= p <= segs.len(),
        seg_pass(segs.take(p), count) is Err,
    ensures
        seg_pass(segs, count) == seg_pass(segs.take(p), count),
    decreases segs.len() - p,
{
    if p < segs.len() {
        assert(segs.take(p + 1).drop_last() =~= segs.take(p));
        lemma_seg_pass_stuck(segs, count, p + 1);
    } else {
        assert(segs.take(p) =~= segs);
    }
}

pub proof fn lemma_seg_pass_lens(segs: Seq<SVal>, count: nat)
    requires
        seg_nodes_below(segs, count as int),
    ensures
        seg_pass(segs, count) matches Ok((ex, pu, ps)) ==> ex.len() == count && pu.len() == count,
    decreases segs.len(),
{
    if segs.len() > 0 {
        let s0 = segs.drop_last();
        assert forall|k: int| 0 <= k < s0.len() implies ((#[trigger] seg_node(s0[k])) matches Some(
            n,
        ) && ((n as usize) as int) < count) by {
            assert(s0[k] == segs[k]);
        }
        lemma_seg_pass_lens(s0, count);
        assert(segs.last() == segs[segs.len() - 1]);
        assert(seg_node(segs[segs.len() - 1]) is Some);
    }
}

/// Every polygon kept belongs to a node that the pass marks as existing.
pub proof fn lemma_seg_pass_polys(segs: Seq<SVal>, count: nat)
    requires
        seg_nodes_below(segs, count as int),
        count <= 65536,
    ensures
        seg_pass(segs, count) matches Ok((ex, pu, ps)) ==> forall|i: int|
            0 <= i < ps.len() ==> (ps[i].node as int) < count && ex[ps[i].node as int],
    decreases segs.len(),
{
    if segs.len() > 0 {
        let s0 = segs.drop_last();
        assert forall|k: int| 0 <= k < s0.len() implies ((#[trigger] seg_node(s0[k])) matches Some(
            n,
        ) && ((n as usize) as int) < count) by {
            assert(s0[k] == segs[k]);
        }
        lemma_seg_pass_polys(s0, count);
        lemma_seg_pass_lens(s0, count);
        assert(segs.last() == segs[segs.len() - 1]);
        assert(seg_node(segs[segs.len() - 1]) is Some);
    }
}

/// Every transistor the pass keeps joins known nodes.
pub proof fn lemma_trans_pass_known(ts: Seq<SVal>, vss: u32, vcc: u32, ex: Seq<bool>)
    requires
        ex.len() <= 65536,
    ensures
        trans_pass(ts, vss, vcc, ex) matches Ok((tg, boxes, g)) ==> {
            &&& boxes.len() == tg.len()
            &&& 0 <= g <= tg.len()
            &&& forall|i: int|
                0 <= i < tg.len() ==> (tg[i].0 as int) < ex.len() && (tg[i].1 as int) < ex.len()
                    && (tg[i].2 as int) < ex.len()
        },
    decreases ts.len(),
{
    if ts.len() > 0 {
        lemma_trans_pass_known(ts.drop_last(), vss, vcc, ex);
    }
}

pub open spec fn poly_models(ps: Seq<Polygon>) -> Seq<PolyModel> {
    ps.map_values(|p: Polygon| p.model())
}

/// Whether a literal is the string `+`.
fn is_plus(v: &Val) -> (r: bool)
    ensures
        r == (v.sv() matches SVal::Str(t) && t == seq!['+']),
{
    match v {
        Val::Str(s) => {
            proof {
                reveal_strlit("+");
            }
            assert(v.sv() == SVal::Str(s@));
            assert("+"@ =~= seq!['+']);
            str_eq(s.as_str(), "+")
        },
        _ => false,
    }
}

proof fn lemma_sv_list_skip(a: Seq<Val>, m: int)
    requires
        0 <= m <= a.len(),
    ensures
        sv_list(a.skip(m)) == sv_list(a).skip(m),
{
    lemma_sv_list_len(a);
    lemma_sv_list_len(a.skip(m));
    assert forall|j: int| 0 <= j < a.len() - m implies sv_list(a.skip(m))[j] == sv_list(a).skip(m)[j] by {
        lemma_sv_list_index(a.skip(m), j);
        lemma_sv_list_index(a, m + j);
    }
    assert(sv_list(a.skip(m)) =~= sv_list(a).skip(m));
}

proof fn lemma_pair_msg_step(c: Seq<SVal>, i: nat)
    requires
        2 * i + 1 < c.len(),
        c[2 * i as int] is Num,
        c[2 * i + 1 as int] is Num,
    ensures
        pair_msg(c, i) == pair_msg(c, i + 1),
{
}

/// The points of a polygon entry's coordinate list, taken in pairs.
fn read_points(coords: &[Val]) -> (r: Result<Vec<(u16, u16)>, String>)
    requires
        coords@.len() % 2 == 0,
    ensures
        all_nums(sv_list(coords@)) ==> (r matches Ok(p) && p@ == points(sv_list(coords@))),
        !all_nums(sv_list(coords@)) ==> r is Err && r->Err_0@ == pair_msg(sv_list(coords@), 0),
{
    let ghost cs = sv_list(coords@);
    proof {
        lemma_sv_list_len(coords@);
    }
    let mut pts: Vec<(u16, u16)> = Vec::new();
    let mut i: usize = 0;
    while i < coords.len() / 2
        invariant
            cs == sv_list(coords@),
            cs.len() == coords@.len(),
            coords@.len() % 2 == 0,
            0 <= i <= coords@.len() / 2,
            forall|j: int| 0 <= j < 2 * i ==> cs[j] is Num,
            pts@ =~= points(cs).take(i as int),
            pair_msg(cs, 0) == pair_msg(cs, i as nat),
        decreases coords@.len() / 2 - i,
    {
        proof {
            lemma_sv_list_index(coords@, 2 * i as int);
            lemma_sv_list_index(coords@, 2 * i + 1);
        }
        let x = match coords[2 * i].as_num() {
            Some(x) => x,
            None => {
                assert(!(cs[2 * i as int] is Num));
                return Err(String::from_str("non-numeric polygon x"));
            },
        };
        let y = match coords[2 * i + 1].as_num() {
            Some(y) => y,
            None => {
                assert(!(cs[2 * i + 1] is Num));
                return Err(String::from_str("non-numeric polygon y"));
            },
        };
        pts.push((x as u16, y as u16));
        proof {
            lemma_pair_msg_step(cs, i as nat);
        }
        i = i + 1;
    }
    assert(pts@ =~= points(cs));
    Ok(pts)
}

/// The pass over the polygons.
fn seg_polygons(segs: &[Val], count: usize) -> (r: Result<(Vec<bool>, Vec<bool>, Vec<Polygon>), String>)
    requires
        seg_nodes_below(sv_list(segs@), count as int),
    ensures
        match seg_pass(sv_list(segs@), count as nat) {
            Ok((ex, pu, ps)) => r matches Ok((e, p, g)) && e@ == ex && p@ == pu && poly_models(g@)
                == ps,
            Err(m) => r is Err && r->Err_0@ == m,
        },
{
    let ghost ss = sv_list(segs@);
    proof {
        lemma_sv_list_len(segs@);
    }
    let mut exists: Vec<bool> = vec![false; count];
    let mut pullup: Vec<bool> = vec![false; count];
    let mut polygons: Vec<Polygon> = Vec::new();
    assert(exists@ =~= Seq::new(count as nat, |i: int| false));
    assert(pullup@ =~= Seq::new(count as nat, |i: int| false));
    assert(poly_models(polygons@) =~= Seq::<PolyModel>::empty());
    assert(ss.take(0) =~= Seq::<SVal>::empty());
    let mut k: usize = 0;
    while k < segs.len()
        invariant
            ss == sv_list(segs@),
            ss.len() == segs@.len(),
            0 <= k <= segs@.len(),
            seg_nodes_below(ss, count as int),
            seg_pass(ss.take(k as int), count as nat) == Ok::<(Seq<bool>, Seq<bool>, Seq<PolyModel>), Seq<char>>(
                (exists@, pullup@, poly_models(polygons@)),
            ),
            exists@.len() == count,
            pullup@.len() == count,
        decreases segs@.len() - k,
    {
        let ghost pre = ss.take(k as int);
        proof {
            lemma_sv_list_index(segs@, k as int);
            assert(ss.take(k + 1).drop_last() =~= pre);
            assert(ss.take(k + 1).last() == ss[k as int]);
            assert(seg_node(ss[k as int]) is Some);
        }
        let a = match segs[k].as_arr() {
            Some(a) => a,
            None => {
                proof {
                    assert(false);
                }
                return Err(String::from_str("segdef entry is not an array"));
            },
        };
        let ghost av = sv_list(a@);
        proof {
            lemma_sv_list_len(a@);
            lemma_sv_list_index(a@, 0);
            assert(items(ss[k as int]) == av);
        }
        let n = match a[0].as_num() {
            Some(n) => n as usize,
            None => {
                proof {
                    assert(false);
                }
                return Err(String::from_str("segdef entry has no node number"));
            },
        };
        assert(n as int == (num_at(av, 0) as usize) as int);
        if !exists[n] {
            exists.set(n, true);
            let plus = if a.len() > 1 {
                proof {
                    lemma_sv_list_index(a@, 1);
                }
                is_plus(&a[1])
            } else {
                false
            };
            pullup.set(n, plus);
        }
        if a.len() <= 2 {
            proof {
                lemma_seg_pass_stuck(ss, count as nat, k + 1);
            }
            return Err(String::from_str("segdef entry has no layer"));
        }
        proof {
            lemma_sv_list_index(a@, 2);
        }
        let layer = match a[2].as_num() {
            Some(l) => l as u8,
            None => {
                proof {
                    lemma_seg_pass_stuck(ss, count as nat, k + 1);
                }
                return Err(String::from_str("segdef entry has no layer"));
            },
        };
        let clen = a.len() - 3;
        if clen >= 6 && clen % 2 == 0 {
            let coords = vstd::slice::slice_subrange(a, 3, a.len());
            proof {
                lemma_sv_list_skip(a@, 3);
                assert(coords@ =~= a@.skip(3));
            }
            let pts = match read_points(coords) {
                Ok(pts) => pts,
                Err(e) => {
                    proof {
                        lemma_seg_pass_stuck(ss, count as nat, k + 1);
                    }
                    return Err(e);
                },
            };
            let ghost before = polygons@;
            polygons.push(Polygon { layer, node: n as u16, pts });
            assert(poly_models(polygons@) =~= poly_models(before).push(
                PolyModel { layer, node: n as u16, pts: points(av.skip(3)) },
            ));
        }
        k = k + 1;
    }
    assert(ss.take(segs@.len() as int) =~= ss);
    Ok((exists, pullup, polygons))
}

// ---------------------------------------------------------------------------
// The transistors
// ---------------------------------------------------------------------------

/// A gate's bounding box: the first four numbers of the entry's fifth item
/// (a non-number counting as 0), or zeros if there are not four.
pub open spec fn box_of(a: Seq<SVal>) -> Seq<u16> {
    let bb = if a.len() > 4 {
        items(a[4])
    } else {
        Seq::empty()
    };
    if bb.len() >= 4 {
        seq![num_at(bb, 0) as u16, num_at(bb, 1) as u16, num_at(bb, 2) as u16, num_at(bb, 3) as u16]
    } else {
        seq![0u16, 0u16, 0u16, 0u16]
    }
}

/// Whether `n` is a node that some polygon belongs to.
pub open spec fn known(n: u32, ex: Seq<bool>) -> bool {
    (n as int) < ex.len() && ex[n as int]
}

/// A transistor's ends after normalisation: an end on ground moves to the
/// second place, and then an end on the supply does. The two steps run in
/// turn, the second seeing the first's result.
pub open spec fn normalise(c1: u32, c2: u32, vss: u32, vcc: u32) -> (u32, u32) {
    let (a1, a2) = if c1 == vss {
        (c2, vss)
    } else {
        (c1, c2)
    };
    if a1 == vcc {
        (a2, vcc)
    } else {
        (a1, a2)
    }
}

/// The pass over the transistors: (gate, c1, c2) after normalisation, the
/// gate boxes, and how many gates are tied to the supply. An entry that is
/// not an array of at least four items with numbers at 1, 2 and 3 fails,
/// and so does one whose gate or ends are not known nodes.
pub open spec fn trans_pass(ts: Seq<SVal>, vss: u32, vcc: u32, ex: Seq<bool>) -> Result<
    (Seq<(u16, u16, u16)>, Seq<Seq<u16>>, int),
    Option<Seq<char>>,
>
    decreases ts.len(),
{
    if ts.len() == 0 {
        Ok((Seq::empty(), Seq::empty(), 0))
    } else {
        match trans_pass(ts.drop_last(), vss, vcc, ex) {
            Err(m) => Err(m),
            Ok((tg, boxes, g)) => match ts.last() {
                SVal::Arr(a) => {
                    if a.len() < 4 {
                        Err(short_msg(a))
                    } else if !(a[1] is Num) {
                        Err(Some("transdef gate"@))
                    } else if !(a[2] is Num) {
                        Err(Some("transdef c1"@))
                    } else if !(a[3] is Num) {
                        Err(Some("transdef c2"@))
                    } else {
                        let gate = num_at(a, 1) as u32;
                        let (c1, c2) = normalise(num_at(a, 2) as u32, num_at(a, 3) as u32, vss, vcc);
                        if !known(gate, ex) {
                            Err(Some(unknown_msg(gate)))
                        } else if !known(c1, ex) {
                            Err(Some(unknown_msg(c1)))
                        } else if !known(c2, ex) {
                            Err(Some(unknown_msg(c2)))
                        } else {
                            Ok(
                                (
                                    tg.push((gate as u16, c1 as u16, c2 as u16)),
                                    boxes.push(box_of(a)),
                                    if gate == vcc {
                                        g + 1
                                    } else {
                                        g
                                    },
                                ),
                            )
                        }
                    }
                },
                _ => Err(Some("transdef entry is not an array"@)),
            },
        }
    }
}

/// The error for a transistor end on a node no polygon belongs to.
pub open spec fn unknown_msg(n: u32) -> Seq<char> {
    "transistor references unknown node "@ + crate::text::decimal(n as nat)
}

pub open spec fn box_views(bs: Seq<[u16; 4]>) -> Seq<Seq<u16>> {
    bs.map_values(|b: [u16; 4]| b@)
}

proof fn lemma_trans_pass_stuck(ts: Seq<SVal>, vss: u32, vcc: u32, ex: Seq<bool>, p: int)
    requires
        0 <= p <= ts.len(),
        trans_pass(ts.take(p), vss, vcc, ex) is Err,
    ensures
        trans_pass(ts, vss, vcc, ex) == trans_pass(ts.take(p), vss, vcc, ex),
    decreases ts.len() - p,
{
    if p < ts.len() {
        assert(ts.take(p + 1).drop_last() =~= ts.take(p));
        lemma_trans_pass_stuck(ts, vss, vcc, ex, p + 1);
    } else {
        assert(ts.take(p) =~= ts);
    }
}

/// The number in a literal, or 0.
fn num_or_zero(v: &Val) -> (r: i64)
    ensures
        r as int == (match v.sv() {
            SVal::Num(n) => n,
            _ => 0,
        }),
{
    match v {
        Val::Num(n) => *n,
        _ => 0,
    }
}

/// The bounding box recorded with a transistor.
fn gate_box(a: &[Val]) -> (r: [u16; 4])
    ensures
        r@ == box_of(sv_list(a@)),
{
    let ghost av = sv_list(a@);
    proof {
        lemma_sv_list_len(a@);
    }
    if a.len() > 4 {
        proof {
            lemma_sv_list_index(a@, 4);
        }
        match a[4].as_arr() {
            Some(b) => {
                proof {
                    lemma_sv_list_len(b@);
                    assert(items(av[4]) == sv_list(b@));
                }
                if b.len() >= 4 {
                    proof {
                        lemma_sv_list_index(b@, 0);
                        lemma_sv_list_index(b@, 1);
                        lemma_sv_list_index(b@, 2);
                        lemma_sv_list_index(b@, 3);
                    }
                    let r: [u16; 4] = [
                        num_or_zero(&b[0]) as u16,
                        num_or_zero(&b[1]) as u16,
                        num_or_zero(&b[2]) as u16,
                        num_or_zero(&b[3]) as u16,
                    ];
                    assert(r@ =~= box_of(av));
                    return r;
                }
            },
            None => {},
        }
    }
    let r: [u16; 4] = [0, 0, 0, 0];
    assert(r@ =~= box_of(av));
    r
}

/// Whether node `n` is one that a polygon belongs to.
fn is_known(n: u32, exists: &Vec<bool>) -> (r: bool)
    ensures
        r == known(n, exists@),
{
    (n as usize) < exists.len() && exists[n as usize]
}

/// The pass over the transistors.
fn transistors(ts: &[Val], vss: u32, vcc: u32, exists: &Vec<bool>) -> (r: Result<
    (Vec<(u16, u16, u16)>, Vec<[u16; 4]>, usize),
    String,
>)
    ensures
        match trans_pass(sv_list(ts@), vss, vcc, exists@) {
            Ok((tg, boxes, g)) => r matches Ok((t, b, n)) && t@ == tg && box_views(b@) == boxes
                && n as int == g,
            Err(m) => r is Err && (m is Some ==> r->Err_0@ == m->Some_0),
        },
{
    let ghost ss = sv_list(ts@);
    proof {
        lemma_sv_list_len(ts@);
    }
    let mut tg: Vec<(u16, u16, u16)> = Vec::new();
    let mut boxes: Vec<[u16; 4]> = Vec::new();
    let mut gated: usize = 0;
    assert(ss.take(0) =~= Seq::<SVal>::empty());
    assert(box_views(boxes@) =~= Seq::<Seq<u16>>::empty());
    let mut k: usize = 0;
    while k < ts.len()
        invariant
            ss == sv_list(ts@),
            ss.len() == ts@.len(),
            0 <= k <= ts@.len(),
            gated <= k,
            trans_pass(ss.take(k as int), vss, vcc, exists@) == Ok::<(Seq<(u16, u16, u16)>, Seq<Seq<u16>>, int), Option<Seq<char>>>(
                (tg@, box_views(boxes@), gated as int),
            ),
        decreases ts@.len() - k,
    {
        proof {
            lemma_sv_list_index(ts@, k as int);
            assert(ss.take(k + 1).drop_last() =~= ss.take(k as int));
            assert(ss.take(k + 1).last() == ss[k as int]);
        }
        let a = match ts[k].as_arr() {
            Some(a) => a,
            None => {
                proof {
                    lemma_trans_pass_stuck(ss, vss, vcc, exists@, k + 1);
                }
                return Err(String::from_str("transdef entry is not an array"));
            },
        };
        let ghost av = sv_list(a@);
        proof {
            lemma_sv_list_len(a@);
        }
        if a.len() < 4 {
            proof {
                lemma_trans_pass_stuck(ss, vss, vcc, exists@, k + 1);
            }
            return Err(fmt_short_transdef(a));
        }
        let bx = gate_box(a);
        proof {
            lemma_sv_list_index(a@, 1);
            lemma_sv_list_index(a@, 2);
            lemma_sv_list_index(a@, 3);
        }
        let gate = match a[1].as_num() {
            Some(g) => g as u32,
            None => {
                proof {
                    lemma_trans_pass_stuck(ss, vss, vcc, exists@, k + 1);
                }
                return Err(String::from_str("transdef gate"));
            },
        };
        let mut c1 = match a[2].as_num() {
            Some(c) => c as u32,
            None => {
                proof {
                    lemma_trans_pass_stuck(ss, vss, vcc, exists@, k + 1);
                }
                return Err(String::from_str("transdef c1"));
            },
        };
        let mut c2 = match a[3].as_num() {
            Some(c) => c as u32,
            None => {
                proof {
                    lemma_trans_pass_stuck(ss, vss, vcc, exists@, k + 1);
                }
                return Err(String::from_str("transdef c2"));
            },
        };
        let ghost norm = normalise(c1, c2, vss, vcc);
        if c1 == vss {
            c1 = c2;
            c2 = vss;
        }
        if c1 == vcc {
            c1 = c2;
            c2 = vcc;
        }
        assert((c1, c2) == norm);
        if gate == vcc {
            gated = gated + 1;
        }
        if !is_known(gate, exists) {
            proof {
                lemma_trans_pass_stuck(ss, vss, vcc, exists@, k + 1);
            }
            return Err(fmt_unknown_node(gate));
        }
        if !is_known(c1, exists) {
            proof {
                lemma_trans_pass_stuck(ss, vss, vcc, exists@, k + 1);
            }
            return Err(fmt_unknown_node(c1));
        }
        if !is_known(c2, exists) {
            proof {
                lemma_trans_pass_stuck(ss, vss, vcc, exists@, k + 1);
            }
            return Err(fmt_unknown_node(c2));
        }
        let ghost old_boxes = boxes@;
        tg.push((gate as u16, c1 as u16, c2 as u16));
        boxes.push(bx);
        assert(box_views(boxes@) =~= box_views(old_boxes).push(box_of(av)));
        k = k + 1;
    }
    assert(ss.take(ts@.len() as int) =~= ss);
    Ok((tg, boxes, gated))
}

// ---------------------------------------------------------------------------
// The blob
// ---------------------------------------------------------------------------

/// A `u16` as two little-endian bytes.
pub open spec fn le16_bytes(v: u16) -> Seq<u8> {
    seq![(v % 256) as u8, (v / 256) as u8]
}

/// A `u32` as four little-endian bytes.
pub open spec fn le32_bytes(v: u32) -> Seq<u8> {
    seq![(v % 256) as u8, ((v / 256) % 256) as u8, ((v / 65536) % 256) as u8, (v / 16777216) as u8]
}

/// Flag `i` as a bit: 1 if it is set, 0 if it is clear or past the end.
pub open spec fn flag_bit(f: Seq<bool>, i: int) -> u8 {
    if 0 <= i < f.len() && f[i] {
        1u8
    } else {
        0u8
    }
}

/// The first `k` flags of byte `j`, flag `8 * j + i` at bit `i`.
pub open spec fn pack_bits(f: Seq<bool>, j: int, k: nat) -> u8
    decreases k,
{
    if k == 0 {
        0u8
    } else {
        pack_bits(f, j, (k - 1) as nat) | (flag_bit(f, 8 * j + k - 1) << ((k - 1) as u8))
    }
}

/// Flags packed eight to a byte, least significant bit first.
pub open spec fn flag_bytes(f: Seq<bool>) -> Seq<u8> {
    Seq::new(bytes_for(f.len()), |j: int| pack_bits(f, j, 8))
}

/// The transistor records: gate, c1, c2, each a little-endian `u16`.
pub open spec fn trans_bytes(tg: Seq<(u16, u16, u16)>) -> Seq<u8>
    decreases tg.len(),
{
    if tg.len() == 0 {
        Seq::empty()
    } else {
        let t = tg.last();
        trans_bytes(tg.drop_last()) + le16_bytes(t.0) + le16_bytes(t.1) + le16_bytes(t.2)
    }
}

/// One name record: the name's byte length as a `u16`, its UTF-8 bytes,
/// and its node number as an `i32`.
pub open spec fn name_record(name: Seq<char>, n: int) -> Seq<u8> {
    let b = vstd::utf8::encode_utf8(name);
    le16_bytes(b.len() as u16) + b + le32_bytes((n as i32) as u32)
}

/// The name records, in order.
pub open spec fn name_bytes(ns: Seq<(Seq<char>, int)>) -> Seq<u8>
    decreases ns.len(),
{
    if ns.len() == 0 {
        Seq::empty()
    } else {
        name_bytes(ns.drop_last()) + name_record(ns.last().0, ns.last().1)
    }
}

/// The fixed-size head of a blob: the magic, then the node, transistor and
/// name counts and the two rails, each a little-endian `u32`.
pub open spec fn blob_head(count: int, tcount: int, ncount: int, vss: u32, vcc: u32) -> Seq<u8> {
    magic() + le32_bytes(count as u32) + le32_bytes(tcount as u32) + le32_bytes(ncount as u32)
        + le32_bytes(vss) + le32_bytes(vcc)
}

/// The whole blob.
pub open spec fn blob_bytes(
    count: int,
    tg: Seq<(u16, u16, u16)>,
    ns: Seq<(Seq<char>, int)>,
    vss: u32,
    vcc: u32,
    ex: Seq<bool>,
    pu: Seq<bool>,
) -> Seq<u8> {
    blob_head(count, tg.len() as int, ns.len() as int, vss, vcc) + flag_bytes(ex) + flag_bytes(pu)
        + trans_bytes(tg) + name_bytes(ns)
}

/// A blob being written.
struct Blob {
    bytes: Vec<u8>,
}

impl Blob {
    fn u16(&mut self, v: u16)
        ensures
            final(self).bytes@ == old(self).bytes@ + le16_bytes(v),
    {
        self.bytes.push((v % 256) as u8);
        self.bytes.push((v / 256) as u8);
        assert(final(self).bytes@ =~= old(self).bytes@ + le16_bytes(v));
    }

    fn u32(&mut self, v: u32)
        ensures
            final(self).bytes@ == old(self).bytes@ + le32_bytes(v),
    {
        self.bytes.push((v % 256) as u8);
        self.bytes.push(((v / 256) % 256) as u8);
        self.bytes.push(((v / 65536) % 256) as u8);
        self.bytes.push((v / 16777216) as u8);
        assert(final(self).bytes@ =~= old(self).bytes@ + le32_bytes(v));
    }

    fn i32(&mut self, v: i32)
        ensures
            final(self).bytes@ == old(self).bytes@ + le32_bytes(v as u32),
    {
        self.u32(v as u32);
    }

    fn extend(&mut self, b: &[u8])
        ensures
            final(self).bytes@ == old(self).bytes@ + b@,
    {
        self.bytes.extend_from_slice(b);
        assert(final(self).bytes@ =~= old(self).bytes@ + b@);
    }

    fn bits(&mut self, flags: &[bool])
        ensures
            final(self).bytes@ == old(self).bytes@ + flag_bytes(flags@),
    {
        let n = flags.len();
        let nb = n / 8 + if n % 8 != 0 {
            1
        } else {
            0
        };
        assert(nb == bytes_for(n as nat));
        let ghost start = self.bytes@;
        let mut j: usize = 0;
        while j < nb
            invariant
                n == flags@.len(),
                nb == bytes_for(n as nat),
                0 <= j <= nb,
                self.bytes@ =~= start + flag_bytes(flags@).take(j as int),
            decreases nb - j,
        {
            let rem = n - 8 * j;
            let mut byte: u8 = 0;
            let mut i: u8 = 0;
            while i < 8
                invariant
                    n == flags@.len(),
                    j < nb,
                    nb == bytes_for(n as nat),
                    rem == n - 8 * j,
                    0 <= i <= 8,
                    byte == pack_bits(flags@, j as int, i as nat),
                decreases 8 - i,
            {
                let bit: u8 = if (i as usize) < rem && flags[8 * j + i as usize] {
                    1
                } else {
                    0
                };
                assert(bit == flag_bit(flags@, 8 * j + i));
                byte = byte | (bit << i);
                i = i + 1;
            }
            self.bytes.push(byte);
            j = j + 1;
        }
        assert(flag_bytes(flags@).take(nb as int) =~= flag_bytes(flags@));
    }
}

/// Encode a netlist.
fn encode(
    count: usize,
    tg: &Vec<(u16, u16, u16)>,
    names: &Vec<(String, i64)>,
    vss: u32,
    vcc: u32,
    exists: &Vec<bool>,
    pullup: &Vec<bool>,
) -> (r: Vec<u8>)
    ensures
        r@ == blob_bytes(count as int, tg@, names_view(names@), vss, vcc, exists@, pullup@),
{
    let head: [u8; 8] = [72, 65, 76, 70, 80, 72, 73, 49];
    let mut b = Blob { bytes: Vec::new() };
    b.extend(head.as_slice());
    assert(head@ =~= magic());
    b.u32(count as u32);
    b.u32(tg.len() as u32);
    b.u32(names.len() as u32);
    b.u32(vss);
    b.u32(vcc);
    let ghost head = b.bytes@;
    assert(head =~= blob_head(count as int, tg@.len() as int, names@.len() as int, vss, vcc));
    b.bits(exists.as_slice());
    b.bits(pullup.as_slice());
    let ghost flags = b.bytes@;
    let mut k: usize = 0;
    assert(tg@.take(0) =~= Seq::<(u16, u16, u16)>::empty());
    while k < tg.len()
        invariant
            0 <= k <= tg@.len(),
            b.bytes@ =~= flags + trans_bytes(tg@.take(k as int)),
        decreases tg@.len() - k,
    {
        assert(tg@.take(k + 1).drop_last() =~= tg@.take(k as int));
        let (g, c1, c2) = tg[k];
        b.u16(g);
        b.u16(c1);
        b.u16(c2);
        k = k + 1;
    }
    assert(tg@.take(tg@.len() as int) =~= tg@);
    let ghost trans = b.bytes@;
    let ghost ns = names_view(names@);
    let mut k: usize = 0;
    assert(ns.take(0) =~= Seq::<(Seq<char>, int)>::empty());
    while k < names.len()
        invariant
            ns == names_view(names@),
            0 <= k <= names@.len(),
            b.bytes@ =~= trans + name_bytes(ns.take(k as int)),
        decreases names@.len() - k,
    {
        assert(ns.take(k + 1).drop_last() =~= ns.take(k as int));
        let bytes = names[k].0.as_str().as_bytes();
        b.u16(bytes.len() as u16);
        b.extend(bytes);
        b.i32(names[k].1 as i32);
        k = k + 1;
    }
    assert(ns.take(names@.len() as int) =~= ns);
    b.bytes
}

// ---------------------------------------------------------------------------
// The whole parse
// ---------------------------------------------------------------------------

/// The last stage: the transistors, and the blob.
pub open spec fn trans_stage(
    trans: Seq<u8>,
    ns: Seq<(Seq<char>, int)>,
    vss: u32,
    vcc: u32,
    count: int,
    ex: Seq<bool>,
    pu: Seq<bool>,
    polys: Seq<PolyModel>,
) -> Outcome<ParsedModel> {
    match decl_value(trans, vstd::utf8::encode_utf8(key_transdefs())) {
        Reading::Abort => Outcome::Crash,
        Reading::Bad(m) => Outcome::Fail(decl_fail(trans, key_transdefs(), m)),
        Reading::Good(tv, _) => match tv {
            SVal::Arr(ts) => match trans_pass(ts, vss, vcc, ex) {
                Err(m) => Outcome::Fail(m),
                Ok((tg, boxes, g)) => Outcome::Done(
                    ParsedModel {
                        blob: blob_bytes(count, tg, ns, vss, vcc, ex, pu),
                        polygons: polys,
                        gate_boxes: boxes,
                        node_count: count,
                        transistor_count: tg.len() as int,
                        name_count: ns.len() as int,
                        gated_by_supply: g,
                    },
                ),
            },
            _ => Outcome::Fail(Some("transdefs is not an array"@)),
        },
    }
}

/// The middle stage: the polygons. A node count past the largest
/// allocation (`isize::MAX` bytes) is an input the reader cannot survive.
pub open spec fn seg_stage(
    seg: Seq<u8>,
    trans: Seq<u8>,
    ns: Seq<(Seq<char>, int)>,
    vss: u32,
    vcc: u32,
) -> Outcome<ParsedModel> {
    match decl_value(seg, vstd::utf8::encode_utf8(key_segdefs())) {
        Reading::Abort => Outcome::Crash,
        Reading::Bad(m) => Outcome::Fail(decl_fail(seg, key_segdefs(), m)),
        Reading::Good(sv, _) => match sv {
            SVal::Arr(segs) => match seg_count(segs) {
                Outcome::Crash => Outcome::Crash,
                Outcome::Fail(m) => Outcome::Fail(m),
                Outcome::Done(c0) => {
                    let count = name_bump(c0, ns);
                    if count > isize::MAX {
                        Outcome::Crash
                    } else {
                        match seg_pass(segs, count as nat) {
                            Err(m) => Outcome::Fail(Some(m)),
                            Ok((ex, pu, polys)) => trans_stage(
                                trans,
                                ns,
                                vss,
                                vcc,
                                count,
                                ex,
                                pu,
                                polys,
                            ),
                        }
                    }
                },
            },
            _ => Outcome::Fail(Some("segdefs is not an array"@)),
        },
    }
}

/// What parsing the three files gives: the names (and the rails among
/// them), then the polygons, then the transistors, each stage failing or
/// ending the parse as described there.
pub open spec fn parse_spec(
    seg: Seq<u8>,
    trans: Seq<u8>,
    nn: Seq<u8>,
    ground: Seq<char>,
    supply: Seq<char>,
) -> Outcome<ParsedModel> {
    match decl_value(nn, vstd::utf8::encode_utf8(key_nodenames())) {
        Reading::Abort => Outcome::Crash,
        Reading::Bad(m) => Outcome::Fail(decl_fail(nn, key_nodenames(), m)),
        Reading::Good(nv, _) => match nv {
            SVal::Obj(es) => match name_nums(es) {
                None => Outcome::Fail(Some(name_msg(es))),
                Some(ns) => match (last_num(ns, ground), last_num(ns, supply)) {
                    (Some(g), Some(s)) => seg_stage(seg, trans, ns, g as u32, s as u32),
                    (None, _) => Outcome::Fail(rail_msg(ground)),
                    _ => Outcome::Fail(rail_msg(supply)),
                },
            },
            _ => Outcome::Fail(Some("nodenames is not an object"@)),
        },
    }
}

/// What parsing a chip source gives.
pub open spec fn chip_outcome(src: ChipSource) -> Outcome<ParsedModel> {
    parse_spec(
        src.segdefs.spec_bytes(),
        src.transdefs.spec_bytes(),
        src.nodenames.spec_bytes(),
        src.rails.ground@,
        src.rails.supply@,
    )
}

/// The transistors, and the blob.
fn finish(
    transdefs_src: &str,
    names: &Vec<(String, i64)>,
    vss: u32,
    vcc: u32,
    count: usize,
    exists: Vec<bool>,
    pullup: Vec<bool>,
    polygons: Vec<Polygon>,
) -> (r: Result<Parsed, String>)
    requires
        transdefs_src.spec_bytes().len() < usize::MAX,
    ensures
        match trans_stage(
            transdefs_src.spec_bytes(),
            names_view(names@),
            vss,
            vcc,
            count as int,
            exists@,
            pullup@,
            poly_models(polygons@),
        ) {
            Outcome::Done(m) => r matches Ok(p) && p.model() == m,
            Outcome::Fail(m) => err_text(r, m),
            Outcome::Crash => r is Err,
        },
{
    proof {
        reveal_strlit("transdefs");
    }
    assert("transdefs"@ =~= key_transdefs());
    let transdefs = match parse_decl_checked(transdefs_src, "transdefs") {
        Ok(v) => v,
        Err(e) => {
            return Err(e);
        },
    };
    let trans = match transdefs.as_arr() {
        Some(a) => a,
        None => {
            return Err(String::from_str("transdefs is not an array"));
        },
    };
    let (tg, gate_boxes, gated) = match transistors(trans, vss, vcc, &exists) {
        Ok(x) => x,
        Err(e) => {
            return Err(e);
        },
    };
    let blob = encode(count, &tg, names, vss, vcc, &exists, &pullup);
    Ok(
        Parsed {
            blob,
            polygons,
            gate_boxes,
            node_count: count,
            transistor_count: tg.len(),
            name_count: names.len(),
            gated_by_supply: gated,
        },
    )
}

/// The polygons, then the rest.
fn polygons_then(
    segdefs_src: &str,
    transdefs_src: &str,
    names: &Vec<(String, i64)>,
    vss: u32,
    vcc: u32,
) -> (r: Result<Parsed, String>)
    requires
        segdefs_src.spec_bytes().len() < usize::MAX,
        transdefs_src.spec_bytes().len() < usize::MAX,
    ensures
        match seg_stage(
            segdefs_src.spec_bytes(),
            transdefs_src.spec_bytes(),
            names_view(names@),
            vss,
            vcc,
        ) {
            Outcome::Done(m) => r matches Ok(p) && p.model() == m,
            Outcome::Fail(m) => err_text(r, m),
            Outcome::Crash => r is Err,
        },
{
    proof {
        reveal_strlit("segdefs");
    }
    assert("segdefs"@ =~= key_segdefs());
    let ghost ns = names_view(names@);
    let segdefs = match parse_decl_checked(segdefs_src, "segdefs") {
        Ok(v) => v,
        Err(e) => {
            return Err(e);
        },
    };
    let segs = match segdefs.as_arr() {
        Some(a) => a,
        None => {
            return Err(String::from_str("segdefs is not an array"));
        },
    };
    let count0 = match count_nodes(segs) {
        Ok(c) => c,
        Err(e) => {
            return Err(e);
        },
    };
    let count = bump_for_names(count0, names);
    if count > isize::MAX as usize {
        return Err(String::from_str("node count past the largest allocation"));
    }
    proof {
        lemma_seg_count_bound(sv_list(segs@));
        lemma_name_bump_grows(count0 as int, ns);
    }
    let (exists, pullup, polygons) = match seg_polygons(segs, count) {
        Ok(x) => x,
        Err(e) => {
            return Err(e);
        },
    };
    finish(transdefs_src, names, vss, vcc, count, exists, pullup, polygons)
}

/// Parse one chip's three files into a netlist blob and its geometry.
///
/// Two details are deliberate and not to be tidied: a
/// node's pullup comes from the first polygon that mentions it, not from
/// all of them, and a transistor's ends are normalised by two sequential
/// steps, the second seeing the first's result.
///
/// For files known to be readable: a string left open where more must
/// follow, a node number at the top of `usize`, or a node count past the
/// largest allocation is outside what this reads (see `parse_checked`).
pub fn parse(src: &ChipSource) -> (r: Result<Parsed, String>)
    requires
        src.segdefs.spec_bytes().len() < usize::MAX,
        src.transdefs.spec_bytes().len() < usize::MAX,
        src.nodenames.spec_bytes().len() < usize::MAX,
        !(chip_outcome(*src) is Crash),
    ensures
        match chip_outcome(*src) {
            Outcome::Done(m) => r matches Ok(p) && p.model() == m,
            Outcome::Fail(m) => err_text(r, m),
            Outcome::Crash => r is Err,
        },
{
    parse_checked(src)
}

/// `parse` for any files: where the reader could not get past them (a
/// string left open where more must follow, a node number at the top of
/// `usize`, a node count past the largest allocation), the answer is an
/// error too.
pub fn parse_checked(src: &ChipSource) -> (r: Result<Parsed, String>)
    requires
        src.segdefs.spec_bytes().len() < usize::MAX,
        src.transdefs.spec_bytes().len() < usize::MAX,
        src.nodenames.spec_bytes().len() < usize::MAX,
    ensures
        match chip_outcome(*src) {
            Outcome::Done(m) => r matches Ok(p) && p.model() == m,
            Outcome::Fail(m) => err_text(r, m),
            Outcome::Crash => r is Err,
        },
{
    proof {
        reveal_strlit("nodenames");
    }
    assert("nodenames"@ =~= key_nodenames());
    let nodenames = match parse_decl_checked(src.nodenames, "nodenames") {
        Ok(v) => v,
        Err(e) => {
            return Err(e);
        },
    };
    let names = match name_table(&nodenames) {
        Ok(t) => t,
        Err(e) => {
            return Err(e);
        },
    };
    let vss = match rail(&names, src.rails.ground) {
        Ok(v) => v,
        Err(e) => {
            return Err(e);
        },
    };
    let vcc = match rail(&names, src.rails.supply) {
        Ok(v) => v,
        Err(e) => {
            return Err(e);
        },
    };
    polygons_then(src.segdefs, src.transdefs, &names, vss, vcc)
}

// ---------------------------------------------------------------------------
// Messages
// ---------------------------------------------------------------------------

/// The error for a names entry whose value is not a number.
fn fmt_not_a_number(name: &str) -> (r: String)
    ensures
        r@ == "nodename "@ + name@ + " is not a number"@,
{
    let mut s = String::from_str("nodename ");
    s.append(name);
    s.append(" is not a number");
    s
}

/// `format!("short transdef entry: {:?}", a)`.
#[verifier::external_body]
fn fmt_short_transdef_debug(a: &[Val]) -> String {
    format!("short transdef entry: {:?}", a)
}

/// How `{:?}` shows one item of a flat entry: a number, a printable-ASCII
/// string, a boolean or null, each as the variant that holds it.
pub open spec fn item_shown(v: SVal) -> Option<Seq<char>> {
    match v {
        SVal::Num(n) => Some("Num("@ + signed_decimal(n) + ")"@),
        SVal::Str(w) => match str_shown(w) {
            Some(x) => Some("Str("@ + x + ")"@),
            None => None,
        },
        SVal::Bool(b) => Some(
            if b {
                "Bool(true)"@
            } else {
                "Bool(false)"@
            },
        ),
        SVal::Null => Some("Null"@),
        _ => None,
    }
}

/// The items of a flat entry as `{:?}` lists them, `, ` between.
pub open spec fn items_shown(a: Seq<SVal>) -> Option<Seq<char>>
    decreases a.len(),
{
    if a.len() == 0 {
        Some(Seq::empty())
    } else {
        match (items_shown(a.drop_last()), item_shown(a.last())) {
            (Some(p), Some(x)) => Some(
                if a.len() == 1 {
                    x
                } else {
                    p + ", "@ + x
                },
            ),
            _ => None,
        }
    }
}

/// The error for a transistor entry with fewer than four items, for an
/// entry of numbers, printable-ASCII strings, booleans and nulls.
pub open spec fn short_msg(a: Seq<SVal>) -> Option<Seq<char>> {
    match items_shown(a) {
        Some(x) => Some("short transdef entry: ["@ + x + "]"@),
        None => None,
    }
}

/// Append one item as `item_shown` shows it, or say that it cannot.
fn push_item(s: &mut String, v: &Val) -> (ok: bool)
    ensures
        ok == (item_shown(v.sv()) is Some),
        ok ==> final(s)@ == old(s)@ + item_shown(v.sv())->Some_0,
        !ok ==> final(s)@ == old(s)@,
{
    match v {
        Val::Num(n) => {
            s.append("Num(");
            append_i64(s, *n);
            s.append(")");
            true
        },
        Val::Str(w) => {
            if is_printable(w.as_str()) {
                s.append("Str(");
                push_str_shown(s, w.as_str());
                s.append(")");
                true
            } else {
                false
            }
        },
        Val::Bool(b) => {
            if *b {
                s.append("Bool(true)");
            } else {
                s.append("Bool(false)");
            }
            true
        },
        Val::Null => {
            s.append("Null");
            true
        },
        _ => false,
    }
}

/// The error for a transistor entry with fewer than four items.
fn fmt_short_transdef(a: &[Val]) -> (r: String)
    ensures
        short_msg(sv_list(a@)) is Some ==> r@ == short_msg(sv_list(a@))->Some_0,
{
    let ghost av = sv_list(a@);
    proof {
        lemma_sv_list_len(a@);
    }
    let mut s = String::from_str("short transdef entry: [");
    let ghost head = s@;
    let mut i: usize = 0;
    while i < a.len()
        invariant
            0 <= i <= a@.len(),
            av == sv_list(a@),
            av.len() == a@.len(),
            items_shown(av.take(i as int)) is Some,
            s@ == head + items_shown(av.take(i as int))->Some_0,
        decreases a@.len() - i,
    {
        proof {
            lemma_sv_list_index(a@, i as int);
            assert(av.take(i + 1).drop_last() =~= av.take(i as int));
            assert(av.take(i + 1).last() == av[i as int]);
        }
        if i > 0 {
            s.append(", ");
        }
        let ghost before = s@;
        if !push_item(&mut s, &a[i]) {
            proof {
                lemma_items_stuck(av, i as int + 1);
                assert(av.take(a@.len() as int) =~= av);
            }
            return fmt_short_transdef_debug(a);
        }
        assert(s@ =~= head + items_shown(av.take(i + 1))->Some_0);
        i = i + 1;
    }
    assert(av.take(a@.len() as int) =~= av);
    s.append("]");
    s
}

/// An item that cannot be shown leaves the whole list unshown.
proof fn lemma_items_stuck(a: Seq<SVal>, k: int)
    requires
        0 < k <= a.len(),
        items_shown(a.take(k)) is None,
    ensures
        items_shown(a) is None,
    decreases a.len() - k,
{
    if k < a.len() {
        assert(a.take(k + 1).drop_last() =~= a.take(k));
        lemma_items_stuck(a, k + 1);
    } else {
        assert(a.take(k) =~= a);
    }
}

/// The error for a transistor end on a node no polygon belongs to.
fn fmt_unknown_node(n: u32) -> (r: String)
    ensures
        r@ == unknown_msg(n),
{
    let mut s = String::from_str("transistor references unknown node ");
    append_decimal(&mut s, n as usize);
    s
}

/// `format!("no rail called {:?} in nodenames", which)`.
#[verifier::external_body]
fn fmt_no_rail_debug(which: &str) -> String {
    format!("no rail called {:?} in nodenames", which)
}

/// The error for a rail name with no entry.
fn fmt_no_rail(which: &str) -> (r: String)
    ensures
        rail_msg(which@) is Some ==> r@ == rail_msg(which@)->Some_0,
{
    if is_printable(which) {
        let mut s = String::from_str("no rail called ");
        push_str_shown(&mut s, which);
        s.append(" in nodenames");
        s
    } else {
        fmt_no_rail_debug(which)
    }
}

} // verus!

use std::sync::Arc;

use halfphi::engine::Drive;
use halfphi::netlist::Netlist;
use halfphi::slice::{SliceNetlist, SliceState};
use halfphi::source::{parse_decl, parse_decl_checked, Val};
use halfphi::{parse, parse_checked, BitSet, ChipSource, ChipState, DecodeError, Engine, Probe, Rails};

/// An inverter: `in` gates a transistor from `out` to ground, and `out` has
/// a pullup. Node 4 is a gap that no polygon owns.
const SEGDEFS: &str = "var segdefs = [
[0,'-',1,0,0,10,0,10,10],
[1,'-',1,20,0,30,0,30,10],
[2,'-',2,0,20,10,20,10,30],
[3,'+',3,20,20,30,20,30,30],
[3,'-',4,40,40,50,40,50,50],
[5,'-',0,1,1],
];";

const TRANSDEFS: &str = "var transdefs = [
['t0',2,3,0,[1,2,3,4],[5,6,7,8]],
];";

const NODENAMES: &str = "var nodenames = {
vss: 0,
vcc: 1,
in: 2,
out: 3,
// the status register has no bit 5
p5: -1,
};";

fn source<'a>() -> ChipSource<'a> {
    ChipSource {
        segdefs: SEGDEFS,
        transdefs: TRANSDEFS,
        nodenames: NODENAMES,
        rails: Rails::default(),
    }
}

fn inverter() -> Netlist {
    let parsed = parse(&source()).expect("parse");
    Netlist::decode(&parsed.blob).expect("decode")
}

// ---------------------------------------------------------------------------
// BitSet
// ---------------------------------------------------------------------------

#[test]
fn bitset_set_get_clear() {
    let mut b = BitSet::new(130);
    assert_eq!(b.len(), 130);
    assert!(!b.is_empty());
    assert!(!b.get(129));
    b.set(129);
    b.set(0);
    b.set(64);
    assert!(b.get(129) && b.get(0) && b.get(64));
    assert_eq!(b.count_ones(), 3);
    b.clear(64);
    assert!(!b.get(64));
    b.put(5, true);
    assert!(b.get(5));
    b.put(5, false);
    assert!(!b.get(5));
    assert_eq!(b.as_words().len(), 3);
    assert_eq!(b.as_words()[2], 2);
    assert!(BitSet::new(0).is_empty());
}

#[test]
fn bitset_insert_if_and_test_and_set() {
    let mut b = BitSet::new(10);
    assert!(!b.insert_if(3, false));
    assert!(!b.get(3));
    assert!(b.insert_if(3, true));
    assert!(b.get(3));
    assert!(!b.insert_if(3, true));
    assert!(!b.test_and_set(7));
    assert!(b.test_and_set(7));
    b.clear_only(&[3, 7]);
    assert_eq!(b.count_ones(), 0);
    b.set(1);
    b.set(9);
    let mut c = BitSet::new(10);
    c.copy_from(&b);
    assert!(c.get(1) && c.get(9) && !c.get(2));
    let d = b.duplicate();
    assert_eq!(d.count_ones(), 2);
    b.clear_all();
    assert_eq!(b.count_ones(), 0);
}

// ---------------------------------------------------------------------------
// Reading the literals
// ---------------------------------------------------------------------------

#[test]
fn parse_decl_reads_nested_literals() {
    let v = parse_decl(
        "/* head */ var x = [1, -2, 'a', \"b\", [true, false, null], {k: 3, 'q': +4}]; // tail",
        "x",
    )
    .unwrap();
    let a = v.as_arr().unwrap();
    assert_eq!(a.len(), 6);
    assert_eq!(a[0].as_num(), Some(1));
    assert_eq!(a[1].as_num(), Some(-2));
    assert_eq!(a[2].as_str(), Some("a"));
    assert_eq!(a[3].as_str(), Some("b"));
    let inner = a[4].as_arr().unwrap();
    assert!(matches!(inner[0], Val::Bool(true)));
    assert!(matches!(inner[1], Val::Bool(false)));
    assert!(matches!(inner[2], Val::Null));
    match &a[5] {
        Val::Obj(o) => {
            assert_eq!(o.len(), 2);
            assert_eq!(o[0].0, "k");
            assert_eq!(o[0].1.as_num(), Some(3));
            assert_eq!(o[1].0, "q");
            assert_eq!(o[1].1.as_num(), Some(4));
        }
        _ => panic!("not an object"),
    }
}

#[test]
fn parse_decl_accepts_both_spacings_and_trailing_dot_zero() {
    assert_eq!(parse_decl("y= 12.0", "y").unwrap().as_num(), Some(12));
    assert_eq!(parse_decl("y = 7", "y").unwrap().as_num(), Some(7));
    // `name =` is looked for before `name=`.
    assert_eq!(parse_decl("y=1; y = 2", "y").unwrap().as_num(), Some(2));
}

#[test]
fn parse_decl_errors() {
    let e = parse_decl("var z = 1", "w").unwrap_err();
    assert_eq!(e, "declaration of `w` not found");
    let e = parse_decl("w = ?", "w").unwrap_err();
    assert_eq!(e, "unexpected byte '?' at offset 1");
    let e = parse_decl("w = [1 2]", "w").unwrap_err();
    assert_eq!(e, "expected , or ] got '2' at 4");
    let e = parse_decl("w = {: 1}", "w").unwrap_err();
    assert_eq!(e, "empty object key at 2");
    let e = parse_decl("w = {a 1}", "w").unwrap_err();
    assert_eq!(e, "expected : after key \"a\" at 4");
    let e = parse_decl("w = {a: 1 2}", "w").unwrap_err();
    assert_eq!(e, "expected , or } got '2' at 7");
    let e = parse_decl("w = tru", "w").unwrap_err();
    assert_eq!(e, "unknown keyword at offset 1");
    let e = parse_decl("w = -", "w").unwrap_err();
    assert!(e.starts_with("bad number \"-\" at 1: "));
    let e = parse_decl("w = 99999999999999999999", "w").unwrap_err();
    assert!(e.starts_with("bad number \"99999999999999999999\" at 1: "));
}

#[test]
fn val_accessors() {
    assert_eq!(Val::Num(3).as_num(), Some(3));
    assert_eq!(Val::Str("s".to_string()).as_num(), None);
    assert_eq!(Val::Str("s".to_string()).as_str(), Some("s"));
    assert_eq!(Val::Null.as_str(), None);
    assert!(Val::Bool(true).as_arr().is_none());
    assert_eq!(Val::Arr(vec![Val::Null]).as_arr().unwrap().len(), 1);
}

// ---------------------------------------------------------------------------
// Parsing a chip
// ---------------------------------------------------------------------------

#[test]
fn parse_counts_and_geometry() {
    let p = parse(&source()).unwrap();
    // Node 5 is the largest polygon node.
    assert_eq!(p.node_count, 6);
    assert_eq!(p.transistor_count, 1);
    assert_eq!(p.name_count, 5);
    assert_eq!(p.gated_by_supply, 0);
    // Four polygons have at least three points; node 5's has one.
    assert_eq!(p.polygons.len(), 5);
    assert_eq!(p.polygons[3].node, 3);
    assert_eq!(p.polygons[3].layer, 3);
    assert_eq!(p.polygons[3].pts, vec![(20, 20), (30, 20), (30, 30)]);
    assert_eq!(p.polygons[4].layer, 4);
    assert_eq!(p.gate_boxes, vec![[1, 2, 3, 4]]);
}

#[test]
fn parse_encodes_the_blob_byte_for_byte() {
    let p = parse(&source()).unwrap();
    let mut want: Vec<u8> = b"HALFPHI1".to_vec();
    for v in [6u32, 1, 5, 0, 1] {
        want.extend_from_slice(&v.to_le_bytes());
    }
    // exists: nodes 0, 1, 2, 3, 5; pullup: node 3 (its first polygon).
    want.push(0b0010_1111);
    want.push(0b0000_1000);
    // transistor: gate 2, c1 3, c2 0.
    for v in [2u16, 3, 0] {
        want.extend_from_slice(&v.to_le_bytes());
    }
    for (name, node) in [("vss", 0i32), ("vcc", 1), ("in", 2), ("out", 3), ("p5", -1)] {
        want.extend_from_slice(&(name.len() as u16).to_le_bytes());
        want.extend_from_slice(name.as_bytes());
        want.extend_from_slice(&node.to_le_bytes());
    }
    assert_eq!(p.blob, want);
}

#[test]
fn parse_normalises_rails_into_second_place() {
    let t = "var transdefs = [['a',2,0,3],['b',2,1,0],['c',1,3,1]];";
    let src = ChipSource { transdefs: t, ..source() };
    let p = parse(&src).unwrap();
    let nl = Netlist::decode(&p.blob).unwrap();
    // vss first: swapped.
    assert_eq!((nl.transistor_c1(0), nl.transistor_c2(0)), (3, 0));
    // vcc then vss: the first step leaves it, the second swaps.
    assert_eq!((nl.transistor_c1(1), nl.transistor_c2(1)), (0, 1));
    assert_eq!(p.gated_by_supply, 1);
}

#[test]
fn parse_pullup_comes_from_the_first_polygon() {
    let s = "var segdefs = [[0,'-',1],[1,'-',1],[2,'-',1],[3,'-',1],[3,'+',1]];";
    let src = ChipSource { segdefs: s, ..source() };
    let nl = Netlist::decode(&parse(&src).unwrap().blob).unwrap();
    assert!(!nl.pullups().get(3));
}

#[test]
fn parse_errors() {
    let bad = |segdefs: &'static str, transdefs: &'static str, nodenames: &'static str| {
        match parse(&ChipSource { segdefs, transdefs, nodenames, rails: Rails::default() }) {
            Ok(_) => panic!("parsed"),
            Err(e) => e,
        }
    };
    assert_eq!(bad(SEGDEFS, TRANSDEFS, "var nodenames = [1];"), "nodenames is not an object");
    assert_eq!(bad(SEGDEFS, TRANSDEFS, "var nodenames = {vss: 'x'};"), "nodename vss is not a number");
    assert_eq!(bad(SEGDEFS, TRANSDEFS, "var nodenames = {vss: 0};"), "no rail called \"vcc\" in nodenames");
    assert_eq!(bad("var segdefs = 3;", TRANSDEFS, NODENAMES), "segdefs is not an array");
    assert_eq!(bad("var segdefs = [3];", TRANSDEFS, NODENAMES), "segdef entry is not an array");
    assert_eq!(bad("var segdefs = [[]];", TRANSDEFS, NODENAMES), "segdef entry has no node number");
    assert_eq!(bad("var segdefs = [[1,'+']];", TRANSDEFS, NODENAMES), "segdef entry has no layer");
    assert_eq!(
        bad("var segdefs = [[1,'+',0,1,2,3,4,'x',6]];", TRANSDEFS, NODENAMES),
        "non-numeric polygon x"
    );
    assert_eq!(bad(SEGDEFS, "var transdefs = {};", NODENAMES), "transdefs is not an array");
    assert_eq!(bad(SEGDEFS, "var transdefs = [7];", NODENAMES), "transdef entry is not an array");
    assert_eq!(bad(SEGDEFS, "var transdefs = [['t',1,2]];", NODENAMES), "short transdef entry: [Str(\"t\"), Num(1), Num(2)]");
    assert_eq!(bad(SEGDEFS, "var transdefs = [['t','g',2,3]];", NODENAMES), "transdef gate");
    assert_eq!(
        bad(SEGDEFS, "var transdefs = [['t',4,2,3]];", NODENAMES),
        "transistor references unknown node 4"
    );
}

#[test]
fn rails_default_is_vss_and_vcc() {
    let r = Rails::default();
    assert_eq!(r.ground, "vss");
    assert_eq!(r.supply, "vcc");
}

// ---------------------------------------------------------------------------
// Decoding
// ---------------------------------------------------------------------------

#[test]
fn decode_gives_back_what_parse_encoded() {
    let nl = inverter();
    assert_eq!(nl.node_count(), 6);
    assert_eq!(nl.transistor_count(), 1);
    assert_eq!((nl.vss(), nl.vcc()), (0, 1));
    assert!(nl.is_rail(0) && nl.is_rail(1) && !nl.is_rail(2));
    assert!(nl.node_exists(3) && !nl.node_exists(4) && nl.node_exists(5));
    assert!(nl.pullups().get(3) && !nl.pullups().get(2));
    assert_eq!(nl.transistor_gate(0), 2);
    assert_eq!(nl.gates_of(2).to_vec(), vec![0]);
    assert!(nl.gates_of(3).is_empty());
    // Rails get no terminals.
    assert!(nl.terminals_of(0).is_empty());
    assert_eq!(nl.terminals_of(3).len(), 1);
    assert_eq!(nl.terminals_of(3)[0].other, 0);
    assert_eq!(nl.node("out"), Some(3));
    // A record pointing at no node is left out.
    assert_eq!(nl.node("p5"), None);
    assert_eq!(nl.name_of(2), Some("in"));
    assert_eq!(nl.name_of(4), None);
}

#[test]
fn decode_errors() {
    assert!(matches!(Netlist::decode(b"HALF"), Err(DecodeError::Truncated)));
    assert!(matches!(Netlist::decode(b"HALFPHI2xxxxxxxxxxxxxxxxxxxxxxxx"), Err(DecodeError::BadMagic)));
    let p = parse(&source()).unwrap();
    let cut = &p.blob[..p.blob.len() - 1];
    assert!(matches!(Netlist::decode(cut), Err(DecodeError::Truncated)));
    assert_eq!(DecodeError::BadMagic.message(), "netlist blob has wrong magic");
    assert_eq!(DecodeError::Truncated.message(), "netlist blob is truncated");
}

#[test]
fn names_bus_and_width() {
    let s = "var nodenames = {vss: 0, vcc: 1, d0: 2, d1: 3, d0: 3, x2: 5};";
    let src = ChipSource { nodenames: s, ..source() };
    let nl = Netlist::decode(&parse(&src).unwrap().blob).unwrap();
    // The later record of a name wins.
    assert_eq!(nl.node("d0"), Some(3));
    assert_eq!(nl.name_of(3), Some("d1"));
    let mut names = nl.names();
    names.sort();
    assert_eq!(names, vec![("d0", 3), ("d1", 3), ("vcc", 1), ("vss", 0), ("x2", 5)]);
    assert_eq!(nl.bus("d", 2), Some(vec![3, 3]));
    assert_eq!(nl.bus("d", 3), None);
    assert_eq!(nl.bus_width("d"), 2);
    assert_eq!(nl.bus_width("x"), 0);
    assert_eq!(nl.bus("x", 0), Some(vec![]));
}

#[test]
fn holds_and_areas() {
    let mut nl = inverter();
    assert!(!nl.any_rail_conflict_hold(&[2, 3]));
    nl.set_node_areas(vec![1, 2, 3, 4, 5, 6]);
    assert_eq!(nl.node_area(3), 4);
    nl.set_rail_conflict_holds(&[3]);
    assert!(nl.any_rail_conflict_hold(&[2, 3]));
    assert!(!nl.any_rail_conflict_hold(&[2]));
}

// ---------------------------------------------------------------------------
// The engine
// ---------------------------------------------------------------------------

#[test]
fn drive_order_and_levels() {
    assert!(Drive::Vcc.level() && Drive::PullUp.level() && Drive::ChargedHigh.level());
    assert!(!Drive::Vss.level() && !Drive::PullDown.level() && !Drive::Floating.level());
}

#[test]
fn the_inverter_inverts() {
    let mut eng = Engine::new(Arc::new(inverter()));
    eng.force_power_on_state();
    eng.restore_layout_pulls();
    eng.settle_all();
    assert_eq!(eng.stats().nonconvergent_settles, 0);
    eng.drive_low(2);
    assert!(!eng.is_high(2));
    assert!(eng.is_high(3));
    eng.drive_high(2);
    assert!(eng.is_high(2));
    assert!(!eng.is_high(3));
    assert_eq!(eng.read_bus(&[2, 3]), 0b01);
    // The rails keep their levels.
    assert!(eng.is_high(1) && !eng.is_high(0));
    assert_eq!(eng.state_string(), "gvhlxl");
    let mut g = eng.group_of(3);
    g.sort();
    assert_eq!(g, vec![0, 3]);
    assert_eq!(eng.group_of(4), Vec::<u16>::new());
    assert_eq!(eng.stats().contested_groups, 0);
    eng.reset_stats();
    assert_eq!(eng.stats().settles, 0);
}

#[test]
fn pulldown_beats_pullup_in_a_contested_group() {
    let mut eng = Engine::new(Arc::new(inverter()));
    eng.force_power_on_state();
    eng.restore_layout_pulls();
    // `out` carries a layout pullup; pull it down too.
    eng.state_mut().pulldown.set(3);
    eng.settle(&[3]);
    assert!(!eng.is_high(3));
    assert_eq!(eng.stats().contested_groups, 1);
}

#[test]
fn set_pull_then_settle() {
    let mut eng = Engine::new(Arc::new(inverter()));
    eng.force_power_on_state();
    eng.restore_layout_pulls();
    eng.set_pull(2, true);
    assert!(eng.state().pullup.get(2) && !eng.state().pulldown.get(2));
    eng.settle(&[2]);
    assert!(!eng.is_high(3));
    assert_eq!(eng.netlist().node_count(), 6);
    assert_eq!(eng.netlist_arc().transistor_count(), 1);
}

#[test]
fn chip_state_snapshot() {
    let nl = inverter();
    let a = ChipState::new(&nl);
    assert!(a.pullup.get(3));
    let mut b = ChipState::new(&nl);
    b.value.set(2);
    b.copy_from(&a);
    assert!(!b.value.get(2));
}

#[test]
fn probe_groups_and_marks() {
    let mut p = Probe::default();
    assert!(p.is_empty());
    p.seed = vec![2, 3];
    p.changed = vec![true, false];
    p.start = vec![0, 2];
    p.members = vec![2, 3, 3];
    p.mark(7);
    assert_eq!(p.len(), 2);
    assert_eq!(p.group(0).to_vec(), vec![2, 3]);
    assert_eq!(p.group(1).to_vec(), vec![3]);
    assert_eq!(p.marks, vec![(7, 2)]);
}

// ---------------------------------------------------------------------------
// The bit-sliced kernel
// ---------------------------------------------------------------------------

#[test]
fn slice_lanes_agree_with_the_engine() {
    let nl = inverter();
    let snl = SliceNetlist::new(&nl);
    let mut eng = Engine::new(Arc::new(nl));
    eng.force_power_on_state();
    eng.restore_layout_pulls();
    eng.settle_all();
    let mut s = SliceState::new(&snl);
    s.load_lane(0, eng.state());
    s.load_lane(1, eng.state());
    s.set_pull(0, 2, true);
    s.set_pull(1, 2, false);
    let rounds = s.settle(&snl, 100);
    assert!(rounds < 100);
    assert!(!s.is_high(0, 3));
    assert!(s.is_high(1, 3));
    // Lane 0 drove `in` high and lane 1 drove it low: each lane now holds
    // what the engine settles to under the same drive.
    let mut high = Engine::new(Arc::new(inverter()));
    let mut low = Engine::new(Arc::new(inverter()));
    for e in [&mut high, &mut low] {
        e.force_power_on_state();
        e.restore_layout_pulls();
        e.settle_all();
    }
    high.drive_high(2);
    low.drive_low(2);
    for n in 0..6u16 {
        assert_eq!(s.is_high(0, n), high.is_high(n), "lane 0, node {n}");
        assert_eq!(s.is_high(1, n), low.is_high(n), "lane 1, node {n}");
    }
    assert_eq!(s.read_bus(0, &[2, 3]), 0b01);
    assert_eq!(s.read_bus(1, &[2, 3]), 0b10);
    s.set_pull_all(2, true);
    s.settle(&snl, 100);
    assert!(!s.is_high(1, 3));
    s.set_pull_mask(2, 0b10);
    s.settle(&snl, 100);
    assert!(s.is_high(0, 3) && !s.is_high(1, 3));
    s.set_pull_where(2, 0b01, 0b01);
    s.settle(&snl, 100);
    assert!(!s.is_high(0, 3) && !s.is_high(1, 3));
}

// ---------------------------------------------------------------------------
// Charge rules, holds, and what settling keeps
// ---------------------------------------------------------------------------

/// `g` gates a transistor joining `a` and `b`; nothing pulls either.
fn pass_gate() -> Netlist {
    let src = ChipSource {
        segdefs: "var segdefs = [[0,'-',1],[1,'-',1],[2,'-',1],[3,'-',1],[4,'-',1]];",
        transdefs: "var transdefs = [['t0',2,3,4]];",
        nodenames: "var nodenames = {vss: 0, vcc: 1, g: 2, a: 3, b: 4};",
        rails: Rails::default(),
    };
    Netlist::decode(&parse(&src).unwrap().blob).unwrap()
}

fn charge_a_then_open(nl: Netlist) -> Engine {
    let mut eng = Engine::new(Arc::new(nl));
    eng.force_power_on_state();
    eng.restore_layout_pulls();
    eng.state_mut().value.set(3);
    eng.drive_high(2);
    eng
}

#[test]
fn any_high_keeps_a_charged_group_high() {
    let eng = charge_a_then_open(pass_gate());
    assert!(eng.is_high(3) && eng.is_high(4));
    assert_eq!(eng.stats().area_vote_lows, 0);
    assert_eq!(eng.stats().rail_conflict_holds, 0);
}

#[test]
fn the_area_vote_lets_a_small_charge_lose() {
    let mut nl = pass_gate();
    nl.set_node_areas(vec![0, 0, 0, 1, 5]);
    nl.set_charge_rule(halfphi::ChargeRule::AreaVote);
    assert_eq!(nl.charge_rule(), halfphi::ChargeRule::AreaVote);
    let eng = charge_a_then_open(nl);
    assert!(!eng.is_high(3) && !eng.is_high(4));
    assert_eq!(eng.stats().area_vote_lows, 1);
}

#[test]
fn the_area_vote_lets_a_large_charge_win() {
    let mut nl = pass_gate();
    nl.set_node_areas(vec![0, 0, 0, 5, 1]);
    nl.set_charge_rule(halfphi::ChargeRule::AreaVote);
    let eng = charge_a_then_open(nl);
    assert!(eng.is_high(3) && eng.is_high(4));
    assert_eq!(eng.stats().area_vote_lows, 0);
}

/// `g` joins `m` (which has a pullup) to both rails at once.
fn both_rails() -> Netlist {
    let src = ChipSource {
        segdefs: "var segdefs = [[0,'-',1],[1,'-',1],[2,'-',1],[3,'+',1]];",
        transdefs: "var transdefs = [['t0',2,3,0],['t1',2,3,1]];",
        nodenames: "var nodenames = {vss: 0, vcc: 1, g: 2, m: 3};",
        rails: Rails::default(),
    };
    Netlist::decode(&parse(&src).unwrap().blob).unwrap()
}

#[test]
fn ground_wins_a_group_on_both_rails() {
    let mut eng = Engine::new(Arc::new(both_rails()));
    eng.force_power_on_state();
    eng.restore_layout_pulls();
    eng.drive_high(2);
    assert!(!eng.is_high(3));
    assert_eq!(eng.stats().rail_conflict_holds, 0);
    // Neither rail's stored level moved.
    assert!(eng.is_high(1) && !eng.is_high(0));
}

#[test]
fn a_marked_node_makes_the_rails_cancel() {
    let mut nl = both_rails();
    nl.set_node_areas(vec![1, 1, 1, 1]);
    nl.set_rail_conflict_holds(&[3]);
    let mut eng = Engine::new(Arc::new(nl));
    eng.force_power_on_state();
    eng.restore_layout_pulls();
    eng.drive_high(2);
    // The pullup decides.
    assert!(eng.is_high(3));
    assert!(eng.stats().rail_conflict_holds >= 1);
    assert!(eng.is_high(1) && !eng.is_high(0));
}

#[test]
fn a_lane_settles_the_same_whatever_the_others_hold() {
    let nl = inverter();
    let snl = SliceNetlist::new(&nl);
    let mut eng = Engine::new(Arc::new(nl));
    eng.force_power_on_state();
    eng.restore_layout_pulls();
    eng.settle_all();
    // Lane 5 alone.
    let mut alone = SliceState::new(&snl);
    alone.load_lane(5, eng.state());
    alone.set_pull(5, 2, true);
    alone.settle(&snl, 100);
    // Lane 5 beside 63 others doing something else.
    let mut crowd = SliceState::new(&snl);
    for lane in 0..64 {
        crowd.load_lane(lane, eng.state());
    }
    crowd.set_pull_mask(2, 0xaaaa_aaaa_aaaa_aaaa | (1 << 5));
    crowd.settle(&snl, 100);
    for n in 0..6u16 {
        assert_eq!(alone.is_high(5, n), crowd.is_high(5, n), "node {n}");
    }
    assert!(!crowd.is_high(5, 3) && crowd.is_high(0, 3) && !crowd.is_high(1, 3));
}

#[test]
fn names_are_read_as_utf8_with_replacement() {
    let s = "var nodenames = {vss: 0, vcc: 1, 'é': 2};";
    let src = ChipSource { nodenames: s, ..source() };
    let nl = Netlist::decode(&parse(&src).unwrap().blob).unwrap();
    assert_eq!(nl.node("é"), Some(2));
    assert_eq!(parse_decl("x = 'é'", "x").unwrap().as_str(), Some("é"));
    // A hand-made blob with a name that is not UTF-8.
    let mut blob: Vec<u8> = b"HALFPHI1".to_vec();
    for v in [3u32, 0, 1, 0, 1] {
        blob.extend_from_slice(&v.to_le_bytes());
    }
    blob.push(0b111);
    blob.push(0);
    blob.extend_from_slice(&1u16.to_le_bytes());
    blob.push(0xff);
    blob.extend_from_slice(&2i32.to_le_bytes());
    let nl = Netlist::decode(&blob).unwrap();
    assert_eq!(nl.name_of(2), Some("\u{fffd}"));
}

#[test]
fn clones_are_snapshots() {
    let nl = inverter();
    let mut a = ChipState::new(&nl);
    a.value.set(2);
    let b = a.clone();
    a.value.clear(2);
    assert!(b.value.get(2) && b.pullup.get(3));
    let snl = SliceNetlist::new(&nl);
    let mut s = SliceState::new(&snl);
    s.set_pull_all(2, true);
    let t = s.clone();
    s.set_pull_all(2, false);
    assert_eq!(t.pullup[2], u64::MAX);
    let p = parse(&source()).unwrap();
    let q = p.polygons[0].clone();
    assert_eq!((q.layer, q.node, q.pts.clone()), (1, 0, vec![(0, 0), (10, 0), (10, 10)]));
}

#[test]
fn a_switch_gated_by_the_supply_stays_off() {
    let t = "var transdefs = [['a',1,2,3]];";
    let src = ChipSource { transdefs: t, ..source() };
    let p = parse(&src).unwrap();
    assert_eq!(p.gated_by_supply, 1);
    let nl = Netlist::decode(&p.blob).unwrap();
    let mut eng = Engine::new(Arc::new(nl));
    eng.force_power_on_state();
    eng.restore_layout_pulls();
    eng.settle_all();
    eng.drive_high(2);
    eng.drive_low(2);
    assert!(!eng.state().trans_on.get(0));
    assert!(eng.is_high(1));
}

#[test]
fn error_texts_of_parse() {
    let err = |segdefs: &'static str, transdefs: &'static str, nodenames: &'static str, ground: &'static str| {
        match parse(&ChipSource { segdefs, transdefs, nodenames, rails: Rails { ground, supply: "vcc" } }) {
            Ok(_) => panic!("parsed"),
            Err(e) => e,
        }
    };
    assert_eq!(
        err("var segdefs = []", "var transdefs = []", "var nodenames = {gnd:0,vcc:1}", "vss"),
        "no rail called \"vss\" in nodenames"
    );
    assert_eq!(
        err("var segdefs = []", "var transdefs = []", "var nodenames = {gnd:0,vcc:1}", "a\"b"),
        "no rail called \"a\\\"b\" in nodenames"
    );
    assert_eq!(
        err(
            "var segdefs = [[0,'-',1],[1,'-',1]]",
            "var transdefs = [['t0',2,0,1]]",
            "var nodenames = {vss:0,vcc:1,a:2}",
            "vss"
        ),
        "transistor references unknown node 2"
    );
    assert_eq!(err("var segdefs = []", "var transdefs = []", "var names = {}", "vss"), "declaration of `nodenames` not found");
    assert_eq!(err("segs = []", TRANSDEFS, NODENAMES, "vss"), "declaration of `segdefs` not found");
    assert_eq!(err(SEGDEFS, "", NODENAMES, "vss"), "declaration of `transdefs` not found");
    assert_eq!(
        err("var segdefs = [[1,'+',0,1,2,3,'y',5,6]];", TRANSDEFS, NODENAMES, "vss"),
        "non-numeric polygon y"
    );
    assert_eq!(err(SEGDEFS, "var transdefs = [['t',1,'x',3]];", NODENAMES, "vss"), "transdef c1");
    assert_eq!(err(SEGDEFS, "var transdefs = [['t',1,2,'x']];", NODENAMES, "vss"), "transdef c2");
}

#[test]
fn error_texts_of_parse_decl() {
    assert_eq!(parse_decl("var a = 1", "b").unwrap_err(), "declaration of `b` not found");
    assert_eq!(parse_decl("x=1", "x").unwrap().as_num(), Some(1));
    assert_eq!(parse_decl("x = nul", "x").unwrap_err(), "unknown keyword at offset 1");
}

#[test]
fn the_engine_records_group_searches_only_while_the_probe_is_on() {
    let mut eng = Engine::new(Arc::new(inverter()));
    assert!(!eng.probe().on);
    eng.force_power_on_state();
    eng.restore_layout_pulls();
    eng.settle_all();
    eng.drive_low(2);
    assert!(eng.probe().is_empty());

    eng.probe_mut().on = true;
    eng.drive_high(2);
    let p = eng.probe();
    assert!(p.len() >= 2);
    // The driven node is searched first, alone, and its level changed.
    assert_eq!(p.seed[0], 2);
    assert!(p.changed[0]);
    assert_eq!(p.group(0).to_vec(), vec![2]);
    // Its gate switched the transistor on, so `out` was searched next and
    // found joined to ground.
    let i = p.seed.iter().position(|&n| n == 3).expect("out was searched");
    assert!(p.changed[i]);
    let mut g = p.group(i).to_vec();
    g.sort();
    assert_eq!(g, vec![0, 3]);
    assert_eq!(p.start.len(), p.seed.len());
    assert_eq!(p.changed.len(), p.seed.len());

    eng.probe_mut().on = false;
    let before = eng.probe().len();
    eng.drive_low(2);
    assert_eq!(eng.probe().len(), before);
}

#[test]
fn checked_readers_refuse_what_the_plain_ones_leave_out() {
    // A string left open inside an array: nothing can follow it.
    assert!(matches!(
        parse_decl_checked("var x = ['abc", "x"),
        Err(e) if e == "unterminated string"
    ));
    // Open at the very end, with nothing owed after it, the string is read.
    let v = parse_decl_checked("var x = 'abc", "x").unwrap();
    assert_eq!(v.as_str(), Some("abc"));
    let a = parse_decl_checked("var x = [1,2]", "x").unwrap();
    let b = parse_decl("var x = [1,2]", "x").unwrap();
    let nums = |v: &Val| v.as_arr().unwrap().iter().map(|x| x.as_num()).collect::<Vec<_>>();
    assert_eq!(nums(&a), vec![Some(1), Some(2)]);
    assert_eq!(nums(&a), nums(&b));

    let open = ChipSource {
        segdefs: "var segdefs = [[0,'-",
        transdefs: TRANSDEFS,
        nodenames: NODENAMES,
        rails: Rails::default(),
    };
    assert_eq!(parse_checked(&open).err(), Some("unterminated string".to_string()));
    assert_eq!(parse_checked(&source()).unwrap().blob, parse(&source()).unwrap().blob);
}

#[test]
fn decode_checked_refuses_a_transistor_past_the_nodes() {
    let blob = parse(&source()).unwrap().blob;
    let nl = Netlist::decode_checked(&blob).unwrap().unwrap();
    assert_eq!(nl.node_count(), 6);
    // The transistor records start after the 28-byte header and the two
    // one-byte flag rows. Give the first transistor gate node 65535.
    let mut bad = blob.clone();
    bad[30] = 0xff;
    bad[31] = 0xff;
    assert!(matches!(Netlist::decode_checked(&bad), Ok(None)));
    // A read error still comes back as one.
    assert!(matches!(Netlist::decode_checked(&blob[..20]), Err(DecodeError::Truncated)));
}

#[test]
fn syntax_error_texts_match_what_debug_formatting_prints() {
    let err = |src: &str| match parse_decl(src, "x") {
        Ok(_) => panic!("read {src}"),
        Err(e) => e,
    };
    // Offsets count from just after `x =`.
    assert_eq!(err("var x = @"), format!("unexpected byte {:?} at offset {}", '@', 1));
    assert_eq!(err("var x = \\"), format!("unexpected byte {:?} at offset {}", '\\', 1));
    assert_eq!(err("var x = [1 2]"), format!("expected , or ] got {:?} at {}", '2', 4));
    assert_eq!(err("var x = [1 ']"), format!("expected , or ] got {:?} at {}", '\'', 4));
    assert_eq!(err("var x = {a:1 b}"), format!("expected , or }} got {:?} at {}", 'b', 6));
    assert_eq!(err("var x = {a:1 \"}"), format!("expected , or }} got {:?} at {}", '"', 6));
    assert_eq!(err("var x = {'a\"b' 1}"), format!("expected : after key {:?} at {}", "a\"b", 8));
    assert_eq!(err("var x = {'a\\b' 1}"), format!("expected : after key {:?} at {}", "a\\b", 8));
    assert_eq!(err("var x = {, 1}"), "empty object key at 2");
    assert_eq!(err("var x = nope"), "unknown keyword at offset 1");
    let too_large = "99999999999999999999".parse::<i64>().unwrap_err().to_string();
    assert_eq!(err("var x = 99999999999999999999"), format!("bad number {:?} at {}: {}", "99999999999999999999", 1, too_large));
    let too_small = "-99999999999999999999".parse::<i64>().unwrap_err().to_string();
    assert_eq!(err("var x = -99999999999999999999"), format!("bad number {:?} at {}: {}", "-99999999999999999999", 1, too_small));
    let invalid = "-".parse::<i64>().unwrap_err().to_string();
    assert_eq!(err("var x = -.5"), format!("bad number {:?} at {}: {}", "-", 1, invalid));
    // The same texts come out of `parse`, for the file they are in.
    let src = ChipSource {
        segdefs: "var segdefs = [[0 '-']]",
        transdefs: TRANSDEFS,
        nodenames: NODENAMES,
        rails: Rails::default(),
    };
    assert_eq!(parse(&src).err(), Some(format!("expected , or ] got {:?} at {}", '\'', 5)));
}

#[test]
fn short_transdef_and_rail_texts_match_what_debug_formatting_prints() {
    let with_transdefs = |transdefs: &'static str| ChipSource {
        segdefs: SEGDEFS,
        transdefs,
        nodenames: NODENAMES,
        rails: Rails::default(),
    };
    let entry = vec![Val::Str("t0".to_string()), Val::Num(-2), Val::Bool(true), Val::Null];
    assert_eq!(
        parse(&with_transdefs("var transdefs = [['t0',-2,true]];")).err(),
        Some(format!("short transdef entry: {:?}", &entry[..3]))
    );
    assert_eq!(
        parse(&with_transdefs("var transdefs = [['t\"0',false,null]];")).err(),
        Some(format!(
            "short transdef entry: {:?}",
            [Val::Str("t\"0".to_string()), Val::Bool(false), Val::Null]
        ))
    );
    assert_eq!(
        parse(&with_transdefs("var transdefs = [[-9223372036854775808]];")).err(),
        Some(format!("short transdef entry: {:?}", [Val::Num(i64::MIN)]))
    );
    assert_eq!(
        parse(&with_transdefs("var transdefs = [[[1],2]];")).err(),
        Some(format!("short transdef entry: {:?}", [Val::Arr(vec![Val::Num(1)]), Val::Num(2)]))
    );
    assert_eq!(parse(&with_transdefs("var transdefs = [[]];")).err(), Some("short transdef entry: []".to_string()));
    let src = ChipSource {
        segdefs: SEGDEFS,
        transdefs: TRANSDEFS,
        nodenames: NODENAMES,
        rails: Rails { ground: "g\\nd", supply: "vcc" },
    };
    assert_eq!(parse(&src).err(), Some(format!("no rail called {:?} in nodenames", "g\\nd")));
}

#[test]
fn a_die_of_65536_nodes_is_covered_whole() {
    let src = ChipSource {
        segdefs: "var segdefs = [[0,'-',1],[1,'-',1],[2,'+',1],[65535,'+',1]];",
        transdefs: "var transdefs = [];",
        nodenames: "var nodenames = {vss: 0, vcc: 1};",
        rails: Rails::default(),
    };
    let nl = Netlist::decode(&parse(&src).unwrap().blob).unwrap();
    assert_eq!(nl.node_count(), 65536);
    let mut eng = Engine::new(Arc::new(nl));
    eng.force_power_on_state();
    eng.restore_layout_pulls();
    eng.settle_all();
    let s = eng.state_string();
    assert_eq!(s.len(), 65536);
    assert_eq!(&s[..4], "gvhx");
    assert_eq!(&s[65535..], "h");
    // The last node was settled too: its pullup took it high.
    assert!(eng.is_high(65535));
    // vcc, node 2 and node 65535.
    assert_eq!(eng.high_count(), 3);
}

#[test]
fn counts_for_reports() {
    let parsed = parse(&source()).unwrap();
    let counts = parsed.layer_counts();
    assert_eq!(counts.len(), 256);
    assert_eq!((counts[0], counts[1], counts[2], counts[3], counts[4]), (0, 2, 1, 1, 1));
    assert_eq!(counts.iter().sum::<usize>(), parsed.polygons.len());
    let nl = Netlist::decode(&parsed.blob).unwrap();
    assert_eq!(nl.pullup_count(), 1);
    let mut eng = Engine::new(Arc::new(nl));
    eng.force_power_on_state();
    eng.restore_layout_pulls();
    eng.settle_all();
    eng.drive_low(2);
    // vcc and `out`; vss is low and node 4 does not exist.
    assert_eq!(eng.high_count(), 2);
}

#[test]
fn the_ways_of_setting_a_pull_agree() {
    let snl = SliceNetlist::new(&inverter());
    let mut a = SliceState::new(&snl);
    let mut b = SliceState::new(&snl);
    a.set_pull_mask(2, 0b1010);
    b.set_pull_where(2, !0, 0b1010);
    assert_eq!((&a.pullup, &a.pulldown), (&b.pullup, &b.pulldown));
    a.set_pull_all(3, true);
    b.set_pull_mask(3, !0);
    assert_eq!((&a.pullup, &a.pulldown), (&b.pullup, &b.pulldown));
    a.set_pull(5, 2, true);
    b.set_pull_where(2, 1 << 5, !0);
    assert_eq!((&a.pullup, &a.pulldown), (&b.pullup, &b.pulldown));
    a.set_pull(7, 3, false);
    b.set_pull_where(3, 1 << 7, 0);
    assert_eq!((&a.pullup, &a.pulldown), (&b.pullup, &b.pulldown));
}

#[test]
fn a_search_that_changes_nothing_is_recorded_as_such() {
    let mut eng = Engine::new(Arc::new(inverter()));
    eng.force_power_on_state();
    eng.restore_layout_pulls();
    eng.settle_all();
    eng.drive_high(2);
    eng.probe_mut().mark(9);
    eng.probe_mut().on = true;
    eng.settle(&[3]);
    let p = eng.probe();
    assert_eq!(p.seed, vec![3]);
    assert_eq!(p.changed, vec![false]);
    assert_eq!(p.start, vec![0]);
    let mut g = p.group(0).to_vec();
    g.sort();
    assert_eq!(g, vec![0, 3]);
    assert_eq!(p.marks, vec![(9, 0)]);
}

#[test]
fn group_of_needs_only_the_group_to_be_nodes() {
    // Move the ground rail past the last node; nothing conducting reaches it.
    let mut blob = parse(&source()).unwrap().blob;
    blob[20..24].copy_from_slice(&1000u32.to_le_bytes());
    let nl = Netlist::decode(&blob).unwrap();
    assert_eq!(nl.vss(), 1000);
    let eng = Engine::new(Arc::new(nl));
    assert_eq!(eng.group_of(3), vec![3]);
    assert_eq!(eng.group_of(2), vec![2]);
}

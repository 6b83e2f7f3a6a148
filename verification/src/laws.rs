//! Properties that relate several operations of the library.

use vstd::prelude::*;
use crate::chip::{
    le16_bytes, le32_bytes, flag_bit, pack_bits, flag_bytes, trans_bytes, name_bytes, name_record,
    blob_head, blob_bytes,
};
use crate::chip::{
    Outcome, parse_spec, seg_stage, trans_stage, key_nodenames, key_segdefs, key_transdefs,
    name_nums, last_num, seg_count, seg_pass, trans_pass, name_bump, seg_nodes_below, seg_node,
    lemma_seg_count_bound, lemma_name_bump_grows, lemma_seg_pass_lens, lemma_seg_pass_polys,
    lemma_trans_pass_known, normalise,
};
use crate::netlist::{
    le16, le32, bit8, bytes_for, flags_at, name_records, kept_names, magic, spec_decode, trans_at,
    NetModel, DecodeError, decodable, term_pairs,
};
use crate::source::{
    Reading, SVal, decl_value, value_at, array_at, object_at, trivia_end, ws_end, line_end, block_end,
    lemma_ends,
};
use crate::engine::{
    Sim, Stats, switch_all, write_members, recalc_spec, round_spec,
    rounds_spec, settle_spec, group_stats, group_drive, group_of_spec, scan, vote_lows,
    rails_cancel, any_hold, Drive, MAX_SETTLE_ROUNDS, rank, expand, bfs, queue_spec, usable, drive_level,
    switch_on, switch_off, has_node,
};
use crate::csr::select;
use crate::netlist::{lookup, spec_terminals_of, lemma_terminal_in_range, lemma_gate_in_range, Terminal, spec_gates_of};
use crate::text::decimal;
use crate::netlist::{Netlist, ChargeRule};
use vstd::utf8::encode_utf8;

verus! {

// ---------------------------------------------------------------------------
// Reading back what was written: integers and flags
// ---------------------------------------------------------------------------

/// A `u32` written little-endian reads back as itself.
pub proof fn lemma_le32_read_back(b: Seq<u8>, i: int, v: u32)
    requires
        0 <= i,
        i + 4 <= b.len(),
        b.subrange(i, i + 4) == le32_bytes(v),
    ensures
        le32(b, i) == v,
{
    assert(b[i] == b.subrange(i, i + 4)[0]);
    assert(b[i + 1] == b.subrange(i, i + 4)[1]);
    assert(b[i + 2] == b.subrange(i, i + 4)[2]);
    assert(b[i + 3] == b.subrange(i, i + 4)[3]);
    let x0: int = v as int % 256;
    let x1: int = (v as int / 256) % 256;
    let x2: int = (v as int / 65536) % 256;
    let x3: int = v as int / 16777216;
    assert(((v % 256) as u8) as int == x0);
    assert((((v / 256) % 256) as u8) as int == x1);
    assert((((v / 65536) % 256) as u8) as int == x2);
    assert(((v / 16777216) as u8) as int == x3);
    assert(x0 + 256 * x1 + 65536 * x2 + 16777216 * x3 == v) by (nonlinear_arith)
        requires
            x0 == v as int % 256,
            x1 == (v as int / 256) % 256,
            x2 == (v as int / 65536) % 256,
            x3 == v as int / 16777216,
            0 <= v <= 0xffff_ffff,
    ;
}

/// A `u16` written little-endian reads back as itself.
pub proof fn lemma_le16_read_back(b: Seq<u8>, i: int, v: u16)
    requires
        0 <= i,
        i + 2 <= b.len(),
        b.subrange(i, i + 2) == le16_bytes(v),
    ensures
        le16(b, i) == v,
{
    assert(b[i] == b.subrange(i, i + 2)[0]);
    assert(b[i + 1] == b.subrange(i, i + 2)[1]);
    let x0: int = v as int % 256;
    let x1: int = v as int / 256;
    assert(((v % 256) as u8) as int == x0);
    assert(((v / 256) as u8) as int == x1);
    assert(x0 + 256 * x1 == v) by (nonlinear_arith)
        requires
            x0 == v as int % 256,
            x1 == v as int / 256,
    ;
}

proof fn lemma_or_bit(x: u8, b: u8, m: u8, k: u8)
    requires
        b <= 1,
        m < 8,
        k < 8,
    ensures
        (((x | (b << m)) >> k) & 1u8 == 1u8) == (((x >> k) & 1u8 == 1u8) || (k == m && b == 1)),
{
    assert((((x | (b << m)) >> k) & 1u8 == 1u8) == (((x >> k) & 1u8 == 1u8) || (k == m && b == 1)))
        by (bit_vector)
        requires
            b <= 1,
            m < 8,
            k < 8,
    ;
}

proof fn lemma_zero_bits(k: u8)
    requires
        k < 8,
    ensures
        (0u8 >> k) & 1u8 != 1u8,
{
    assert((0u8 >> k) & 1u8 != 1u8) by (bit_vector);
}

/// Bit `k` of a packed byte is flag `8 * j + k`.
pub proof fn lemma_pack_bits(f: Seq<bool>, j: int, m: nat, k: int)
    requires
        m <= 8,
        0 <= k < 8,
    ensures
        bit8(pack_bits(f, j, m), k) == (k < m && flag_bit(f, 8 * j + k) == 1u8),
    decreases m,
{
    if m == 0 {
        lemma_zero_bits(k as u8);
    } else {
        lemma_pack_bits(f, j, (m - 1) as nat, k);
        lemma_or_bit(pack_bits(f, j, (m - 1) as nat), flag_bit(f, 8 * j + m - 1), (m - 1) as u8, k as u8);
    }
}

/// Flags written eight to a byte read back as themselves.
pub proof fn lemma_flags_read_back(b: Seq<u8>, at: int, f: Seq<bool>)
    requires
        0 <= at,
        at + bytes_for(f.len()) <= b.len(),
        b.subrange(at, at + bytes_for(f.len())) == flag_bytes(f),
    ensures
        flags_at(b, at, f.len()) == f,
{
    assert forall|i: int| 0 <= i < f.len() implies flags_at(b, at, f.len())[i] == f[i] by {
        let j = i / 8;
        let k = i % 8;
        assert(0 <= j < bytes_for(f.len()));
        assert(b[at + j] == b.subrange(at, at + bytes_for(f.len()))[j]);
        assert(8 * j + k == i);
        lemma_pack_bits(f, j, 8, k);
    }
    assert(flags_at(b, at, f.len()) =~= f);
}

/// Flags written by the blob writer's `bits` (eight to a byte, least
/// significant bit first, `bytes_for(n)` bytes for `n` flags) read back by
/// the blob reader's `bits` as exactly the flags written.
pub proof fn law_flags_round_trip(f: Seq<bool>)
    ensures
        flag_bytes(f).len() == bytes_for(f.len()),
        flags_at(flag_bytes(f), 0, f.len()) == f,
{
    let b = flag_bytes(f);
    assert(b.subrange(0, bytes_for(f.len()) as int) =~= b);
    lemma_flags_read_back(b, 0, f);
}

// ---------------------------------------------------------------------------
// Reading back what was written: the records
// ---------------------------------------------------------------------------

/// The transistor records are six bytes each: gate, c1, c2.
pub proof fn lemma_trans_bytes(tg: Seq<(u16, u16, u16)>)
    ensures
        trans_bytes(tg).len() == 6 * tg.len(),
        forall|i: int|
            0 <= i < tg.len() ==> {
                &&& #[trigger] trans_bytes(tg).subrange(6 * i, 6 * i + 2) == le16_bytes(tg[i].0)
                &&& trans_bytes(tg).subrange(6 * i + 2, 6 * i + 4) == le16_bytes(tg[i].1)
                &&& trans_bytes(tg).subrange(6 * i + 4, 6 * i + 6) == le16_bytes(tg[i].2)
            },
    decreases tg.len(),
{
    if tg.len() > 0 {
        let d = tg.drop_last();
        lemma_trans_bytes(d);
        let t = tg.last();
        let pre = trans_bytes(d);
        let all = trans_bytes(tg);
        assert(all == pre + le16_bytes(t.0) + le16_bytes(t.1) + le16_bytes(t.2));
        assert forall|i: int| 0 <= i < tg.len() implies {
            &&& #[trigger] all.subrange(6 * i, 6 * i + 2) == le16_bytes(tg[i].0)
            &&& all.subrange(6 * i + 2, 6 * i + 4) == le16_bytes(tg[i].1)
            &&& all.subrange(6 * i + 4, 6 * i + 6) == le16_bytes(tg[i].2)
        } by {
            if i < d.len() {
                assert(tg[i] == d[i]);
                assert(all.subrange(6 * i, 6 * i + 2) =~= pre.subrange(6 * i, 6 * i + 2));
                assert(all.subrange(6 * i + 2, 6 * i + 4) =~= pre.subrange(6 * i + 2, 6 * i + 4));
                assert(all.subrange(6 * i + 4, 6 * i + 6) =~= pre.subrange(6 * i + 4, 6 * i + 6));
            } else {
                assert(all.subrange(6 * i, 6 * i + 2) =~= le16_bytes(t.0));
                assert(all.subrange(6 * i + 2, 6 * i + 4) =~= le16_bytes(t.1));
                assert(all.subrange(6 * i + 4, 6 * i + 6) =~= le16_bytes(t.2));
            }
        }
    }
}

/// The name records as written: UTF-8 bytes and the node as an `i32`.
pub open spec fn written_names(ns: Seq<(Seq<char>, int)>) -> Seq<(Seq<u8>, i32)> {
    ns.map_values(|e: (Seq<char>, int)| (encode_utf8(e.0), e.1 as i32))
}

/// Every name is short enough for its `u16` length.
pub open spec fn names_fit(ns: Seq<(Seq<char>, int)>) -> bool {
    forall|k: int| 0 <= k < ns.len() ==> encode_utf8(#[trigger] ns[k].0).len() <= u16::MAX
}

proof fn lemma_i32_round_trip(x: i32)
    ensures
        (x as u32) as i32 == x,
{
    assert((x as u32) as i32 == x) by (bit_vector);
}

/// The name records read back as written.
pub proof fn lemma_names_read_back(b: Seq<u8>, pos: int, s: Seq<(Seq<char>, int)>)
    requires
        0 <= pos,
        pos + name_bytes(s).len() <= b.len(),
        b.subrange(pos, pos + name_bytes(s).len()) == name_bytes(s),
        names_fit(s),
    ensures
        name_records(b, pos, s.len()) == Some((written_names(s), pos + name_bytes(s).len())),
    decreases s.len(),
{
    if s.len() == 0 {
        assert(written_names(s) =~= Seq::<(Seq<u8>, i32)>::empty());
    } else {
        let d = s.drop_last();
        let (name, n) = s.last();
        let rec = name_record(name, n);
        let nb = name_bytes(s);
        let nd = name_bytes(d);
        assert(nb == nd + rec);
        let p = pos + nd.len();
        assert(b.subrange(pos, pos + nd.len()) =~= nb.subrange(0, nd.len() as int));
        assert(nb.subrange(0, nd.len() as int) =~= nd);
        assert(names_fit(d)) by {
            assert forall|k: int| 0 <= k < d.len() implies encode_utf8(#[trigger] d[k].0).len()
                <= u16::MAX by {
                assert(d[k] == s[k]);
            }
        }
        lemma_names_read_back(b, pos, d);
        let e = encode_utf8(name);
        let l = e.len() as int;
        assert(encode_utf8(s[s.len() - 1].0).len() <= u16::MAX);
        assert(rec == le16_bytes(l as u16) + e + le32_bytes((n as i32) as u32));
        assert(nb.subrange(nd.len() as int, nb.len() as int) =~= rec);
        assert(b.subrange(p, p + rec.len()) =~= rec) by {
            assert forall|j: int| 0 <= j < rec.len() implies b.subrange(p, p + rec.len())[j]
                == rec[j] by {
                assert(b.subrange(pos, pos + nb.len())[nd.len() + j] == nb[nd.len() + j]);
            }
        }
        assert(b.subrange(p, p + 2) =~= rec.subrange(0, 2));
        assert(rec.subrange(0, 2) =~= le16_bytes(l as u16));
        lemma_le16_read_back(b, p, l as u16);
        assert(b.subrange(p + 2, p + 2 + l) =~= rec.subrange(2, 2 + l));
        assert(rec.subrange(2, 2 + l) =~= e);
        assert(b.subrange(p + 2 + l, p + 2 + l + 4) =~= rec.subrange(2 + l, 6 + l));
        assert(rec.subrange(2 + l, 6 + l) =~= le32_bytes((n as i32) as u32));
        lemma_le32_read_back(b, p + 2 + l, (n as i32) as u32);
        lemma_i32_round_trip(n as i32);
        assert(written_names(s) =~= written_names(d).push((e, n as i32)));
    }
}

// ---------------------------------------------------------------------------
// The blob
// ---------------------------------------------------------------------------

/// The transistor records read back as written.
proof fn lemma_trans_read_back(b: Seq<u8>, p0: int, tg: Seq<(u16, u16, u16)>)
    requires
        0 <= p0,
        p0 + 6 * tg.len() <= b.len(),
        b.subrange(p0, p0 + 6 * tg.len()) == trans_bytes(tg),
    ensures
        Seq::new(tg.len(), |i: int| le16(b, p0 + 6 * i)) == tg.map_values(|t: (u16, u16, u16)| t.0),
        Seq::new(tg.len(), |i: int| le16(b, p0 + 6 * i + 2)) == tg.map_values(|t: (u16, u16, u16)| t.1),
        Seq::new(tg.len(), |i: int| le16(b, p0 + 6 * i + 4)) == tg.map_values(|t: (u16, u16, u16)| t.2),
{
    let tb = trans_bytes(tg);
    lemma_trans_bytes(tg);
    let t = tg.len();
    assert forall|i: int| 0 <= i < t implies {
        &&& le16(b, p0 + 6 * i) == tg[i].0
        &&& le16(b, p0 + 6 * i + 2) == tg[i].1
        &&& le16(b, p0 + 6 * i + 4) == tg[i].2
    } by {
        assert(tb.subrange(6 * i, 6 * i + 2) == le16_bytes(tg[i].0));
        assert(b.subrange(p0 + 6 * i, p0 + 6 * i + 2) =~= tb.subrange(6 * i, 6 * i + 2));
        assert(b.subrange(p0 + 6 * i + 2, p0 + 6 * i + 4) =~= tb.subrange(6 * i + 2, 6 * i + 4));
        assert(b.subrange(p0 + 6 * i + 4, p0 + 6 * i + 6) =~= tb.subrange(6 * i + 4, 6 * i + 6));
        lemma_le16_read_back(b, p0 + 6 * i, tg[i].0);
        lemma_le16_read_back(b, p0 + 6 * i + 2, tg[i].1);
        lemma_le16_read_back(b, p0 + 6 * i + 4, tg[i].2);
    }
    assert(Seq::new(t, |i: int| le16(b, p0 + 6 * i)) =~= tg.map_values(|t: (u16, u16, u16)| t.0));
    assert(Seq::new(t, |i: int| le16(b, p0 + 6 * i + 2)) =~= tg.map_values(|t: (u16, u16, u16)| t.1));
    assert(Seq::new(t, |i: int| le16(b, p0 + 6 * i + 4)) =~= tg.map_values(|t: (u16, u16, u16)| t.2));
}

/// The netlist a blob written from these parts describes.
pub open spec fn blob_model(
    count: int,
    tg: Seq<(u16, u16, u16)>,
    ns: Seq<(Seq<char>, int)>,
    vss: u32,
    vcc: u32,
    ex: Seq<bool>,
    pu: Seq<bool>,
) -> NetModel {
    NetModel {
        node_count: count as nat,
        vss: vss as u16,
        vcc: vcc as u16,
        exists: ex,
        pullup: pu,
        gate: tg.map_values(|t: (u16, u16, u16)| t.0),
        c1: tg.map_values(|t: (u16, u16, u16)| t.1),
        c2: tg.map_values(|t: (u16, u16, u16)| t.2),
        names: kept_names(written_names(ns), count as nat),
    }
}

/// Decoding reads back exactly what encoding wrote: the node count, the
/// rails (as the `u16` node numbers the netlist uses), the exists and
/// pullup flags, every transistor, and the name records whose node is in
/// range, as long as the counts fit the blob's `u32` fields and each name
/// fits its `u16` length.
#[verifier::rlimit(60)]
pub proof fn law_blob_read_back(
    count: int,
    tg: Seq<(u16, u16, u16)>,
    ns: Seq<(Seq<char>, int)>,
    vss: u32,
    vcc: u32,
    ex: Seq<bool>,
    pu: Seq<bool>,
)
    requires
        0 <= count <= u32::MAX,
        ex.len() == count,
        pu.len() == count,
        tg.len() <= u32::MAX,
        ns.len() <= u32::MAX,
        names_fit(ns),
    ensures
        spec_decode(blob_bytes(count, tg, ns, vss, vcc, ex, pu)) == Ok::<NetModel, DecodeError>(
            blob_model(count, tg, ns, vss, vcc, ex, pu),
        ),
{
    let b = blob_bytes(count, tg, ns, vss, vcc, ex, pu);
    let h = blob_head(count, tg.len() as int, ns.len() as int, vss, vcc);
    let e = bytes_for(count as nat) as int;
    let fe = flag_bytes(ex);
    let fp = flag_bytes(pu);
    let tb = trans_bytes(tg);
    let nb = name_bytes(ns);
    lemma_trans_bytes(tg);
    assert(h.len() == 28);
    assert(fe.len() == e && fp.len() == e);
    assert(b == h + fe + fp + tb + nb);
    let p0 = 28 + 2 * e;
    let p1 = p0 + 6 * tg.len();
    assert(b.len() == p1 + nb.len());
    // The head.
    assert(b.take(8) =~= magic());
    assert(b.subrange(8, 12) =~= le32_bytes(count as u32));
    assert(b.subrange(12, 16) =~= le32_bytes(tg.len() as u32));
    assert(b.subrange(16, 20) =~= le32_bytes(ns.len() as u32));
    assert(b.subrange(20, 24) =~= le32_bytes(vss));
    assert(b.subrange(24, 28) =~= le32_bytes(vcc));
    lemma_le32_read_back(b, 8, count as u32);
    lemma_le32_read_back(b, 12, tg.len() as u32);
    lemma_le32_read_back(b, 16, ns.len() as u32);
    lemma_le32_read_back(b, 20, vss);
    lemma_le32_read_back(b, 24, vcc);
    assert(trans_at(b) == p0);
    // The flags.
    assert(b.subrange(28, 28 + e) =~= fe);
    assert(b.subrange(28 + e, 28 + 2 * e) =~= fp);
    lemma_flags_read_back(b, 28, ex);
    lemma_flags_read_back(b, 28 + e, pu);
    // The transistors.
    assert(b.subrange(p0, p1) =~= tb);
    lemma_trans_read_back(b, p0, tg);
    // The names.
    assert(b.subrange(p1, p1 + nb.len()) =~= nb);
    lemma_names_read_back(b, p1, ns);
}

// ---------------------------------------------------------------------------
// Parsing, then decoding
// ---------------------------------------------------------------------------

/// The (name, number) entries of a names file, as the parse reads them.
pub open spec fn parsed_names(nn: Seq<u8>) -> Seq<(Seq<char>, int)> {
    match decl_value(nn, encode_utf8(key_nodenames())) {
        Reading::Good(SVal::Obj(es), _) => match name_nums(es) {
            Some(ns) => ns,
            None => Seq::empty(),
        },
        _ => Seq::empty(),
    }
}

/// The node number the names file gives rail `name`, as the blob stores it.
pub open spec fn parsed_rail(nn: Seq<u8>, name: Seq<char>) -> u32 {
    last_num(parsed_names(nn), name)->0 as u32
}

proof fn lemma_term_pairs_len(m: NetModel, t: nat)
    ensures
        term_pairs(m, t).0.len() <= 2 * t,
    decreases t,
{
    if t > 0 {
        lemma_term_pairs_len(m, (t - 1) as nat);
    }
}

/// What `parse` encodes, `Netlist::decode` reads back: the blob decodes,
/// with the parse's node and transistor counts, its names and its two
/// rails (the named nodes, as 16-bit node ids, and two different ids when
/// the names name two different nodes that fit in 16 bits), and every
/// polygon the parse returns belongs to a node the decoded netlist says
/// exists. This holds for every die whose node numbers fit the netlist's
/// 16-bit node ids, whose transistor count fits its 32-bit terminal
/// offsets, and whose names fit their 16-bit lengths.
pub proof fn law_parse_then_decode(
    seg: Seq<u8>,
    trans: Seq<u8>,
    nn: Seq<u8>,
    ground: Seq<char>,
    supply: Seq<char>,
)
    requires
        parse_spec(seg, trans, nn, ground, supply) is Done,
        parse_spec(seg, trans, nn, ground, supply)->Done_0.node_count <= 65536,
        2 * parse_spec(seg, trans, nn, ground, supply)->Done_0.transistor_count <= u32::MAX,
        parse_spec(seg, trans, nn, ground, supply)->Done_0.name_count <= u32::MAX,
        names_fit(parsed_names(nn)),
    ensures
        ({
            let m = parse_spec(seg, trans, nn, ground, supply)->Done_0;
            &&& decodable(m.blob)
            &&& spec_decode(m.blob) is Ok
            &&& spec_decode(m.blob)->Ok_0.node_count == m.node_count
            &&& spec_decode(m.blob)->Ok_0.trans_count() == m.transistor_count
            &&& spec_decode(m.blob)->Ok_0.names == kept_names(
                written_names(parsed_names(nn)),
                m.node_count as nat,
            )
            &&& spec_decode(m.blob)->Ok_0.vss == parsed_rail(nn, ground) as u16
            &&& spec_decode(m.blob)->Ok_0.vcc == parsed_rail(nn, supply) as u16
            &&& spec_decode(m.blob)->Ok_0.is_rail(parsed_rail(nn, ground) as u16 as int)
            &&& spec_decode(m.blob)->Ok_0.is_rail(parsed_rail(nn, supply) as u16 as int)
            &&& (parsed_rail(nn, ground) < 65536 && parsed_rail(nn, supply) < 65536 && parsed_rail(
                nn,
                ground,
            ) != parsed_rail(nn, supply) ==> spec_decode(m.blob)->Ok_0.vss != spec_decode(
                m.blob,
            )->Ok_0.vcc)
            &&& forall|i: int|
                0 <= i < m.polygons.len() ==> #[trigger] spec_decode(m.blob)->Ok_0.exists[m.polygons[i].node as int]
        }),
{
    let m = parse_spec(seg, trans, nn, ground, supply)->Done_0;
    let ns = parsed_names(nn);
    match decl_value(nn, encode_utf8(key_nodenames())) {
        Reading::Good(nv, _) => {
            match nv {
                SVal::Obj(es) => {
                    match name_nums(es) {
                        Some(ns0) => {
                            assert(ns0 == ns);
                            let vss = last_num(ns, ground)->0 as u32;
                            let vcc = last_num(ns, supply)->0 as u32;
                            assert(m == seg_stage(seg, trans, ns, vss, vcc)->Done_0);
                            lemma_seg_then_decode(seg, trans, ns, vss, vcc);
                        },
                        None => {},
                    }
                },
                _ => {},
            }
        },
        _ => {},
    }
}

/// The polygons and transistors stages of the law above.
#[verifier::rlimit(40)]
proof fn lemma_seg_then_decode(
    seg: Seq<u8>,
    trans: Seq<u8>,
    ns: Seq<(Seq<char>, int)>,
    vss: u32,
    vcc: u32,
)
    requires
        seg_stage(seg, trans, ns, vss, vcc) is Done,
        seg_stage(seg, trans, ns, vss, vcc)->Done_0.node_count <= 65536,
        2 * seg_stage(seg, trans, ns, vss, vcc)->Done_0.transistor_count <= u32::MAX,
        seg_stage(seg, trans, ns, vss, vcc)->Done_0.name_count <= u32::MAX,
        names_fit(ns),
    ensures
        ({
            let m = seg_stage(seg, trans, ns, vss, vcc)->Done_0;
            &&& decodable(m.blob)
            &&& spec_decode(m.blob) is Ok
            &&& spec_decode(m.blob)->Ok_0.node_count == m.node_count
            &&& spec_decode(m.blob)->Ok_0.trans_count() == m.transistor_count
            &&& spec_decode(m.blob)->Ok_0.names == kept_names(written_names(ns), m.node_count as nat)
            &&& spec_decode(m.blob)->Ok_0.vss == vss as u16
            &&& spec_decode(m.blob)->Ok_0.vcc == vcc as u16
            &&& forall|i: int|
                0 <= i < m.polygons.len() ==> #[trigger] spec_decode(m.blob)->Ok_0.exists[m.polygons[i].node as int]
        }),
{
    let m = seg_stage(seg, trans, ns, vss, vcc)->Done_0;
    match decl_value(seg, encode_utf8(key_segdefs())) {
        Reading::Good(sv, _) => match sv {
            SVal::Arr(segs) => match seg_count(segs) {
                Outcome::Done(c0) => {
                    let count = name_bump(c0, ns);
                    lemma_seg_count_bound(segs);
                    lemma_name_bump_grows(c0, ns);
                    assert(seg_nodes_below(segs, count)) by {
                        assert forall|k: int| 0 <= k < segs.len() implies ((#[trigger] seg_node(
                            segs[k],
                        )) matches Some(n) && ((n as usize) as int) < count) by {
                            assert(seg_nodes_below(segs, c0));
                        }
                    }
                    lemma_seg_pass_lens(segs, count as nat);
                    lemma_seg_pass_polys(segs, count as nat);
                    match seg_pass(segs, count as nat) {
                        Ok((ex, pu, polys)) => {
                            assert(m == trans_stage(trans, ns, vss, vcc, count, ex, pu, polys)->Done_0);
                            match decl_value(trans, encode_utf8(key_transdefs())) {
                                Reading::Good(tv, _) => match tv {
                                    SVal::Arr(ts) => {
                                        lemma_trans_pass_known(ts, vss, vcc, ex);
                                        match trans_pass(ts, vss, vcc, ex) {
                                            Ok((tg, boxes, g)) => {
                                                law_blob_read_back(count, tg, ns, vss, vcc, ex, pu);
                                                let nm = blob_model(count, tg, ns, vss, vcc, ex, pu);
                                                lemma_term_pairs_len(nm, nm.trans_count());
                                                assert(nm.ends_in_range());
                                            },
                                            Err(_) => {},
                                        }
                                    },
                                    _ => {},
                                },
                                _ => {},
                            }
                        },
                        Err(_) => {},
                    }
                },
                _ => {},
            },
            _ => {},
        },
        _ => {},
    }
}

// ---------------------------------------------------------------------------
// Settling: what the counters and the rails keep
// ---------------------------------------------------------------------------

proof fn lemma_switch_all_frame(m: NetModel, s: Sim, ts: Seq<u16>, level: bool)
    ensures
        switch_all(m, s, ts, level).value == s.value,
        switch_all(m, s, ts, level).stats == s.stats,
    decreases ts.len(),
{
    if ts.len() > 0 {
        lemma_switch_all_frame(m, s, ts.drop_last(), level);
    }
}

proof fn lemma_write_members_stats(m: NetModel, s: Sim, g: Seq<u16>, level: bool)
    ensures
        write_members(m, s, g, level).stats == s.stats,
    decreases g.len(),
{
    if g.len() > 0 {
        let s1 = write_members(m, s, g.drop_last(), level);
        lemma_write_members_stats(m, s, g.drop_last(), level);
        let x = g.last() as int;
        lemma_switch_all_frame(
            m,
            Sim { value: s1.value.update(x, level), ..s1 },
            crate::netlist::spec_gates_of(m, x),
            level,
        );
    }
}

/// Which counter a law is about.
pub enum Counter {
    AreaVoteLows,
    RailConflictHolds,
}

pub open spec fn counter(st: Stats, c: Counter) -> u64 {
    match c {
        Counter::AreaVoteLows => st.area_vote_lows,
        Counter::RailConflictHolds => st.rail_conflict_holds,
    }
}

/// The netlist leaves counter `c` nothing to count: the area vote is not in
/// force, or no node carries the hold.
pub open spec fn inert(nl: Netlist, c: Counter) -> bool {
    match c {
        Counter::AreaVoteLows => nl.rule() == ChargeRule::AnyHigh,
        Counter::RailConflictHolds => forall|i: int| 0 <= i < nl.holds().len() ==> !nl.holds()[i],
    }
}

/// Every member is a node below `n`.
pub open spec fn below(g: Seq<u16>, n: int) -> bool {
    forall|k: int| 0 <= k < g.len() ==> (#[trigger] g[k] as int) < n
}

proof fn lemma_expand_below(g: Seq<u16>, ts: Seq<Terminal>, on: Seq<bool>, n: int)
    requires
        below(g, n),
        forall|i: int| 0 <= i < ts.len() ==> (#[trigger] ts[i].other as int) < n,
    ensures
        below(expand(g, ts, on), n),
    decreases ts.len(),
{
    if ts.len() > 0 {
        let d = ts.drop_last();
        assert forall|i: int| 0 <= i < d.len() implies (#[trigger] d[i].other as int) < n by {
            assert(d[i] == ts[i]);
        }
        lemma_expand_below(g, d, on, n);
        assert(ts.last() == ts[ts.len() - 1]);
    }
}

proof fn lemma_terminals_below(nl: Netlist, x: int)
    requires
        usable(nl),
        0 <= x < nl.model().node_count,
    ensures
        forall|i: int|
            0 <= i < spec_terminals_of(nl.model(), x).len() ==> (
            #[trigger] spec_terminals_of(nl.model(), x)[i].other as int) < nl.model().node_count,
{
    assert forall|i: int| 0 <= i < spec_terminals_of(nl.model(), x).len() implies (
    #[trigger] spec_terminals_of(nl.model(), x)[i].other as int) < nl.model().node_count by {
        lemma_terminal_in_range(nl, x, i);
    }
}

proof fn lemma_bfs_below(nl: Netlist, on: Seq<bool>, g: Seq<u16>, i: nat, fuel: nat)
    requires
        usable(nl),
        below(g, nl.model().node_count as int),
    ensures
        below(bfs(nl.model(), on, g, i, fuel), nl.model().node_count as int),
    decreases fuel,
{
    let m = nl.model();
    if fuel > 0 && i < g.len() {
        let x = g[i as int];
        if !m.is_rail(x as int) {
            lemma_terminals_below(nl, x as int);
            lemma_expand_below(g, spec_terminals_of(m, x as int), on, m.node_count as int);
            lemma_bfs_below(
                nl,
                on,
                expand(g, spec_terminals_of(m, x as int), on),
                i + 1,
                (fuel - 1) as nat,
            );
        } else {
            lemma_bfs_below(nl, on, g, i + 1, (fuel - 1) as nat);
        }
    }
}

/// A group's members are nodes.
pub proof fn lemma_group_below(nl: Netlist, on: Seq<bool>, n: u16)
    requires
        usable(nl),
        (n as int) < nl.model().node_count,
    ensures
        below(group_of_spec(nl.model(), on, n), nl.model().node_count as int),
{
    lemma_bfs_below(nl, on, seq![n], 0, nl.model().node_count + 1);
}

/// What the solver's spec states keep: levels for every node, and a queue
/// of nodes.
pub open spec fn sim_ok(nl: Netlist, s: Sim) -> bool {
    &&& s.value.len() == nl.model().node_count
    &&& s.trans_on.len() == nl.model().trans_count()
    &&& below(s.next, nl.model().node_count as int)
}

/// Every switch whose gate is a rail is where it was.
pub open spec fn rail_switches_kept(m: NetModel, a: Seq<bool>, b: Seq<bool>) -> bool {
    forall|t: int| 0 <= t < m.trans_count() && m.is_rail(m.gate[t] as int) ==> #[trigger] b[t] == a[t]
}

proof fn lemma_select_key<V>(keys: Seq<u16>, vals: Seq<V>, k: int, j: int) -> (w: int)
    requires
        keys.len() == vals.len(),
        0 <= j < select(keys, vals, k).len(),
    ensures
        0 <= w < keys.len(),
        w < vals.len(),
        keys[w] as int == k,
        vals[w] == select(keys, vals, k)[j],
    decreases keys.len(),
{
    let prev = select(keys.drop_last(), vals.drop_last(), k);
    if j < prev.len() {
        let w = lemma_select_key(keys.drop_last(), vals.drop_last(), k, j);
        assert(keys[w] == keys.drop_last()[w]);
        assert(vals[w] == vals.drop_last()[w]);
        w
    } else {
        (keys.len() - 1) as int
    }
}

/// The transistors a node gates have that node as their gate.
proof fn lemma_gates_gate(m: NetModel, x: int, k: int)
    requires
        0 <= k < spec_gates_of(m, x).len(),
        m.trans_count() <= 65536,
    ensures
        (spec_gates_of(m, x)[k] as int) < m.trans_count(),
        m.gate[spec_gates_of(m, x)[k] as int] as int == x,
{
    let vs = Seq::new(m.gate.len(), |t: int| crate::netlist::tid(t));
    let w = lemma_select_key(m.gate, vs, x, k);
    assert(vs[w] == crate::netlist::tid(w));
    assert(crate::netlist::tid(w) as int == w);
}

proof fn lemma_switch_all_keeps(m: NetModel, s: Sim, ts: Seq<u16>, level: bool, t: int)
    requires
        s.trans_on.len() == m.trans_count(),
        0 <= t < m.trans_count(),
        forall|i: int| 0 <= i < ts.len() ==> (#[trigger] ts[i] as int) < m.trans_count() && ts[i] as int != t,
    ensures
        switch_all(m, s, ts, level).trans_on.len() == m.trans_count(),
        switch_all(m, s, ts, level).trans_on[t] == s.trans_on[t],
    decreases ts.len(),
{
    if ts.len() > 0 {
        let d = ts.drop_last();
        assert forall|i: int| 0 <= i < d.len() implies (#[trigger] d[i] as int) < m.trans_count() && d[i] as int != t by {
            assert(d[i] == ts[i]);
        }
        lemma_switch_all_keeps(m, s, d, level, t);
        assert(ts.last() == ts[ts.len() - 1]);
    }
}

proof fn lemma_queue_ok(nl: Netlist, next: Seq<u16>, n: u16)
    requires
        nl.wf(),
        below(next, nl.model().node_count as int),
        nl.model().is_rail(n as int) || (n as int) < nl.model().node_count,
    ensures
        below(queue_spec(nl.model(), next, n), nl.model().node_count as int),
{
}

proof fn lemma_switch_all_ok(nl: Netlist, s: Sim, ts: Seq<u16>, level: bool)
    requires
        nl.wf(),
        sim_ok(nl, s),
        forall|i: int| 0 <= i < ts.len() ==> (#[trigger] ts[i] as int) < nl.model().trans_count(),
    ensures
        sim_ok(nl, switch_all(nl.model(), s, ts, level)),
    decreases ts.len(),
{
    let m = nl.model();
    if ts.len() > 0 {
        let d = ts.drop_last();
        assert forall|i: int| 0 <= i < d.len() implies (#[trigger] d[i] as int) < m.trans_count() by {
            assert(d[i] == ts[i]);
        }
        lemma_switch_all_ok(nl, s, d, level);
        lemma_switch_all_frame(m, s, d, level);
        let s1 = switch_all(m, s, d, level);
        let t = ts.last();
        assert(t == ts[ts.len() - 1]);
        nl.lemma_wf();
        lemma_queue_ok(nl, s1.next, m.c1[t as int]);
        lemma_queue_ok(nl, queue_spec(m, s1.next, m.c1[t as int]), m.c2[t as int]);
    }
}

/// Writing a group's level keeps the solver's state in shape and never
/// touches a rail's stored level.
proof fn lemma_write_members_ok(nl: Netlist, s: Sim, g: Seq<u16>, level: bool, r: int)
    requires
        nl.wf(),
        sim_ok(nl, s),
        below(g, nl.model().node_count as int),
        nl.model().is_rail(r),
        0 <= r < nl.model().node_count,
    ensures
        sim_ok(nl, write_members(nl.model(), s, g, level)),
        write_members(nl.model(), s, g, level).value[r] == s.value[r],
        nl.model().trans_count() <= 65536 ==> rail_switches_kept(
            nl.model(),
            s.trans_on,
            write_members(nl.model(), s, g, level).trans_on,
        ),
    decreases g.len(),
{
    let m = nl.model();
    if g.len() > 0 {
        let d = g.drop_last();
        assert(below(d, m.node_count as int)) by {
            assert forall|k: int| 0 <= k < d.len() implies (#[trigger] d[k] as int) < m.node_count by {
                assert(d[k] == g[k]);
            }
        }
        lemma_write_members_ok(nl, s, d, level, r);
        let s1 = write_members(m, s, d, level);
        let x = g.last() as int;
        assert(g.last() == g[g.len() - 1]);
        if !(m.is_rail(x) || s1.value[x] == level) {
            let s2 = Sim { value: s1.value.update(x, level), ..s1 };
            assert forall|i: int| 0 <= i < spec_gates_of(m, x).len() implies (#[trigger] spec_gates_of(
                m,
                x,
            )[i] as int) < m.trans_count() by {
                lemma_gate_in_range(nl, x, i);
            }
            lemma_switch_all_ok(nl, s2, spec_gates_of(m, x), level);
            lemma_switch_all_frame(m, s2, spec_gates_of(m, x), level);
            if m.trans_count() <= 65536 {
                assert forall|t: int|
                    0 <= t < m.trans_count() && m.is_rail(m.gate[t] as int) implies #[trigger] switch_all(
                    m,
                    s2,
                    spec_gates_of(m, x),
                    level,
                ).trans_on[t] == s1.trans_on[t] by {
                    assert forall|i: int| 0 <= i < spec_gates_of(m, x).len() implies (
                    #[trigger] spec_gates_of(m, x)[i] as int) < m.trans_count() && spec_gates_of(
                        m,
                        x,
                    )[i] as int != t by {
                        lemma_gates_gate(m, x, i);
                    }
                    lemma_switch_all_keeps(m, s2, spec_gates_of(m, x), level, t);
                }
            }
        }
    }
}

proof fn lemma_recalc_counter(nl: Netlist, pu: Seq<bool>, pd: Seq<bool>, s: Sim, n: u16, c: Counter)
    requires
        inert(nl, c),
        usable(nl),
        (n as int) < nl.model().node_count,
    ensures
        counter(recalc_spec(nl, pu, pd, s, n).stats, c) == counter(s.stats, c),
{
    let m = nl.model();
    if !m.is_rail(n as int) {
        let st1 = Stats { node_recalcs: s.stats.node_recalcs.wrapping_add(1), ..s.stats };
        let g = group_of_spec(m, s.trans_on, n);
        let d = group_drive(nl, s.value, pu, pd, g);
        let st2 = group_stats(nl, s.value, pu, pd, g, st1);
        lemma_write_members_stats(m, Sim { stats: st2, ..s }, g, drive_level(d));
        let sc = scan(nl, s.value, pu, pd, g);
        match c {
            Counter::AreaVoteLows => {
                assert(!vote_lows(nl, sc));
            },
            Counter::RailConflictHolds => {
                nl.lemma_wf();
                lemma_group_below(nl, s.trans_on, n);
                assert(!any_hold(nl, g)) by {
                    if any_hold(nl, g) {
                        let k = choose|k: int| 0 <= k < g.len() && nl.holds()[#[trigger] g[k] as int];
                        assert((g[k] as int) < m.node_count);
                    }
                }
                assert(!rails_cancel(nl, sc, g));
            },
        }
    }
}

/// The two rails hold the same levels in `a` and `b`.
pub open spec fn rails_kept(m: NetModel, a: Seq<bool>, b: Seq<bool>) -> bool {
    &&& b[m.vss as int] == a[m.vss as int]
    &&& b[m.vcc as int] == a[m.vcc as int]
}

/// Recalculating a node keeps the solver's state in shape and never
/// touches a rail's stored level.
proof fn lemma_recalc_ok(nl: Netlist, pu: Seq<bool>, pd: Seq<bool>, s: Sim, n: u16)
    requires
        usable(nl),
        sim_ok(nl, s),
        (n as int) < nl.model().node_count,
    ensures
        sim_ok(nl, recalc_spec(nl, pu, pd, s, n)),
        rails_kept(nl.model(), s.value, recalc_spec(nl, pu, pd, s, n).value),
        nl.model().trans_count() <= 65536 ==> rail_switches_kept(
            nl.model(),
            s.trans_on,
            recalc_spec(nl, pu, pd, s, n).trans_on,
        ),
{
    let m = nl.model();
    if !m.is_rail(n as int) {
        let st1 = Stats { node_recalcs: s.stats.node_recalcs.wrapping_add(1), ..s.stats };
        let g = group_of_spec(m, s.trans_on, n);
        let d = group_drive(nl, s.value, pu, pd, g);
        let st2 = group_stats(nl, s.value, pu, pd, g, st1);
        lemma_group_below(nl, s.trans_on, n);
        lemma_write_members_ok(nl, Sim { stats: st2, ..s }, g, drive_level(d), m.vss as int);
        lemma_write_members_ok(nl, Sim { stats: st2, ..s }, g, drive_level(d), m.vcc as int);
    }
}

proof fn lemma_round_ok(nl: Netlist, pu: Seq<bool>, pd: Seq<bool>, s: Sim, cur: Seq<u16>)
    requires
        usable(nl),
        sim_ok(nl, s),
        below(cur, nl.model().node_count as int),
    ensures
        sim_ok(nl, round_spec(nl, pu, pd, s, cur)),
        rails_kept(nl.model(), s.value, round_spec(nl, pu, pd, s, cur).value),
        nl.model().trans_count() <= 65536 ==> rail_switches_kept(
            nl.model(),
            s.trans_on,
            round_spec(nl, pu, pd, s, cur).trans_on,
        ),
    decreases cur.len(),
{
    if cur.len() > 0 {
        let d = cur.drop_last();
        assert(below(d, nl.model().node_count as int)) by {
            assert forall|k: int| 0 <= k < d.len() implies (#[trigger] d[k] as int)
                < nl.model().node_count by {
                assert(d[k] == cur[k]);
            }
        }
        lemma_round_ok(nl, pu, pd, s, d);
        assert(cur.last() == cur[cur.len() - 1]);
        lemma_recalc_ok(nl, pu, pd, round_spec(nl, pu, pd, s, d), cur.last());
    }
}

proof fn lemma_round_counter(
    nl: Netlist,
    pu: Seq<bool>,
    pd: Seq<bool>,
    s: Sim,
    cur: Seq<u16>,
    c: Counter,
)
    requires
        inert(nl, c),
        usable(nl),
        sim_ok(nl, s),
        below(cur, nl.model().node_count as int),
    ensures
        counter(round_spec(nl, pu, pd, s, cur).stats, c) == counter(s.stats, c),
    decreases cur.len(),
{
    if cur.len() > 0 {
        let d = cur.drop_last();
        assert(below(d, nl.model().node_count as int)) by {
            assert forall|k: int| 0 <= k < d.len() implies (#[trigger] d[k] as int)
                < nl.model().node_count by {
                assert(d[k] == cur[k]);
            }
        }
        lemma_round_counter(nl, pu, pd, s, d, c);
        lemma_round_ok(nl, pu, pd, s, d);
        assert(cur.last() == cur[cur.len() - 1]);
        lemma_recalc_counter(nl, pu, pd, round_spec(nl, pu, pd, s, d), cur.last(), c);
    }
}

proof fn lemma_rounds_ok(
    nl: Netlist,
    pu: Seq<bool>,
    pd: Seq<bool>,
    s: Sim,
    cur: Seq<u16>,
    k: nat,
    c: Counter,
)
    requires
        usable(nl),
        sim_ok(nl, s),
        below(cur, nl.model().node_count as int),
    ensures
        rails_kept(nl.model(), s.value, rounds_spec(nl, pu, pd, s, cur, k).0.value),
        nl.model().trans_count() <= 65536 ==> rail_switches_kept(
            nl.model(),
            s.trans_on,
            rounds_spec(nl, pu, pd, s, cur, k).0.trans_on,
        ),
        inert(nl, c) ==> counter(rounds_spec(nl, pu, pd, s, cur, k).0.stats, c) == counter(s.stats, c),
    decreases k,
{
    if k > 0 && cur.len() > 0 {
        let s1 = Sim {
            next: Seq::empty(),
            stats: Stats { rounds: s.stats.rounds.wrapping_add(1), ..s.stats },
            ..s
        };
        lemma_round_ok(nl, pu, pd, s1, cur);
        if inert(nl, c) {
            lemma_round_counter(nl, pu, pd, s1, cur, c);
        }
        let s2 = round_spec(nl, pu, pd, s1, cur);
        lemma_rounds_ok(nl, pu, pd, Sim { next: Seq::empty(), ..s2 }, s2.next, (k - 1) as nat, c);
    }
}

/// Settling never changes a rail's stored level: a rail is in a group for
/// its drive, never to be driven.
pub proof fn law_settle_keeps_rails(
    nl: Netlist,
    pu: Seq<bool>,
    pd: Seq<bool>,
    value: Seq<bool>,
    on: Seq<bool>,
    stats: Stats,
    seeds: Seq<u16>,
)
    requires
        usable(nl),
        value.len() == nl.model().node_count,
        on.len() == nl.model().trans_count(),
        below(seeds, nl.model().node_count as int),
    ensures
        rails_kept(nl.model(), value, settle_spec(nl, pu, pd, value, on, stats, seeds).value),
{
    let s0 = Sim {
        value,
        trans_on: on,
        next: Seq::empty(),
        stats: Stats { settles: stats.settles.wrapping_add(1), ..stats },
    };
    lemma_rounds_ok(nl, pu, pd, s0, seeds, MAX_SETTLE_ROUNDS as nat, Counter::AreaVoteLows);
}

/// A switch gated by a rail never moves while settling: a rail's level is
/// never written, so nothing ever switches what it gates. A transistor gated
/// by the supply is on in silicon and stays as it was here. Holds on every
/// netlist whose transistors fit the 16-bit transistor ids.
pub proof fn law_rail_gated_switches_stay(
    nl: Netlist,
    pu: Seq<bool>,
    pd: Seq<bool>,
    value: Seq<bool>,
    on: Seq<bool>,
    stats: Stats,
    seeds: Seq<u16>,
)
    requires
        usable(nl),
        nl.model().trans_count() <= 65536,
        value.len() == nl.model().node_count,
        on.len() == nl.model().trans_count(),
        below(seeds, nl.model().node_count as int),
    ensures
        rail_switches_kept(nl.model(), on, settle_spec(nl, pu, pd, value, on, stats, seeds).trans_on),
{
    let s0 = Sim {
        value,
        trans_on: on,
        next: Seq::empty(),
        stats: Stats { settles: stats.settles.wrapping_add(1), ..stats },
    };
    lemma_rounds_ok(nl, pu, pd, s0, seeds, MAX_SETTLE_ROUNDS as nat, Counter::AreaVoteLows);
}

/// Settling leaves the area-vote counter alone unless the area vote is in
/// force, and the rail-conflict counter alone unless some node carries the
/// hold: on a netlist that uses neither, both stay where they were.
pub proof fn law_settle_counters_inert(
    nl: Netlist,
    pu: Seq<bool>,
    pd: Seq<bool>,
    value: Seq<bool>,
    on: Seq<bool>,
    stats: Stats,
    seeds: Seq<u16>,
    c: Counter,
)
    requires
        usable(nl),
        inert(nl, c),
        value.len() == nl.model().node_count,
        on.len() == nl.model().trans_count(),
        below(seeds, nl.model().node_count as int),
    ensures
        counter(settle_spec(nl, pu, pd, value, on, stats, seeds).stats, c) == counter(stats, c),
{
    let s0 = Sim {
        value,
        trans_on: on,
        next: Seq::empty(),
        stats: Stats { settles: stats.settles.wrapping_add(1), ..stats },
    };
    lemma_rounds_ok(nl, pu, pd, s0, seeds, MAX_SETTLE_ROUNDS as nat, c);
}

// ---------------------------------------------------------------------------
// How a group resolves
// ---------------------------------------------------------------------------

/// Whether some member of `g` is pulled down.
pub open spec fn some_pulled_down(g: Seq<u16>, pd: Seq<bool>) -> bool {
    exists|k: int| 0 <= k < g.len() && pd[#[trigger] g[k] as int]
}

proof fn lemma_scan_pulls(
    nl: Netlist,
    value: Seq<bool>,
    pu: Seq<bool>,
    pd: Seq<bool>,
    g: Seq<u16>,
)
    requires
        forall|k: int| 0 <= k < g.len() ==> !nl.model().is_rail(#[trigger] g[k] as int),
    ensures
        rank(scan(nl, value, pu, pd, g).drive) <= 3,
        !scan(nl, value, pu, pd, g).vss,
        !scan(nl, value, pu, pd, g).vcc,
        some_pulled_down(g, pd) ==> scan(nl, value, pu, pd, g).drive == Drive::PullDown,
    decreases g.len(),
{
    if g.len() > 0 {
        let d = g.drop_last();
        assert forall|k: int| 0 <= k < d.len() implies !nl.model().is_rail(#[trigger] d[k] as int) by {
            assert(d[k] == g[k]);
        }
        lemma_scan_pulls(nl, value, pu, pd, d);
        assert(g.last() == g[g.len() - 1]);
        if some_pulled_down(g, pd) && !pd[g.last() as int] {
            let k = choose|k: int| 0 <= k < g.len() && pd[#[trigger] g[k] as int];
            assert(k < d.len());
            assert(d[k] == g[k]);
            assert(some_pulled_down(d, pd));
        }
    }
}

/// A group that holds neither rail and has a member pulled down resolves
/// to `PullDown`, and so low, whatever else pulls it up or holds charge:
/// between the two pulls, down wins.
pub proof fn law_pulldown_wins(
    nl: Netlist,
    value: Seq<bool>,
    pu: Seq<bool>,
    pd: Seq<bool>,
    g: Seq<u16>,
)
    requires
        forall|k: int| 0 <= k < g.len() ==> !nl.model().is_rail(#[trigger] g[k] as int),
        some_pulled_down(g, pd),
    ensures
        group_drive(nl, value, pu, pd, g) == Drive::PullDown,
        !drive_level(group_drive(nl, value, pu, pd, g)),
{
    lemma_scan_pulls(nl, value, pu, pd, g);
}

// ---------------------------------------------------------------------------
// Transistor ends, and buses
// ---------------------------------------------------------------------------

/// Normalising a transistor's ends keeps the same two ends; leaves a rail
/// in first place only when both ends are rails; and puts the supply in
/// second place whenever it is one of the ends.
pub proof fn law_normalise(c1: u32, c2: u32, vss: u32, vcc: u32)
    ensures
        ({
            let (a, b) = normalise(c1, c2, vss, vcc);
            &&& (a == c1 && b == c2) || (a == c2 && b == c1)
            &&& (a == vss || a == vcc) ==> (c1 == vss || c1 == vcc) && (c2 == vss || c2 == vcc)
            &&& (c1 == vcc || c2 == vcc) ==> b == vcc
        }),
{
}

/// The width `bus_width` reports is the widest bus that `bus` resolves:
/// every bit below it has a name, and the bit at it does not.
pub proof fn law_bus_width(names: Seq<(Seq<char>, u16)>, prefix: Seq<char>, w: nat)
    requires
        forall|i: int| 0 <= i < w ==> #[trigger] lookup(names, prefix + decimal(i as nat)) is Some,
        lookup(names, prefix + decimal(w)) is None,
    ensures
        forall|i: int| 0 <= i < w ==> #[trigger] lookup(names, prefix + decimal(i as nat)) is Some,
        !(forall|i: int| 0 <= i < w + 1 ==> #[trigger] lookup(names, prefix + decimal(i as nat)) is Some),
{
    let wi: int = w as int;
    assert(lookup(names, prefix + decimal(wi as nat)) is None);
}


// ---------------------------------------------------------------------------
// Reading literals: whitespace
// ---------------------------------------------------------------------------

/// Skipping past whitespace under the reader lands where skipping from the
/// next byte does.
proof fn lemma_trivia_past_ws(s: Seq<u8>, i: int)
    requires
        0 <= i < s.len(),
        s[i] == 32 || s[i] == 9 || s[i] == 10 || s[i] == 12 || s[i] == 13,
    ensures
        trivia_end(s, i) == trivia_end(s, i + 1),
{
    assert(ws_end(s, i) == ws_end(s, i + 1));
    let j = ws_end(s, i);
    lemma_ends(s, i + 1, 0);
    lemma_ends(s, j + 1, 0);
    lemma_ends(s, j + 2, 0);
    if 0 <= j && j + 1 < s.len() && s[j] == 47 && s[j + 1] == 47 {
        assert(line_end(s, j) == line_end(s, j + 1));
    }
}

/// Whitespace is insignificant. Where the reader stands on an ASCII
/// whitespace byte (space, tab, line feed, form feed or carriage return),
/// reading a literal, the rest of an array, or the rest of an object from
/// there gives exactly what reading from the byte after it gives: the same
/// value and end, the same error, or the same failure.
pub proof fn law_whitespace_insignificant(
    s: Seq<u8>,
    i: int,
    items: Seq<SVal>,
    entries: Seq<(Seq<char>, SVal)>,
)
    requires
        0 <= i < s.len(),
        s[i] == 32 || s[i] == 9 || s[i] == 10 || s[i] == 12 || s[i] == 13,
    ensures
        value_at(s, i) == value_at(s, i + 1),
        array_at(s, i, items) == array_at(s, i + 1, items),
        object_at(s, i, entries) == object_at(s, i + 1, entries),
{
    lemma_trivia_past_ws(s, i);
}


// ---------------------------------------------------------------------------
// The transistors: what is counted as gated by the supply
// ---------------------------------------------------------------------------

/// Whether a transistor entry's gate, as the `u32` node number the parser
/// takes it as, is node `v`.
pub open spec fn gate_is(e: SVal, v: u32) -> bool {
    match e {
        SVal::Arr(a) => a.len() > 1 && (a[1] matches SVal::Num(n) && (n as u32) == v),
        _ => false,
    }
}

/// How many of the entries have node `v` as their gate.
pub open spec fn gated_by(ts: Seq<SVal>, v: u32) -> nat {
    crate::bitset::count_true(ts.map_values(|e: SVal| gate_is(e, v)))
}

/// What `parse` reports as gated by the supply is the number of transistor
/// entries whose gate is the supply rail's node, and nothing else: an entry
/// gated by ground, or by any other node, is not counted.
pub proof fn law_gated_by_supply_counts_supply_gates(ts: Seq<SVal>, vss: u32, vcc: u32, ex: Seq<bool>)
    requires
        trans_pass(ts, vss, vcc, ex) is Ok,
    ensures
        trans_pass(ts, vss, vcc, ex)->Ok_0.2 == gated_by(ts, vcc),
    decreases ts.len(),
{
    if ts.len() > 0 {
        law_gated_by_supply_counts_supply_gates(ts.drop_last(), vss, vcc, ex);
        assert(ts.map_values(|e: SVal| gate_is(e, vcc)).drop_last() =~= ts.drop_last().map_values(
            |e: SVal| gate_is(e, vcc),
        ));
    }
}


// ---------------------------------------------------------------------------
// Settling: a switch that changes is followed up
// ---------------------------------------------------------------------------

/// Whether the ends of transistor `t`, now `on` or off, are queued to be
/// revisited: after closing, its first end (both ends are then in one
/// group); after opening, both ends, since the group may have split. A rail
/// end is never queued.
pub open spec fn followed_up(m: NetModel, next: Seq<u16>, t: int, on: bool) -> bool {
    &&& !m.is_rail(m.c1[t] as int) ==> has_node(next, m.c1[t] as int)
    &&& !on ==> (!m.is_rail(m.c2[t] as int) ==> has_node(next, m.c2[t] as int))
}

/// From `a` to `b` the queue only grows, and every switch whose state
/// changed is followed up in `b`'s queue.
pub open spec fn follows(m: NetModel, a: Sim, b: Sim) -> bool {
    &&& b.trans_on.len() == a.trans_on.len()
    &&& forall|y: int| #[trigger] has_node(a.next, y) ==> has_node(b.next, y)
    &&& forall|t: int|
        0 <= t < a.trans_on.len() && #[trigger] b.trans_on[t] != a.trans_on[t] ==> followed_up(
            m,
            b.next,
            t,
            b.trans_on[t],
        )
}

proof fn lemma_follows_refl(m: NetModel, a: Sim, b: Sim)
    requires
        b.trans_on == a.trans_on,
        b.next == a.next,
    ensures
        follows(m, a, b),
{
}

proof fn lemma_follows_then(m: NetModel, a: Sim, b: Sim, c: Sim)
    requires
        follows(m, a, b),
        follows(m, b, c),
    ensures
        follows(m, a, c),
{
    assert forall|t: int| 0 <= t < a.trans_on.len() && #[trigger] c.trans_on[t] != a.trans_on[t] implies followed_up(
        m,
        c.next,
        t,
        c.trans_on[t],
    ) by {
        if c.trans_on[t] == b.trans_on[t] {
            assert(b.trans_on[t] != a.trans_on[t]);
            if !m.is_rail(m.c1[t] as int) {
                assert(has_node(b.next, m.c1[t] as int));
            }
            if !c.trans_on[t] && !m.is_rail(m.c2[t] as int) {
                assert(has_node(b.next, m.c2[t] as int));
            }
        }
    }
}

proof fn lemma_queue_grows(m: NetModel, next: Seq<u16>, n: u16)
    ensures
        forall|y: int| #[trigger] has_node(next, y) ==> has_node(queue_spec(m, next, n), y),
        !m.is_rail(n as int) ==> has_node(queue_spec(m, next, n), n as int),
{
    let q = queue_spec(m, next, n);
    assert forall|y: int| #[trigger] has_node(next, y) implies has_node(q, y) by {
        let k = choose|k: int| 0 <= k < next.len() && next[k] as int == y;
        assert(q[k] == next[k]);
    }
    if !m.is_rail(n as int) && !has_node(next, n as int) {
        assert(q[q.len() - 1] == n);
    }
}

proof fn lemma_switch_on_follows(m: NetModel, s: Sim, t: u16)
    requires
        (t as int) < s.trans_on.len(),
    ensures
        follows(m, s, switch_on(m, s, t)),
{
    let r = switch_on(m, s, t);
    if !s.trans_on[t as int] {
        lemma_queue_grows(m, s.next, m.c1[t as int]);
        assert forall|u: int|
            0 <= u < s.trans_on.len() && #[trigger] r.trans_on[u] != s.trans_on[u] implies followed_up(
            m,
            r.next,
            u,
            r.trans_on[u],
        ) by {
            if u != t as int {
                assert(r.trans_on[u] == s.trans_on[u]);
            }
        }
    }
}

proof fn lemma_switch_off_follows(m: NetModel, s: Sim, t: u16)
    requires
        (t as int) < s.trans_on.len(),
    ensures
        follows(m, s, switch_off(m, s, t)),
{
    let r = switch_off(m, s, t);
    if s.trans_on[t as int] {
        lemma_queue_grows(m, s.next, m.c1[t as int]);
        let q1 = queue_spec(m, s.next, m.c1[t as int]);
        lemma_queue_grows(m, q1, m.c2[t as int]);
        assert forall|y: int| #[trigger] has_node(s.next, y) implies has_node(r.next, y) by {
            assert(has_node(q1, y));
        }
        assert forall|u: int|
            0 <= u < s.trans_on.len() && #[trigger] r.trans_on[u] != s.trans_on[u] implies followed_up(
            m,
            r.next,
            u,
            r.trans_on[u],
        ) by {
            if u != t as int {
                assert(r.trans_on[u] == s.trans_on[u]);
            } else if !m.is_rail(m.c1[u] as int) {
                assert(has_node(q1, m.c1[u] as int));
            }
        }
    }
}

proof fn lemma_switch_follows(m: NetModel, s: Sim, t: u16, level: bool)
    requires
        (t as int) < s.trans_on.len(),
    ensures
        follows(m, s, if level { switch_on(m, s, t) } else { switch_off(m, s, t) }),
{
    if level {
        lemma_switch_on_follows(m, s, t);
    } else {
        lemma_switch_off_follows(m, s, t);
    }
}

proof fn lemma_switch_all_follows(m: NetModel, s: Sim, ts: Seq<u16>, level: bool)
    requires
        forall|k: int| 0 <= k < ts.len() ==> (ts[k] as int) < s.trans_on.len(),
    ensures
        follows(m, s, switch_all(m, s, ts, level)),
    decreases ts.len(),
{
    if ts.len() == 0 {
        lemma_follows_refl(m, s, s);
    } else {
        let s1 = switch_all(m, s, ts.drop_last(), level);
        lemma_switch_all_follows(m, s, ts.drop_last(), level);
        assert((ts.last() as int) < s.trans_on.len());
        lemma_switch_follows(m, s1, ts.last(), level);
        lemma_follows_then(m, s, s1, switch_all(m, s, ts, level));
    }
}

/// The transistors a node gates are transistors.
proof fn lemma_gates_are_transistors(m: NetModel, x: int)
    ensures
        forall|k: int|
            0 <= k < spec_gates_of(m, x).len() ==> (#[trigger] spec_gates_of(m, x)[k] as int) < m.gate.len(),
{
    let vs = Seq::new(m.gate.len(), |t: int| crate::netlist::tid(t));
    assert forall|k: int| 0 <= k < spec_gates_of(m, x).len() implies (#[trigger] spec_gates_of(m, x)[k] as int)
        < m.gate.len() by {
        crate::netlist::lemma_select_from(m.gate, vs, x, k);
        let w = choose|w: int| 0 <= w < vs.len() && vs[w] == select(m.gate, vs, x)[k];
        assert(vs[w] == crate::netlist::tid(w));
    }
}

proof fn lemma_write_members_follows(m: NetModel, s: Sim, g: Seq<u16>, level: bool)
    requires
        s.trans_on.len() == m.gate.len(),
    ensures
        follows(m, s, write_members(m, s, g, level)),
    decreases g.len(),
{
    if g.len() == 0 {
        lemma_follows_refl(m, s, s);
    } else {
        let s1 = write_members(m, s, g.drop_last(), level);
        lemma_write_members_follows(m, s, g.drop_last(), level);
        let x = g.last() as int;
        if !(m.is_rail(x) || s1.value[x] == level) {
            let s2 = Sim { value: s1.value.update(x, level), ..s1 };
            lemma_follows_refl(m, s1, s2);
            lemma_gates_are_transistors(m, x);
            lemma_switch_all_follows(m, s2, crate::netlist::spec_gates_of(m, x), level);
            lemma_follows_then(m, s1, s2, write_members(m, s, g, level));
            lemma_follows_then(m, s, s1, write_members(m, s, g, level));
        }
    }
}

/// Recalculating one node follows up every switch it changes: a switch it
/// opens has both of its non-rail ends queued, a switch it closes its first
/// end; and nothing already queued leaves the queue.
pub proof fn law_recalc_follows_up_switches(nl: Netlist, pullup: Seq<bool>, pulldown: Seq<bool>, s: Sim, n: u16)
    requires
        s.trans_on.len() == nl.model().trans_count(),
    ensures
        follows(nl.model(), s, recalc_spec(nl, pullup, pulldown, s, n)),
{
    let m = nl.model();
    if m.is_rail(n as int) {
        lemma_follows_refl(m, s, s);
    } else {
        let st1 = Stats { node_recalcs: s.stats.node_recalcs.wrapping_add(1), ..s.stats };
        let g = group_of_spec(m, s.trans_on, n);
        let d = group_drive(nl, s.value, pullup, pulldown, g);
        let st2 = group_stats(nl, s.value, pullup, pulldown, g, st1);
        let s1 = Sim { stats: st2, ..s };
        lemma_follows_refl(m, s, s1);
        lemma_write_members_follows(m, s1, g, drive_level(d));
        lemma_follows_then(m, s, s1, recalc_spec(nl, pullup, pulldown, s, n));
    }
}

/// A round of settling follows up every switch it changes: when a round
/// ends with a transistor in another state than it began with, the ends it
/// leaves to revisit are in the list for the next round (both non-rail ends
/// of a switch that opened, the first end of one that closed). So no group a
/// change may have split or joined is left unrevisited.
pub proof fn law_round_follows_up_switches(
    nl: Netlist,
    pullup: Seq<bool>,
    pulldown: Seq<bool>,
    s: Sim,
    cur: Seq<u16>,
)
    requires
        s.trans_on.len() == nl.model().trans_count(),
    ensures
        follows(nl.model(), s, round_spec(nl, pullup, pulldown, s, cur)),
    decreases cur.len(),
{
    if cur.len() == 0 {
        lemma_follows_refl(nl.model(), s, s);
    } else {
        let s1 = round_spec(nl, pullup, pulldown, s, cur.drop_last());
        law_round_follows_up_switches(nl, pullup, pulldown, s, cur.drop_last());
        law_recalc_follows_up_switches(nl, pullup, pulldown, s1, cur.last());
        lemma_follows_then(nl.model(), s, s1, round_spec(nl, pullup, pulldown, s, cur));
    }
}


proof fn lemma_seg_stage_gated(seg: Seq<u8>, trans: Seq<u8>, ns: Seq<(Seq<char>, int)>, vss: u32, vcc: u32)
    requires
        seg_stage(seg, trans, ns, vss, vcc) is Done,
    ensures
        decl_value(trans, encode_utf8(key_transdefs())) matches Reading::Good(SVal::Arr(ts), _)
            && seg_stage(seg, trans, ns, vss, vcc)->Done_0.gated_by_supply == gated_by(ts, vcc),
{
    match decl_value(seg, encode_utf8(key_segdefs())) {
        Reading::Good(sv, _) => match sv {
            SVal::Arr(segs) => match seg_count(segs) {
                Outcome::Done(c0) => {
                    let count = name_bump(c0, ns);
                    match seg_pass(segs, count as nat) {
                        Ok((ex, pu, polys)) => {
                            match decl_value(trans, encode_utf8(key_transdefs())) {
                                Reading::Good(tv, _) => match tv {
                                    SVal::Arr(ts) => {
                                        if trans_pass(ts, vss, vcc, ex) is Ok {
                                            law_gated_by_supply_counts_supply_gates(ts, vss, vcc, ex);
                                        }
                                    },
                                    _ => {},
                                },
                                _ => {},
                            }
                        },
                        Err(_) => {},
                    }
                },
                _ => {},
            },
            _ => {},
        },
        _ => {},
    }
}

/// What `parse` reports as gated by the supply is the number of entries of
/// the transistor list whose gate is the node that the supply rail's name
/// stands for: transistors gated by ground, or by any other node, are not
/// counted.
pub proof fn law_parse_counts_supply_gates(
    seg: Seq<u8>,
    trans: Seq<u8>,
    nn: Seq<u8>,
    ground: Seq<char>,
    supply: Seq<char>,
)
    requires
        parse_spec(seg, trans, nn, ground, supply) is Done,
    ensures
        decl_value(trans, encode_utf8(key_transdefs())) matches Reading::Good(SVal::Arr(ts), _)
            && parse_spec(seg, trans, nn, ground, supply)->Done_0.gated_by_supply == gated_by(
            ts,
            parsed_rail(nn, supply),
        ),
{
    match decl_value(nn, encode_utf8(key_nodenames())) {
        Reading::Good(nv, _) => match nv {
            SVal::Obj(es) => match name_nums(es) {
                Some(ns) => {
                    assert(ns == parsed_names(nn));
                    let vss = last_num(ns, ground)->0 as u32;
                    let vcc = last_num(ns, supply)->0 as u32;
                    lemma_seg_stage_gated(seg, trans, ns, vss, vcc);
                },
                None => {},
            },
            _ => {},
        },
        _ => {},
    }
}


// ---------------------------------------------------------------------------
// Settling: switches follow their gates
// ---------------------------------------------------------------------------

/// Every transistor whose gate is not a rail is on exactly when its gate is
/// high.
pub open spec fn switches_follow(m: NetModel, s: Sim) -> bool {
    forall|t: int|
        0 <= t < m.trans_count() && !m.is_rail(m.gate[t] as int) ==> #[trigger] s.trans_on[t]
            == s.value[m.gate[t] as int]
}

/// The transistors a node gates, where transistor numbers fit a `TransId`:
/// exactly those whose gate it is.
proof fn lemma_gates_exactly(m: NetModel, x: int, u: int)
    requires
        m.gate.len() <= 65536,
        0 <= u < m.gate.len(),
    ensures
        spec_gates_of(m, x).contains(u as u16) <==> m.gate[u] as int == x,
{
    let vs = Seq::new(m.gate.len(), |t: int| crate::netlist::tid(t));
    let g = spec_gates_of(m, x);
    assert(vs[u] == crate::netlist::tid(u));
    assert(crate::netlist::tid(u) == u as u16);
    if m.gate[u] as int == x {
        crate::netlist::lemma_select_has(m.gate, vs, x, u);
    }
    if g.contains(u as u16) {
        let j = choose|j: int| 0 <= j < g.len() && g[j] == u as u16;
        crate::netlist::lemma_select_keyed(m.gate, vs, x, j);
        let w = choose|w: int| 0 <= w < vs.len() && m.gate[w] as int == x && vs[w] == select(m.gate, vs, x)[j];
        assert(vs[w] == crate::netlist::tid(w));
        assert(crate::netlist::tid(w) == w as u16);
    }
}

/// Setting switches changes exactly the listed ones, to the level, and no
/// level.
proof fn lemma_switch_all_sets(m: NetModel, s: Sim, ts: Seq<u16>, level: bool, u: int)
    requires
        forall|k: int| 0 <= k < ts.len() ==> (ts[k] as int) < s.trans_on.len(),
        0 <= u < s.trans_on.len(),
        u < 65536,
    ensures
        switch_all(m, s, ts, level).value == s.value,
        switch_all(m, s, ts, level).trans_on.len() == s.trans_on.len(),
        switch_all(m, s, ts, level).trans_on[u] == if ts.contains(u as u16) {
            level
        } else {
            s.trans_on[u]
        },
    decreases ts.len(),
{
    if ts.len() > 0 {
        lemma_switch_all_sets(m, s, ts.drop_last(), level, u);
        let s1 = switch_all(m, s, ts.drop_last(), level);
        let t = ts.last();
        assert((t as int) < s.trans_on.len());
        assert forall|k: int| 0 <= k < ts.drop_last().len() implies (ts.drop_last()[k] as int) < s.trans_on.len() by {
            assert(ts.drop_last()[k] == ts[k]);
        }
        lemma_switch_all_sets(m, s, ts.drop_last(), level, t as int);
        if ts.contains(u as u16) && !ts.drop_last().contains(u as u16) {
            let k = choose|k: int| 0 <= k < ts.len() && ts[k] == u as u16;
            if k < ts.len() - 1 {
                assert(ts.drop_last()[k] == u as u16);
            }
        }
        if ts.drop_last().contains(u as u16) {
            let k = choose|k: int| 0 <= k < ts.drop_last().len() && ts.drop_last()[k] == u as u16;
            assert(ts[k] == u as u16);
        }
        if t as int != u {
            assert((t as int) != u);
        }
    }
}

proof fn lemma_switch_all_shape(m: NetModel, s: Sim, ts: Seq<u16>, level: bool)
    requires
        forall|k: int| 0 <= k < ts.len() ==> (ts[k] as int) < s.trans_on.len(),
    ensures
        switch_all(m, s, ts, level).value == s.value,
        switch_all(m, s, ts, level).trans_on.len() == s.trans_on.len(),
    decreases ts.len(),
{
    if ts.len() > 0 {
        assert forall|k: int| 0 <= k < ts.drop_last().len() implies (ts.drop_last()[k] as int) < s.trans_on.len() by {
            assert(ts.drop_last()[k] == ts[k]);
        }
        lemma_switch_all_shape(m, s, ts.drop_last(), level);
        assert((ts.last() as int) < s.trans_on.len());
    }
}

proof fn lemma_write_members_follow(m: NetModel, s: Sim, g: Seq<u16>, level: bool)
    requires
        forall|k: int| 0 <= k < g.len() ==> (g[k] as int) < s.value.len(),
        m.gate.len() <= 65536,
        m.c1.len() == m.gate.len(),
        s.trans_on.len() == m.gate.len(),
        forall|t: int| 0 <= t < m.gate.len() ==> (m.gate[t] as int) < s.value.len(),
        switches_follow(m, s),
    ensures
        switches_follow(m, write_members(m, s, g, level)),
        write_members(m, s, g, level).trans_on.len() == s.trans_on.len(),
        write_members(m, s, g, level).value.len() == s.value.len(),
    decreases g.len(),
{
    if g.len() > 0 {
        lemma_write_members_follow(m, s, g.drop_last(), level);
        let s1 = write_members(m, s, g.drop_last(), level);
        let x = g.last() as int;
        assert(x < s.value.len());
        if !(m.is_rail(x) || s1.value[x] == level) {
            let s2 = Sim { value: s1.value.update(x, level), ..s1 };
            let gx = spec_gates_of(m, x);
            lemma_gates_are_transistors(m, x);
            let r = write_members(m, s, g, level);
            assert(r == switch_all(m, s2, gx, level));
            lemma_switch_all_shape(m, s2, gx, level);
            assert forall|t: int| 0 <= t < m.trans_count() && !m.is_rail(m.gate[t] as int) implies #[trigger] r.trans_on[t]
                == r.value[m.gate[t] as int] by {
                lemma_switch_all_sets(m, s2, gx, level, t);
                lemma_gates_exactly(m, x, t);
                assert(s1.trans_on[t] == s1.value[m.gate[t] as int]);
                if m.gate[t] as int == x {
                    assert(r.value[x] == level);
                } else {
                    assert(r.value[m.gate[t] as int] == s1.value[m.gate[t] as int]);
                }
            }
        }
    }
}

/// Switches follow their gates through a recalculation: where every
/// transistor gated by a non-rail node is on exactly when its gate is high,
/// that still holds after recalculating any node. A node whose level the
/// recalculation changes turns every transistor it gates on or off with
/// it, and no other transistor. (For a netlist whose rails are nodes and
/// whose transistor numbers fit a `TransId`.)
pub proof fn law_recalc_keeps_switches_following(
    nl: Netlist,
    pullup: Seq<bool>,
    pulldown: Seq<bool>,
    s: Sim,
    n: u16,
)
    requires
        usable(nl),
        nl.model().trans_count() <= 65536,
        (n as int) < nl.model().node_count,
        s.trans_on.len() == nl.model().trans_count(),
        s.value.len() == nl.model().node_count,
        switches_follow(nl.model(), s),
    ensures
        switches_follow(nl.model(), recalc_spec(nl, pullup, pulldown, s, n)),
        recalc_spec(nl, pullup, pulldown, s, n).trans_on.len() == s.trans_on.len(),
        recalc_spec(nl, pullup, pulldown, s, n).value.len() == s.value.len(),
{
    let m = nl.model();
    nl.lemma_wf();
    if !m.is_rail(n as int) {
        let st1 = Stats { node_recalcs: s.stats.node_recalcs.wrapping_add(1), ..s.stats };
        let g = group_of_spec(m, s.trans_on, n);
        let d = group_drive(nl, s.value, pullup, pulldown, g);
        let st2 = group_stats(nl, s.value, pullup, pulldown, g, st1);
        let s1 = Sim { stats: st2, ..s };
        crate::engine::lemma_usable_groups_in_range(nl, s.trans_on, n);
        lemma_write_members_follow(m, s1, g, drive_level(d));
    }
}


/// Switches follow their gates through a whole round of recalculations.
pub proof fn law_round_keeps_switches_following(
    nl: Netlist,
    pullup: Seq<bool>,
    pulldown: Seq<bool>,
    s: Sim,
    cur: Seq<u16>,
)
    requires
        usable(nl),
        nl.model().trans_count() <= 65536,
        forall|k: int| 0 <= k < cur.len() ==> (cur[k] as int) < nl.model().node_count,
        s.trans_on.len() == nl.model().trans_count(),
        s.value.len() == nl.model().node_count,
        switches_follow(nl.model(), s),
    ensures
        switches_follow(nl.model(), round_spec(nl, pullup, pulldown, s, cur)),
        round_spec(nl, pullup, pulldown, s, cur).trans_on.len() == s.trans_on.len(),
        round_spec(nl, pullup, pulldown, s, cur).value.len() == s.value.len(),
    decreases cur.len(),
{
    if cur.len() > 0 {
        assert forall|k: int| 0 <= k < cur.drop_last().len() implies (cur.drop_last()[k] as int)
            < nl.model().node_count by {
            assert(cur.drop_last()[k] == cur[k]);
        }
        law_round_keeps_switches_following(nl, pullup, pulldown, s, cur.drop_last());
        let s1 = round_spec(nl, pullup, pulldown, s, cur.drop_last());
        assert((cur.last() as int) < nl.model().node_count);
        law_recalc_keeps_switches_following(nl, pullup, pulldown, s1, cur.last());
    }
}


/// Every queued node is a node.
pub open spec fn queue_in_range(m: NetModel, q: Seq<u16>) -> bool {
    forall|k: int| 0 <= k < q.len() ==> (#[trigger] q[k] as int) < m.node_count
}

proof fn lemma_queue_spec_in_range(m: NetModel, q: Seq<u16>, n: u16)
    requires
        queue_in_range(m, q),
        !m.is_rail(n as int) ==> (n as int) < m.node_count,
    ensures
        queue_in_range(m, queue_spec(m, q, n)),
{
    let r = queue_spec(m, q, n);
    assert forall|k: int| 0 <= k < r.len() implies (#[trigger] r[k] as int) < m.node_count by {
        if k < q.len() {
            assert(r[k] == q[k]);
        }
    }
}

proof fn lemma_switch_all_in_range(m: NetModel, s: Sim, ts: Seq<u16>, level: bool)
    requires
        m.ends_in_range(),
        queue_in_range(m, s.next),
        forall|k: int| 0 <= k < ts.len() ==> (ts[k] as int) < m.gate.len(),
    ensures
        queue_in_range(m, switch_all(m, s, ts, level).next),
    decreases ts.len(),
{
    if ts.len() > 0 {
        assert forall|k: int| 0 <= k < ts.drop_last().len() implies (ts.drop_last()[k] as int) < m.gate.len() by {
            assert(ts.drop_last()[k] == ts[k]);
        }
        lemma_switch_all_in_range(m, s, ts.drop_last(), level);
        let s1 = switch_all(m, s, ts.drop_last(), level);
        let t = ts.last() as int;
        assert(t < m.gate.len());
        lemma_queue_spec_in_range(m, s1.next, m.c1[t]);
        lemma_queue_spec_in_range(m, queue_spec(m, s1.next, m.c1[t]), m.c2[t]);
    }
}

proof fn lemma_write_members_in_range(m: NetModel, s: Sim, g: Seq<u16>, level: bool)
    requires
        m.ends_in_range(),
        queue_in_range(m, s.next),
    ensures
        queue_in_range(m, write_members(m, s, g, level).next),
    decreases g.len(),
{
    if g.len() > 0 {
        lemma_write_members_in_range(m, s, g.drop_last(), level);
        let s1 = write_members(m, s, g.drop_last(), level);
        let x = g.last() as int;
        if !(m.is_rail(x) || s1.value[x] == level) {
            lemma_gates_are_transistors(m, x);
            lemma_switch_all_in_range(m, Sim { value: s1.value.update(x, level), ..s1 }, spec_gates_of(m, x), level);
        }
    }
}

proof fn lemma_round_in_range(nl: Netlist, pullup: Seq<bool>, pulldown: Seq<bool>, s: Sim, cur: Seq<u16>)
    requires
        nl.wf(),
        queue_in_range(nl.model(), s.next),
    ensures
        queue_in_range(nl.model(), round_spec(nl, pullup, pulldown, s, cur).next),
    decreases cur.len(),
{
    nl.lemma_wf();
    if cur.len() > 0 {
        lemma_round_in_range(nl, pullup, pulldown, s, cur.drop_last());
        let s1 = round_spec(nl, pullup, pulldown, s, cur.drop_last());
        let m = nl.model();
        let n = cur.last();
        if !m.is_rail(n as int) {
            let st1 = Stats { node_recalcs: s1.stats.node_recalcs.wrapping_add(1), ..s1.stats };
            let g = group_of_spec(m, s1.trans_on, n);
            let d = group_drive(nl, s1.value, pullup, pulldown, g);
            let st2 = group_stats(nl, s1.value, pullup, pulldown, g, st1);
            lemma_write_members_in_range(m, Sim { stats: st2, ..s1 }, g, drive_level(d));
        }
    }
}

proof fn lemma_rounds_keep_following(
    nl: Netlist,
    pullup: Seq<bool>,
    pulldown: Seq<bool>,
    s: Sim,
    cur: Seq<u16>,
    k: nat,
)
    requires
        usable(nl),
        nl.model().trans_count() <= 65536,
        queue_in_range(nl.model(), cur),
        s.trans_on.len() == nl.model().trans_count(),
        s.value.len() == nl.model().node_count,
        switches_follow(nl.model(), s),
    ensures
        switches_follow(nl.model(), rounds_spec(nl, pullup, pulldown, s, cur, k).0),
    decreases k,
{
    if k > 0 && cur.len() > 0 {
        let s1 = Sim {
            next: Seq::empty(),
            stats: Stats { rounds: s.stats.rounds.wrapping_add(1), ..s.stats },
            ..s
        };
        law_round_keeps_switches_following(nl, pullup, pulldown, s1, cur);
        lemma_round_in_range(nl, pullup, pulldown, s1, cur);
        let s2 = round_spec(nl, pullup, pulldown, s1, cur);
        lemma_rounds_keep_following(nl, pullup, pulldown, Sim { next: Seq::empty(), ..s2 }, s2.next, (k - 1) as nat);
    }
}

/// Settling keeps every switch in step with its gate: where each
/// transistor gated by a node that is not a rail is on exactly when its gate
/// is high before a settle, the same holds after it, whatever the seeds.
/// (For a netlist whose rails are nodes and whose transistor numbers fit a
/// `TransId`.)
pub proof fn law_settle_keeps_switches_following(
    nl: Netlist,
    pullup: Seq<bool>,
    pulldown: Seq<bool>,
    value: Seq<bool>,
    trans_on: Seq<bool>,
    stats: Stats,
    seeds: Seq<u16>,
)
    requires
        usable(nl),
        nl.model().trans_count() <= 65536,
        forall|k: int| 0 <= k < seeds.len() ==> (seeds[k] as int) < nl.model().node_count,
        trans_on.len() == nl.model().trans_count(),
        value.len() == nl.model().node_count,
        switches_follow(nl.model(), Sim { value, trans_on, next: Seq::empty(), stats }),
    ensures
        switches_follow(nl.model(), settle_spec(nl, pullup, pulldown, value, trans_on, stats, seeds)),
{
    let s0 = Sim {
        value,
        trans_on,
        next: Seq::empty(),
        stats: Stats { settles: stats.settles.wrapping_add(1), ..stats },
    };
    assert(queue_in_range(nl.model(), seeds));
    let m = nl.model();
    let before = Sim { value, trans_on, next: Seq::empty(), stats };
    assert forall|t: int| 0 <= t < m.trans_count() && !m.is_rail(m.gate[t] as int) implies #[trigger] s0.trans_on[t]
        == s0.value[m.gate[t] as int] by {
        assert(before.trans_on[t] == before.value[m.gate[t] as int]);
    }
    lemma_rounds_keep_following(nl, pullup, pulldown, s0, seeds, MAX_SETTLE_ROUNDS as nat);
}

/// The power-on state has every switch in step with its gate: all nodes
/// low but the supply, all switches off.
pub proof fn law_power_on_switches_follow(nl: Netlist, stats: Stats)
    requires
        usable(nl),
    ensures
        switches_follow(
            nl.model(),
            Sim {
                value: Seq::new(nl.model().node_count, |i: int| false).update(nl.model().vcc as int, true),
                trans_on: Seq::new(nl.model().trans_count(), |i: int| false),
                next: Seq::empty(),
                stats,
            },
        ),
{
    nl.lemma_wf();
    let m = nl.model();
    let v = Seq::new(m.node_count, |i: int| false).update(m.vcc as int, true);
    let on = Seq::new(m.trans_count(), |i: int| false);
    let p = Sim { value: v, trans_on: on, next: Seq::empty(), stats };
    assert forall|t: int| 0 <= t < m.trans_count() && !m.is_rail(m.gate[t] as int) implies #[trigger] p.trans_on[t]
        == p.value[m.gate[t] as int] by {
        assert((m.gate[t] as int) < m.node_count);
        assert(m.gate[t] as int != m.vcc as int);
    }
}

} // verus!
use vstd::prelude::*;

use crate::transaction::spec_txid;
use crate::wire::{
    le_bytes, le_value, lemma_le_bytes_len, lemma_le_round_trip, lemma_parse_bytes_len,
    lemma_parse_txin_len, lemma_parse_txins_counted_len, lemma_parse_txins_len,
    lemma_parse_txout_len, lemma_parse_txouts_counted_len, lemma_parse_txouts_len,
    lemma_parse_witness_items_len, lemma_parse_witness_len, lemma_parse_witness_list_len,
    lemma_pow256_values, lemma_varint_parse_len, parse_bytes, parse_legacy_tail, parse_tx,
    parse_txin, parse_txins, parse_txins_counted, parse_txout, parse_txouts,
    parse_txouts_counted, parse_witness, parse_witness_items, parse_witness_list, serial_tx,
    serial_txin, serial_txin_items, varint_parse, varint_serial, parse_witness_tail, ParseErr,
    TransactionV, TxInV,
};

verus! {

// ============================================================
// The format's general laws, each proved once and for all.
// ============================================================

/// CompactSize round trip: the minimal encoding of any value, followed
/// by anything at all, reads back as that value and consumes exactly
/// the encoding; and the encoding has the documented width for each of
/// the four value ranges.
pub proof fn lemma_varint_round_trip(v: u64, rest: Seq<u8>)
    ensures
        varint_parse(varint_serial(v) + rest) == Some((v, varint_serial(v).len() as int)),
        v <= 0xFC ==> varint_serial(v).len() == 1,
        0xFC < v <= 0xFFFF ==> varint_serial(v).len() == 3,
        0xFFFF < v <= 0xFFFF_FFFF ==> varint_serial(v).len() == 5,
        0xFFFF_FFFF < v ==> varint_serial(v).len() == 9,
{
    lemma_pow256_values();
    let s = varint_serial(v) + rest;
    if v <= 0xFC {
        assert(s[0] == v as u8);
        assert(s[0] as u64 == v);
    } else if v <= 0xFFFF {
        lemma_le_bytes_len(v as nat, 2);
        assert(s[0] == 0xFDu8);
        assert(s.subrange(1, 3) =~= le_bytes(v as nat, 2));
        lemma_le_round_trip(v as nat, 2);
    } else if v <= 0xFFFF_FFFF {
        lemma_le_bytes_len(v as nat, 4);
        assert(s[0] == 0xFEu8);
        assert(s.subrange(1, 5) =~= le_bytes(v as nat, 4));
        lemma_le_round_trip(v as nat, 4);
    } else {
        lemma_le_bytes_len(v as nat, 8);
        assert(s[0] == 0xFFu8);
        assert(s.subrange(1, 9) =~= le_bytes(v as nat, 8));
        lemma_le_round_trip(v as nat, 8);
    }
}

/// Two input lists that agree on everything except the attached
/// witness stacks serialize identically: the wire form of an input
/// never includes its witness.
proof fn lemma_serial_items_witness_blind(xs: Seq<TxInV>, ys: Seq<TxInV>)
    requires
        xs.len() == ys.len(),
        forall|i: int|
            0 <= i < xs.len() ==> xs[i].tx_id == ys[i].tx_id && xs[i].output_index
                == ys[i].output_index && xs[i].script == ys[i].script && xs[i].sequence
                == ys[i].sequence,
    ensures
        serial_txin_items(xs) == serial_txin_items(ys),
    decreases xs.len(),
{
    if xs.len() > 0 {
        assert(serial_txin(xs[0]) == serial_txin(ys[0]));
        assert forall|i: int|
            0 <= i < xs.drop_first().len() implies #[trigger] xs.drop_first()[i].tx_id
            == ys.drop_first()[i].tx_id && xs.drop_first()[i].output_index
            == ys.drop_first()[i].output_index && xs.drop_first()[i].script
            == ys.drop_first()[i].script && xs.drop_first()[i].sequence
            == ys.drop_first()[i].sequence by {
            assert(xs.drop_first()[i] == xs[i + 1]);
            assert(ys.drop_first()[i] == ys[i + 1]);
        }
        lemma_serial_items_witness_blind(xs.drop_first(), ys.drop_first());
    }
}

/// Witness invariance: two transactions that differ only in attached
/// witness content — same version, same inputs' non-witness fields,
/// same outputs, same lock-time — have the same canonical
/// serialization, and therefore the same identifier.
pub proof fn lemma_txid_witness_invariance(a: TransactionV, b: TransactionV)
    requires
        a.version == b.version,
        a.lock_time == b.lock_time,
        a.outputs == b.outputs,
        a.inputs.len() == b.inputs.len(),
        forall|i: int|
            0 <= i < a.inputs.len() ==> a.inputs[i].tx_id == b.inputs[i].tx_id
                && a.inputs[i].output_index == b.inputs[i].output_index && a.inputs[i].script
                == b.inputs[i].script && a.inputs[i].sequence == b.inputs[i].sequence,
    ensures
        serial_tx(a) == serial_tx(b),
        spec_txid(a) == spec_txid(b),
{
    lemma_serial_items_witness_blind(a.inputs, b.inputs);
}

// ------------------------------------------------------------
// A parse result depends only on the bytes it consumed. The
// lemmas below make that exact, one parse function at a time:
// two sequences that agree on the consumed prefix parse alike.
// ------------------------------------------------------------

proof fn lemma_seg_agree(s: Seq<u8>, t: Seq<u8>, n: int, a: int, b: int)
    requires
        0 <= a <= b <= n,
        n <= s.len(),
        n <= t.len(),
        s.take(n) == t.take(n),
    ensures
        s.subrange(a, b) == t.subrange(a, b),
        s.skip(a).take(b - a) == t.skip(a).take(b - a),
        s.take(b) == t.take(b),
{
    assert forall|i: int| 0 <= i < b - a implies s.subrange(a, b)[i] == t.subrange(a, b)[i] by {
        assert(s.take(n)[a + i] == t.take(n)[a + i]);
        assert(s.take(n)[a + i] == s[a + i]);
        assert(t.take(n)[a + i] == t[a + i]);
        assert(s.subrange(a, b)[i] == s[a + i]);
        assert(t.subrange(a, b)[i] == t[a + i]);
    }
    assert(s.subrange(a, b) =~= t.subrange(a, b));
    assert(s.skip(a).take(b - a) =~= s.subrange(a, b));
    assert(t.skip(a).take(b - a) =~= t.subrange(a, b));
    assert forall|i: int| 0 <= i < b implies s.take(b)[i] == t.take(b)[i] by {
        assert(s.take(n)[i] == t.take(n)[i]);
    }
    assert(s.take(b) =~= t.take(b));
}

proof fn lemma_varint_parse_agree(s: Seq<u8>, t: Seq<u8>)
    requires
        varint_parse(s) is Some,
        varint_parse(s)->Some_0.1 <= t.len(),
        t.take(varint_parse(s)->Some_0.1) == s.take(varint_parse(s)->Some_0.1),
    ensures
        varint_parse(t) == varint_parse(s),
{
    let n = varint_parse(s)->Some_0.1;
    lemma_varint_parse_len(s);
    assert(t[0] == s[0]) by {
        assert(t.take(n)[0] == s.take(n)[0]);
    }
    if s[0] == 0xFF {
        lemma_seg_agree(s, t, 9, 1, 9);
    } else if s[0] == 0xFE {
        lemma_seg_agree(s, t, 5, 1, 5);
    } else if s[0] == 0xFD {
        lemma_seg_agree(s, t, 3, 1, 3);
    }
}

proof fn lemma_parse_bytes_agree(s: Seq<u8>, t: Seq<u8>)
    requires
        parse_bytes(s) is Some,
        parse_bytes(s)->Some_0.1 <= t.len(),
        t.take(parse_bytes(s)->Some_0.1) == s.take(parse_bytes(s)->Some_0.1),
    ensures
        parse_bytes(t) == parse_bytes(s),
{
    let p = parse_bytes(s)->Some_0;
    let q = varint_parse(s)->Some_0;
    lemma_varint_parse_len(s);
    lemma_parse_bytes_len(s);
    lemma_seg_agree(s, t, p.1, 0, q.1);
    assert(s.take(q.1) =~= s.subrange(0, q.1));
    assert(t.take(q.1) =~= t.subrange(0, q.1));
    lemma_varint_parse_agree(s, t);
    lemma_seg_agree(s, t, p.1, q.1, p.1);
}

proof fn lemma_parse_txin_agree(s: Seq<u8>, t: Seq<u8>)
    requires
        parse_txin(s) is Some,
        parse_txin(s)->Some_0.1 <= t.len(),
        t.take(parse_txin(s)->Some_0.1) == s.take(parse_txin(s)->Some_0.1),
    ensures
        parse_txin(t) == parse_txin(s),
{
    let p = parse_txin(s)->Some_0;
    let pb = parse_bytes(s.skip(36))->Some_0;
    lemma_parse_txin_len(s);
    lemma_parse_bytes_len(s.skip(36));
    lemma_seg_agree(s, t, p.1, 0, 32);
    assert(s.take(32) =~= s.subrange(0, 32));
    assert(t.take(32) =~= t.subrange(0, 32));
    lemma_seg_agree(s, t, p.1, 32, 36);
    lemma_seg_agree(s, t, p.1, 36, 36 + pb.1);
    lemma_parse_bytes_agree(s.skip(36), t.skip(36));
    lemma_seg_agree(s, t, p.1, 36 + pb.1, p.1);
}

proof fn lemma_parse_txins_agree(s: Seq<u8>, t: Seq<u8>, count: nat)
    requires
        parse_txins(s, count) is Some,
        parse_txins(s, count)->Some_0.1 <= t.len(),
        t.take(parse_txins(s, count)->Some_0.1) == s.take(parse_txins(s, count)->Some_0.1),
    ensures
        parse_txins(t, count) == parse_txins(s, count),
    decreases count,
{
    if count > 0 {
        let p = parse_txins(s, count)->Some_0;
        let p1 = parse_txin(s)->Some_0;
        lemma_parse_txin_len(s);
        lemma_parse_txins_len(s.skip(p1.1), (count - 1) as nat);
        lemma_seg_agree(s, t, p.1, 0, p1.1);
        assert(s.take(p1.1) =~= s.subrange(0, p1.1));
        assert(t.take(p1.1) =~= t.subrange(0, p1.1));
        lemma_parse_txin_agree(s, t);
        lemma_seg_agree(s, t, p.1, p1.1, p.1);
        lemma_parse_txins_agree(s.skip(p1.1), t.skip(p1.1), (count - 1) as nat);
    }
}

proof fn lemma_parse_txins_counted_agree(s: Seq<u8>, t: Seq<u8>)
    requires
        parse_txins_counted(s) is Some,
        parse_txins_counted(s)->Some_0.1 <= t.len(),
        t.take(parse_txins_counted(s)->Some_0.1) == s.take(parse_txins_counted(s)->Some_0.1),
    ensures
        parse_txins_counted(t) == parse_txins_counted(s),
{
    let p = parse_txins_counted(s)->Some_0;
    let q = varint_parse(s)->Some_0;
    lemma_varint_parse_len(s);
    lemma_parse_txins_len(s.skip(q.1), q.0 as nat);
    lemma_seg_agree(s, t, p.1, 0, q.1);
    assert(s.take(q.1) =~= s.subrange(0, q.1));
    assert(t.take(q.1) =~= t.subrange(0, q.1));
    lemma_varint_parse_agree(s, t);
    lemma_seg_agree(s, t, p.1, q.1, p.1);
    lemma_parse_txins_agree(s.skip(q.1), t.skip(q.1), q.0 as nat);
}

proof fn lemma_parse_txout_agree(s: Seq<u8>, t: Seq<u8>)
    requires
        parse_txout(s) is Some,
        parse_txout(s)->Some_0.1 <= t.len(),
        t.take(parse_txout(s)->Some_0.1) == s.take(parse_txout(s)->Some_0.1),
    ensures
        parse_txout(t) == parse_txout(s),
{
    let p = parse_txout(s)->Some_0;
    lemma_parse_txout_len(s);
    lemma_parse_bytes_len(s.skip(8));
    lemma_seg_agree(s, t, p.1, 0, 8);
    assert(s.take(8) =~= s.subrange(0, 8));
    assert(t.take(8) =~= t.subrange(0, 8));
    lemma_seg_agree(s, t, p.1, 8, p.1);
    lemma_parse_bytes_agree(s.skip(8), t.skip(8));
}

proof fn lemma_parse_txouts_agree(s: Seq<u8>, t: Seq<u8>, count: nat)
    requires
        parse_txouts(s, count) is Some,
        parse_txouts(s, count)->Some_0.1 <= t.len(),
        t.take(parse_txouts(s, count)->Some_0.1) == s.take(parse_txouts(s, count)->Some_0.1),
    ensures
        parse_txouts(t, count) == parse_txouts(s, count),
    decreases count,
{
    if count > 0 {
        let p = parse_txouts(s, count)->Some_0;
        let p1 = parse_txout(s)->Some_0;
        lemma_parse_txout_len(s);
        lemma_parse_txouts_len(s.skip(p1.1), (count - 1) as nat);
        lemma_seg_agree(s, t, p.1, 0, p1.1);
        assert(s.take(p1.1) =~= s.subrange(0, p1.1));
        assert(t.take(p1.1) =~= t.subrange(0, p1.1));
        lemma_parse_txout_agree(s, t);
        lemma_seg_agree(s, t, p.1, p1.1, p.1);
        lemma_parse_txouts_agree(s.skip(p1.1), t.skip(p1.1), (count - 1) as nat);
    }
}

proof fn lemma_parse_txouts_counted_agree(s: Seq<u8>, t: Seq<u8>)
    requires
        parse_txouts_counted(s) is Some,
        parse_txouts_counted(s)->Some_0.1 <= t.len(),
        t.take(parse_txouts_counted(s)->Some_0.1) == s.take(parse_txouts_counted(s)->Some_0.1),
    ensures
        parse_txouts_counted(t) == parse_txouts_counted(s),
{
    let p = parse_txouts_counted(s)->Some_0;
    let q = varint_parse(s)->Some_0;
    lemma_varint_parse_len(s);
    lemma_parse_txouts_len(s.skip(q.1), q.0 as nat);
    lemma_seg_agree(s, t, p.1, 0, q.1);
    assert(s.take(q.1) =~= s.subrange(0, q.1));
    assert(t.take(q.1) =~= t.subrange(0, q.1));
    lemma_varint_parse_agree(s, t);
    lemma_seg_agree(s, t, p.1, q.1, p.1);
    lemma_parse_txouts_agree(s.skip(q.1), t.skip(q.1), q.0 as nat);
}

proof fn lemma_parse_witness_items_agree(s: Seq<u8>, t: Seq<u8>, count: nat)
    requires
        parse_witness_items(s, count) is Some,
        parse_witness_items(s, count)->Some_0.1 <= t.len(),
        t.take(parse_witness_items(s, count)->Some_0.1) == s.take(
            parse_witness_items(s, count)->Some_0.1,
        ),
    ensures
        parse_witness_items(t, count) == parse_witness_items(s, count),
    decreases count,
{
    if count > 0 {
        let p = parse_witness_items(s, count)->Some_0;
        let p1 = parse_bytes(s)->Some_0;
        lemma_parse_bytes_len(s);
        lemma_parse_witness_items_len(s.skip(p1.1), (count - 1) as nat);
        lemma_seg_agree(s, t, p.1, 0, p1.1);
        assert(s.take(p1.1) =~= s.subrange(0, p1.1));
        assert(t.take(p1.1) =~= t.subrange(0, p1.1));
        lemma_parse_bytes_agree(s, t);
        lemma_seg_agree(s, t, p.1, p1.1, p.1);
        lemma_parse_witness_items_agree(s.skip(p1.1), t.skip(p1.1), (count - 1) as nat);
    }
}

proof fn lemma_parse_witness_agree(s: Seq<u8>, t: Seq<u8>)
    requires
        parse_witness(s) is Some,
        parse_witness(s)->Some_0.1 <= t.len(),
        t.take(parse_witness(s)->Some_0.1) == s.take(parse_witness(s)->Some_0.1),
    ensures
        parse_witness(t) == parse_witness(s),
{
    let p = parse_witness(s)->Some_0;
    lemma_parse_witness_len(s);
    lemma_parse_witness_items_len(s.skip(1), s[0] as nat);
    assert(t[0] == s[0]) by {
        assert(t.take(p.1)[0] == s.take(p.1)[0]);
    }
    lemma_seg_agree(s, t, p.1, 1, p.1);
    lemma_parse_witness_items_agree(s.skip(1), t.skip(1), s[0] as nat);
}

proof fn lemma_parse_witness_list_agree(s: Seq<u8>, t: Seq<u8>, count: nat)
    requires
        parse_witness_list(s, count) is Some,
        parse_witness_list(s, count)->Some_0.1 <= t.len(),
        t.take(parse_witness_list(s, count)->Some_0.1) == s.take(
            parse_witness_list(s, count)->Some_0.1,
        ),
    ensures
        parse_witness_list(t, count) == parse_witness_list(s, count),
    decreases count,
{
    if count > 0 {
        let p = parse_witness_list(s, count)->Some_0;
        let p1 = parse_witness(s)->Some_0;
        lemma_parse_witness_len(s);
        lemma_parse_witness_list_len(s.skip(p1.1), (count - 1) as nat);
        lemma_seg_agree(s, t, p.1, 0, p1.1);
        assert(s.take(p1.1) =~= s.subrange(0, p1.1));
        assert(t.take(p1.1) =~= t.subrange(0, p1.1));
        lemma_parse_witness_agree(s, t);
        lemma_seg_agree(s, t, p.1, p1.1, p.1);
        lemma_parse_witness_list_agree(s.skip(p1.1), t.skip(p1.1), (count - 1) as nat);
    }
}

#[verifier::rlimit(100)]
#[verifier::spinoff_prover]
proof fn lemma_parse_witness_tail_agree(version: u32, s: Seq<u8>, t: Seq<u8>)
    requires
        parse_witness_tail(version, s) is Ok,
        parse_witness_tail(version, s)->Ok_0.1 <= t.len(),
        t.take(parse_witness_tail(version, s)->Ok_0.1) == s.take(
            parse_witness_tail(version, s)->Ok_0.1,
        ),
    ensures
        parse_witness_tail(version, t) == parse_witness_tail(version, s),
{
    let p = parse_witness_tail(version, s)->Ok_0;
    let s1 = s.skip(1);
    let q1 = parse_txins_counted(s1)->Some_0;
    let q2 = parse_txouts_counted(s1.skip(q1.1))->Some_0;
    let q3 = parse_witness_list(s1.skip(q1.1).skip(q2.1), q1.0.len() as nat)->Some_0;
    lemma_parse_txins_counted_len(s1);
    lemma_parse_txouts_counted_len(s1.skip(q1.1));
    lemma_parse_witness_list_len(s1.skip(q1.1).skip(q2.1), q1.0.len() as nat);
    assert(t[0] == s[0]) by {
        assert(t.take(p.1)[0] == s.take(p.1)[0]);
    }
    lemma_seg_agree(s, t, p.1, 1, 1 + q1.1);
    lemma_parse_txins_counted_agree(s1, t.skip(1));
    lemma_seg_agree(s, t, p.1, 1 + q1.1, 1 + q1.1 + q2.1);
    assert(s1.skip(q1.1) =~= s.skip(1 + q1.1));
    assert(t.skip(1).skip(q1.1) =~= t.skip(1 + q1.1));
    assert(s.skip(1 + q1.1).take(q2.1) == t.skip(1 + q1.1).take(q2.1));
    lemma_parse_txouts_counted_agree(s.skip(1 + q1.1), t.skip(1 + q1.1));
    lemma_seg_agree(s, t, p.1, 1 + q1.1 + q2.1, 1 + q1.1 + q2.1 + q3.1);
    assert(s1.skip(q1.1).skip(q2.1) =~= s.skip(1 + q1.1 + q2.1));
    assert(t.skip(1 + q1.1).skip(q2.1) =~= t.skip(1 + q1.1 + q2.1));
    lemma_parse_witness_list_agree(
        s.skip(1 + q1.1 + q2.1),
        t.skip(1 + q1.1 + q2.1),
        q1.0.len() as nat,
    );
    lemma_seg_agree(s, t, p.1, 1 + q1.1 + q2.1 + q3.1, p.1);
    assert(s.skip(1 + q1.1 + q2.1).skip(q3.1) =~= s.skip(1 + q1.1 + q2.1 + q3.1));
    assert(t.skip(1 + q1.1 + q2.1).skip(q3.1) =~= t.skip(1 + q1.1 + q2.1 + q3.1));
}

proof fn lemma_parse_legacy_tail_agree(version: u32, ins: Seq<TxInV>, s: Seq<u8>, t: Seq<u8>)
    requires
        parse_legacy_tail(version, ins, s) is Ok,
        parse_legacy_tail(version, ins, s)->Ok_0.1 <= t.len(),
        t.take(parse_legacy_tail(version, ins, s)->Ok_0.1) == s.take(
            parse_legacy_tail(version, ins, s)->Ok_0.1,
        ),
    ensures
        parse_legacy_tail(version, ins, t) == parse_legacy_tail(version, ins, s),
{
    let p = parse_legacy_tail(version, ins, s)->Ok_0;
    let q = parse_txouts_counted(s)->Some_0;
    lemma_parse_txouts_counted_len(s);
    lemma_seg_agree(s, t, p.1, 0, q.1);
    assert(s.take(q.1) =~= s.subrange(0, q.1));
    assert(t.take(q.1) =~= t.subrange(0, q.1));
    lemma_parse_txouts_counted_agree(s, t);
    lemma_seg_agree(s, t, p.1, q.1, p.1);
}

/// A successful parse is a function of the bytes it consumed alone:
/// any byte sequence that begins with the same consumed prefix parses
/// to the very same transaction and length.
#[verifier::rlimit(100)]
pub proof fn lemma_parse_tx_agree(s: Seq<u8>, t: Seq<u8>)
    requires
        parse_tx(s) is Ok,
        parse_tx(s)->Ok_0.1 <= t.len(),
        t.take(parse_tx(s)->Ok_0.1) == s.take(parse_tx(s)->Ok_0.1),
    ensures
        parse_tx(t) == parse_tx(s),
{
    let p = parse_tx(s)->Ok_0;
    let v = le_value(s.take(4)) as u32;
    let s1 = s.skip(4);
    let q1 = parse_txins_counted(s1)->Some_0;
    lemma_parse_txins_counted_len(s1);
    crate::wire::lemma_parse_legacy_tail_len(v, q1.0, s1.skip(q1.1));
    crate::wire::lemma_parse_witness_tail_len(v, s1.skip(q1.1));
    assert(s1.skip(q1.1) =~= s.skip(4 + q1.1));
    lemma_seg_agree(s, t, p.1, 0, 4);
    assert(s.take(4) =~= s.subrange(0, 4));
    assert(t.take(4) =~= t.subrange(0, 4));
    lemma_seg_agree(s, t, p.1, 4, 4 + q1.1);
    lemma_parse_txins_counted_agree(s1, t.skip(4));
    lemma_seg_agree(s, t, p.1, 4 + q1.1, p.1);
    assert(t.skip(4).skip(q1.1) =~= t.skip(4 + q1.1));
    if q1.0.len() > 0 {
        lemma_parse_legacy_tail_agree(v, q1.0, s.skip(4 + q1.1), t.skip(4 + q1.1));
    } else {
        lemma_parse_witness_tail_agree(v, s.skip(4 + q1.1), t.skip(4 + q1.1));
    }
}

/// Trailing garbage changes nothing: bytes appended after a complete
/// transaction are ignored, so the decoded value and its identifier
/// are those of the original encoding.
pub proof fn lemma_txid_ignores_trailing_bytes(s: Seq<u8>, ext: Seq<u8>)
    requires
        parse_tx(s) is Ok,
    ensures
        parse_tx(s + ext) == parse_tx(s),
        spec_txid(parse_tx(s + ext)->Ok_0.0) == spec_txid(parse_tx(s)->Ok_0.0),
{
    let p = parse_tx(s)->Ok_0;
    lemma_parse_tx_len(s);
    assert((s + ext).take(p.1) =~= s.take(p.1));
    lemma_parse_tx_agree(s, s + ext);
}

// ------------------------------------------------------------
// Truncation: cutting a valid encoding anywhere before its end
// leaves bytes that fail to parse — and fail only for want of
// bytes, never with another error or a silent short result.
// ------------------------------------------------------------

proof fn lemma_varint_parse_truncated(s: Seq<u8>, m: int)
    requires
        varint_parse(s) is Some,
        0 <= m < varint_parse(s)->Some_0.1,
    ensures
        varint_parse(s.take(m)) is None,
{
    lemma_varint_parse_len(s);
    let t = s.take(m);
    if m > 0 {
        assert(t[0] == s[0]);
    }
}

proof fn lemma_parse_bytes_truncated(s: Seq<u8>, m: int)
    requires
        parse_bytes(s) is Some,
        0 <= m < parse_bytes(s)->Some_0.1,
    ensures
        parse_bytes(s.take(m)) is None,
{
    let q = varint_parse(s)->Some_0;
    lemma_varint_parse_len(s);
    let t = s.take(m);
    if m < q.1 {
        lemma_varint_parse_truncated(s, m);
    } else {
        assert(t.take(q.1) =~= s.take(q.1));
        lemma_varint_parse_agree(s, t);
    }
}

proof fn lemma_parse_txin_truncated(s: Seq<u8>, m: int)
    requires
        parse_txin(s) is Some,
        0 <= m < parse_txin(s)->Some_0.1,
    ensures
        parse_txin(s.take(m)) is None,
{
    let pb = parse_bytes(s.skip(36))->Some_0;
    lemma_parse_txin_len(s);
    lemma_parse_bytes_len(s.skip(36));
    let t = s.take(m);
    if m >= 36 {
        if m < 36 + pb.1 {
            assert(t.skip(36) =~= s.skip(36).take(m - 36));
            lemma_parse_bytes_truncated(s.skip(36), m - 36);
        } else {
            assert(t.skip(36).take(pb.1) =~= s.skip(36).take(pb.1));
            lemma_parse_bytes_agree(s.skip(36), t.skip(36));
        }
    }
}

proof fn lemma_parse_txins_truncated(s: Seq<u8>, count: nat, m: int)
    requires
        parse_txins(s, count) is Some,
        0 <= m < parse_txins(s, count)->Some_0.1,
    ensures
        parse_txins(s.take(m), count) is None,
    decreases count,
{
    if count > 0 {
        let p1 = parse_txin(s)->Some_0;
        lemma_parse_txin_len(s);
        lemma_parse_txins_len(s.skip(p1.1), (count - 1) as nat);
        let t = s.take(m);
        if m < p1.1 {
            lemma_parse_txin_truncated(s, m);
        } else {
            assert(t.take(p1.1) =~= s.take(p1.1));
            lemma_parse_txin_agree(s, t);
            assert(t.skip(p1.1) =~= s.skip(p1.1).take(m - p1.1));
            lemma_parse_txins_truncated(s.skip(p1.1), (count - 1) as nat, m - p1.1);
        }
    }
}

proof fn lemma_parse_txins_counted_truncated(s: Seq<u8>, m: int)
    requires
        parse_txins_counted(s) is Some,
        0 <= m < parse_txins_counted(s)->Some_0.1,
    ensures
        parse_txins_counted(s.take(m)) is None,
{
    let q = varint_parse(s)->Some_0;
    lemma_varint_parse_len(s);
    lemma_parse_txins_len(s.skip(q.1), q.0 as nat);
    let t = s.take(m);
    if m < q.1 {
        lemma_varint_parse_truncated(s, m);
    } else {
        assert(t.take(q.1) =~= s.take(q.1));
        lemma_varint_parse_agree(s, t);
        assert(t.skip(q.1) =~= s.skip(q.1).take(m - q.1));
        lemma_parse_txins_truncated(s.skip(q.1), q.0 as nat, m - q.1);
    }
}

proof fn lemma_parse_txout_truncated(s: Seq<u8>, m: int)
    requires
        parse_txout(s) is Some,
        0 <= m < parse_txout(s)->Some_0.1,
    ensures
        parse_txout(s.take(m)) is None,
{
    let pb = parse_bytes(s.skip(8))->Some_0;
    lemma_parse_txout_len(s);
    lemma_parse_bytes_len(s.skip(8));
    let t = s.take(m);
    if m >= 8 {
        assert(t.skip(8) =~= s.skip(8).take(m - 8));
        lemma_parse_bytes_truncated(s.skip(8), m - 8);
    }
}

proof fn lemma_parse_txouts_truncated(s: Seq<u8>, count: nat, m: int)
    requires
        parse_txouts(s, count) is Some,
        0 <= m < parse_txouts(s, count)->Some_0.1,
    ensures
        parse_txouts(s.take(m), count) is None,
    decreases count,
{
    if count > 0 {
        let p1 = parse_txout(s)->Some_0;
        lemma_parse_txout_len(s);
        lemma_parse_txouts_len(s.skip(p1.1), (count - 1) as nat);
        let t = s.take(m);
        if m < p1.1 {
            lemma_parse_txout_truncated(s, m);
        } else {
            assert(t.take(p1.1) =~= s.take(p1.1));
            lemma_parse_txout_agree(s, t);
            assert(t.skip(p1.1) =~= s.skip(p1.1).take(m - p1.1));
            lemma_parse_txouts_truncated(s.skip(p1.1), (count - 1) as nat, m - p1.1);
        }
    }
}

proof fn lemma_parse_txouts_counted_truncated(s: Seq<u8>, m: int)
    requires
        parse_txouts_counted(s) is Some,
        0 <= m < parse_txouts_counted(s)->Some_0.1,
    ensures
        parse_txouts_counted(s.take(m)) is None,
{
    let q = varint_parse(s)->Some_0;
    lemma_varint_parse_len(s);
    lemma_parse_txouts_len(s.skip(q.1), q.0 as nat);
    let t = s.take(m);
    if m < q.1 {
        lemma_varint_parse_truncated(s, m);
    } else {
        assert(t.take(q.1) =~= s.take(q.1));
        lemma_varint_parse_agree(s, t);
        assert(t.skip(q.1) =~= s.skip(q.1).take(m - q.1));
        lemma_parse_txouts_truncated(s.skip(q.1), q.0 as nat, m - q.1);
    }
}

proof fn lemma_parse_witness_items_truncated(s: Seq<u8>, count: nat, m: int)
    requires
        parse_witness_items(s, count) is Some,
        0 <= m < parse_witness_items(s, count)->Some_0.1,
    ensures
        parse_witness_items(s.take(m), count) is None,
    decreases count,
{
    if count > 0 {
        let p1 = parse_bytes(s)->Some_0;
        lemma_parse_bytes_len(s);
        lemma_parse_witness_items_len(s.skip(p1.1), (count - 1) as nat);
        let t = s.take(m);
        if m < p1.1 {
            lemma_parse_bytes_truncated(s, m);
        } else {
            assert(t.take(p1.1) =~= s.take(p1.1));
            lemma_parse_bytes_agree(s, t);
            assert(t.skip(p1.1) =~= s.skip(p1.1).take(m - p1.1));
            lemma_parse_witness_items_truncated(s.skip(p1.1), (count - 1) as nat, m - p1.1);
        }
    }
}

proof fn lemma_parse_witness_truncated(s: Seq<u8>, m: int)
    requires
        parse_witness(s) is Some,
        0 <= m < parse_witness(s)->Some_0.1,
    ensures
        parse_witness(s.take(m)) is None,
{
    lemma_parse_witness_len(s);
    lemma_parse_witness_items_len(s.skip(1), s[0] as nat);
    let t = s.take(m);
    if m >= 1 {
        assert(t[0] == s[0]);
        assert(t.skip(1) =~= s.skip(1).take(m - 1));
        lemma_parse_witness_items_truncated(s.skip(1), s[0] as nat, m - 1);
    }
}

proof fn lemma_parse_witness_list_truncated(s: Seq<u8>, count: nat, m: int)
    requires
        parse_witness_list(s, count) is Some,
        0 <= m < parse_witness_list(s, count)->Some_0.1,
    ensures
        parse_witness_list(s.take(m), count) is None,
    decreases count,
{
    if count > 0 {
        let p1 = parse_witness(s)->Some_0;
        lemma_parse_witness_len(s);
        lemma_parse_witness_list_len(s.skip(p1.1), (count - 1) as nat);
        let t = s.take(m);
        if m < p1.1 {
            lemma_parse_witness_truncated(s, m);
        } else {
            assert(t.take(p1.1) =~= s.take(p1.1));
            lemma_parse_witness_agree(s, t);
            assert(t.skip(p1.1) =~= s.skip(p1.1).take(m - p1.1));
            lemma_parse_witness_list_truncated(s.skip(p1.1), (count - 1) as nat, m - p1.1);
        }
    }
}

proof fn lemma_parse_legacy_tail_truncated(version: u32, ins: Seq<TxInV>, s: Seq<u8>, m: int)
    requires
        parse_legacy_tail(version, ins, s) is Ok,
        0 <= m < parse_legacy_tail(version, ins, s)->Ok_0.1,
    ensures
        parse_legacy_tail(version, ins, s.take(m)) == Err::<(TransactionV, int), ParseErr>(
            ParseErr::Truncated,
        ),
{
    let q = parse_txouts_counted(s)->Some_0;
    lemma_parse_txouts_counted_len(s);
    let t = s.take(m);
    if m < q.1 {
        lemma_parse_txouts_counted_truncated(s, m);
    } else {
        assert(t.take(q.1) =~= s.take(q.1));
        lemma_parse_txouts_counted_agree(s, t);
    }
}

#[verifier::rlimit(100)]
proof fn lemma_parse_witness_tail_truncated(version: u32, s: Seq<u8>, m: int)
    requires
        parse_witness_tail(version, s) is Ok,
        0 <= m < parse_witness_tail(version, s)->Ok_0.1,
    ensures
        parse_witness_tail(version, s.take(m)) == Err::<(TransactionV, int), ParseErr>(
            ParseErr::Truncated,
        ),
{
    let s1 = s.skip(1);
    let q1 = parse_txins_counted(s1)->Some_0;
    let q2 = parse_txouts_counted(s1.skip(q1.1))->Some_0;
    let q3 = parse_witness_list(s1.skip(q1.1).skip(q2.1), q1.0.len() as nat)->Some_0;
    lemma_parse_txins_counted_len(s1);
    lemma_parse_txouts_counted_len(s1.skip(q1.1));
    lemma_parse_witness_list_len(s1.skip(q1.1).skip(q2.1), q1.0.len() as nat);
    let t = s.take(m);
    if m >= 1 {
        assert(t[0] == s[0]);
        assert(t.skip(1) =~= s1.take(m - 1));
        if m - 1 < q1.1 {
            lemma_parse_txins_counted_truncated(s1, m - 1);
        } else {
            assert(t.skip(1).take(q1.1) =~= s1.take(q1.1));
            lemma_parse_txins_counted_agree(s1, t.skip(1));
            assert(t.skip(1).skip(q1.1) =~= s1.skip(q1.1).take(m - 1 - q1.1));
            if m - 1 - q1.1 < q2.1 {
                lemma_parse_txouts_counted_truncated(s1.skip(q1.1), m - 1 - q1.1);
            } else {
                assert(s1.skip(q1.1).take(m - 1 - q1.1).take(q2.1) =~= s1.skip(q1.1).take(q2.1));
                lemma_parse_txouts_counted_agree(s1.skip(q1.1), t.skip(1).skip(q1.1));
                assert(t.skip(1).skip(q1.1).skip(q2.1) =~= s1.skip(q1.1).skip(q2.1).take(
                    m - 1 - q1.1 - q2.1,
                ));
                if m - 1 - q1.1 - q2.1 < q3.1 {
                    lemma_parse_witness_list_truncated(
                        s1.skip(q1.1).skip(q2.1),
                        q1.0.len() as nat,
                        m - 1 - q1.1 - q2.1,
                    );
                } else {
                    assert(s1.skip(q1.1).skip(q2.1).take(m - 1 - q1.1 - q2.1).take(q3.1) =~= s1
                        .skip(q1.1)
                        .skip(q2.1)
                        .take(q3.1));
                    lemma_parse_witness_list_agree(
                        s1.skip(q1.1).skip(q2.1),
                        t.skip(1).skip(q1.1).skip(q2.1),
                        q1.0.len() as nat,
                    );
                }
            }
        }
    }
}

/// Truncation: a well-formed prefix of a valid encoding, cut at any
/// byte boundary before the end, fails with the exhaustion error —
/// never with another error, and never with a silent short result.
pub proof fn lemma_parse_tx_truncated(s: Seq<u8>, m: int)
    requires
        parse_tx(s) is Ok,
        0 <= m < parse_tx(s)->Ok_0.1,
    ensures
        parse_tx(s.take(m)) == Err::<(TransactionV, int), ParseErr>(ParseErr::Truncated),
{
    let p = parse_tx(s)->Ok_0;
    let v = le_value(s.take(4)) as u32;
    let s1 = s.skip(4);
    let q1 = parse_txins_counted(s1)->Some_0;
    lemma_parse_txins_counted_len(s1);
    crate::wire::lemma_parse_legacy_tail_len(v, q1.0, s1.skip(q1.1));
    crate::wire::lemma_parse_witness_tail_len(v, s1.skip(q1.1));
    let t = s.take(m);
    if m >= 4 {
        assert(t.take(4) =~= s.take(4));
        assert(t.skip(4) =~= s1.take(m - 4));
        if m - 4 < q1.1 {
            lemma_parse_txins_counted_truncated(s1, m - 4);
        } else {
            assert(t.skip(4).take(q1.1) =~= s1.take(q1.1));
            lemma_parse_txins_counted_agree(s1, t.skip(4));
            assert(t.skip(4).skip(q1.1) =~= s1.skip(q1.1).take(m - 4 - q1.1));
            if q1.0.len() > 0 {
                lemma_parse_legacy_tail_truncated(v, q1.0, s1.skip(q1.1), m - 4 - q1.1);
            } else {
                lemma_parse_witness_tail_truncated(v, s1.skip(q1.1), m - 4 - q1.1);
            }
        }
    }
}

/// A successful whole-transaction parse never consumes more bytes
/// than the sequence holds.
pub proof fn lemma_parse_tx_len(s: Seq<u8>)
    ensures
        parse_tx(s) matches Ok(p) ==> 1 <= p.1 <= s.len(),
{
    if s.len() >= 4 {
        let s1 = s.skip(4);
        lemma_parse_txins_counted_len(s1);
        if parse_txins_counted(s1) is Some {
            let q1 = parse_txins_counted(s1)->Some_0;
            crate::wire::lemma_parse_legacy_tail_len(
                le_value(s.take(4)) as u32,
                q1.0,
                s1.skip(q1.1),
            );
            crate::wire::lemma_parse_witness_tail_len(le_value(s.take(4)) as u32, s1.skip(q1.1));
        }
    }
}

} // verus!

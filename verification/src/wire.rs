use vstd::prelude::*;

verus! {

// ============================================================
// Mathematical model of the transaction wire format.
//
// Every integer is little-endian. Counts and lengths are
// "CompactSize" variable-width integers, except the per-input
// witness item count, which the format fixes at one byte.
//
// The `parse_*` functions read a value from the front of a byte
// sequence and report how many bytes it occupied; the `serial_*`
// functions give the canonical byte sequence of a value. The
// executable codec is specified against these functions.
// ============================================================

// ---------- little-endian fixed-width integers ----------

/// 256 raised to the power `n`: the number of values `n` bytes can hold.
pub open spec fn pow256(n: nat) -> nat
    decreases n,
{
    if n == 0 {
        1
    } else {
        256 * pow256((n - 1) as nat)
    }
}

/// The `n`-byte little-endian encoding of `v` (modulo 256^n).
pub open spec fn le_bytes(v: nat, n: nat) -> Seq<u8>
    decreases n,
{
    if n == 0 {
        Seq::empty()
    } else {
        seq![(v % 256) as u8] + le_bytes(v / 256, (n - 1) as nat)
    }
}

/// The value that a little-endian byte sequence stands for.
pub open spec fn le_value(s: Seq<u8>) -> nat
    decreases s.len(),
{
    if s.len() == 0 {
        0
    } else {
        (s[0] + 256 * le_value(s.drop_first())) as nat
    }
}

pub proof fn lemma_pow256_values()
    ensures
        pow256(1) == 0x100,
        pow256(2) == 0x1_0000,
        pow256(4) == 0x1_0000_0000,
        pow256(8) == 0x1_0000_0000_0000_0000,
{
    assert(pow256(0) == 1);
    assert(pow256(1) == 0x100);
    assert(pow256(2) == 0x1_0000);
    assert(pow256(3) == 0x100_0000);
    assert(pow256(4) == 0x1_0000_0000);
    assert(pow256(5) == 0x100_0000_0000);
    assert(pow256(6) == 0x1_0000_0000_0000);
    assert(pow256(7) == 0x100_0000_0000_0000);
    assert(pow256(8) == 0x1_0000_0000_0000_0000);
}

pub proof fn lemma_pow256_increases(m: nat, n: nat)
    requires
        m <= n,
    ensures
        pow256(m) <= pow256(n),
    decreases n,
{
    if m < n {
        lemma_pow256_increases(m, (n - 1) as nat);
        assert(pow256((n - 1) as nat) >= 1) by {
            lemma_pow256_increases(0, (n - 1) as nat);
        }
    }
}

pub proof fn lemma_le_bytes_len(v: nat, n: nat)
    ensures
        le_bytes(v, n).len() == n,
    decreases n,
{
    if n > 0 {
        lemma_le_bytes_len(v / 256, (n - 1) as nat);
    }
}

/// Round trip: encoding a value that fits in `n` bytes and reading it
/// back yields the value again.
pub proof fn lemma_le_round_trip(v: nat, n: nat)
    requires
        v < pow256(n),
    ensures
        le_value(le_bytes(v, n)) == v,
    decreases n,
{
    if n == 0 {
        assert(v == 0);
    } else {
        assert(v / 256 < pow256((n - 1) as nat)) by {
            vstd::arithmetic::div_mod::lemma_fundamental_div_mod(v as int, 256);
        }
        lemma_le_round_trip(v / 256, (n - 1) as nat);
        let enc = le_bytes(v, n);
        assert(enc.drop_first() =~= le_bytes(v / 256, (n - 1) as nat));
        vstd::arithmetic::div_mod::lemma_fundamental_div_mod(v as int, 256);
    }
}

// ---------- CompactSize (VarInt) ----------

/// The minimal-width CompactSize encoding of `v`: the narrowest of the
/// four forms that can represent the value.
pub open spec fn varint_serial(v: u64) -> Seq<u8> {
    if v <= 0xFC {
        seq![v as u8]
    } else if v <= 0xFFFF {
        seq![0xFDu8] + le_bytes(v as nat, 2)
    } else if v <= 0xFFFF_FFFF {
        seq![0xFEu8] + le_bytes(v as nat, 4)
    } else {
        seq![0xFFu8] + le_bytes(v as nat, 8)
    }
}

/// Reads a CompactSize from the front of `s`. Accepts any of the four
/// widths whatever the value (non-minimal encodings are tolerated).
pub open spec fn varint_parse(s: Seq<u8>) -> Option<(u64, int)> {
    if s.len() == 0 {
        None
    } else if s[0] == 0xFF {
        if s.len() >= 9 {
            Some((le_value(s.subrange(1, 9)) as u64, 9))
        } else {
            None
        }
    } else if s[0] == 0xFE {
        if s.len() >= 5 {
            Some((le_value(s.subrange(1, 5)) as u64, 5))
        } else {
            None
        }
    } else if s[0] == 0xFD {
        if s.len() >= 3 {
            Some((le_value(s.subrange(1, 3)) as u64, 3))
        } else {
            None
        }
    } else {
        Some((s[0] as u64, 1))
    }
}

// ---------- length-prefixed byte strings ----------

/// Reads a CompactSize length, then that many raw bytes.
pub open spec fn parse_bytes(s: Seq<u8>) -> Option<(Seq<u8>, int)> {
    match varint_parse(s) {
        Some((len, n)) => if s.len() >= n + len {
            Some((s.subrange(n, n + len), n + len))
        } else {
            None
        },
        None => None,
    }
}

/// A CompactSize length prefix followed by the bytes themselves.
pub open spec fn serial_bytes(b: Seq<u8>) -> Seq<u8> {
    varint_serial(b.len() as u64) + b
}

// ---------- abstract transaction values ----------

/// One transaction input, as an abstract value: the referenced
/// transaction's identifier in wire order, the output position in that
/// transaction, the unlocking script's raw bytes, the witness stack
/// attached to this input (empty outside witness layout), and the
/// sequence number.
pub struct TxInV {
    pub tx_id: Seq<u8>,
    pub output_index: u32,
    pub script: Seq<u8>,
    pub witness: Seq<Seq<u8>>,
    pub sequence: u32,
}

/// One transaction output: an amount in satoshis and the locking
/// script's raw bytes.
pub struct TxOutV {
    pub amount: u64,
    pub script: Seq<u8>,
}

/// A whole transaction, as an abstract value.
pub struct TransactionV {
    pub version: u32,
    pub inputs: Seq<TxInV>,
    pub outputs: Seq<TxOutV>,
    pub lock_time: u32,
}

/// How a decode attempt can fail: the stream ran out of bytes, the
/// segwit marker byte held an unsupported value, or the witness flag
/// was set with no witness data behind it (every attached witness
/// empty, or no input to attach one to).
pub enum ParseErr {
    Truncated,
    UnsupportedFlag(u8),
    MissingWitness,
}

// ---------- inputs and outputs ----------

/// One input: 32-byte prior id, 4-byte output index, length-prefixed
/// script, 4-byte sequence. The witness is never part of an input's
/// own wire form; a freshly parsed input carries an empty one.
pub open spec fn parse_txin(s: Seq<u8>) -> Option<(TxInV, int)> {
    if s.len() < 36 {
        None
    } else {
        let tx_id = s.take(32);
        let output_index = le_value(s.subrange(32, 36)) as u32;
        match parse_bytes(s.skip(36)) {
            Some((script, n)) => if s.len() >= 36 + n + 4 {
                Some(
                    (
                        TxInV {
                            tx_id,
                            output_index,
                            script,
                            witness: Seq::empty(),
                            sequence: le_value(s.subrange(36 + n, 36 + n + 4)) as u32,
                        },
                        36 + n + 4,
                    ),
                )
            } else {
                None
            },
            None => None,
        }
    }
}

/// `count` inputs, one after the other.
pub open spec fn parse_txins(s: Seq<u8>, count: nat) -> Option<(Seq<TxInV>, int)>
    decreases count,
{
    if count == 0 {
        Some((Seq::empty(), 0))
    } else {
        match parse_txin(s) {
            Some((t, n)) => match parse_txins(s.skip(n), (count - 1) as nat) {
                Some((ts, m)) => Some((seq![t] + ts, n + m)),
                None => None,
            },
            None => None,
        }
    }
}

/// A CompactSize input count followed by that many inputs.
pub open spec fn parse_txins_counted(s: Seq<u8>) -> Option<(Seq<TxInV>, int)> {
    match varint_parse(s) {
        Some((count, n)) => match parse_txins(s.skip(n), count as nat) {
            Some((ts, m)) => Some((ts, n + m)),
            None => None,
        },
        None => None,
    }
}

/// One output: 8-byte amount in satoshis, length-prefixed script.
pub open spec fn parse_txout(s: Seq<u8>) -> Option<(TxOutV, int)> {
    if s.len() < 8 {
        None
    } else {
        let amount = le_value(s.take(8)) as u64;
        match parse_bytes(s.skip(8)) {
            Some((script, n)) => Some((TxOutV { amount, script }, 8 + n)),
            None => None,
        }
    }
}

/// `count` outputs, one after the other.
pub open spec fn parse_txouts(s: Seq<u8>, count: nat) -> Option<(Seq<TxOutV>, int)>
    decreases count,
{
    if count == 0 {
        Some((Seq::empty(), 0))
    } else {
        match parse_txout(s) {
            Some((t, n)) => match parse_txouts(s.skip(n), (count - 1) as nat) {
                Some((ts, m)) => Some((seq![t] + ts, n + m)),
                None => None,
            },
            None => None,
        }
    }
}

/// A CompactSize output count followed by that many outputs.
pub open spec fn parse_txouts_counted(s: Seq<u8>) -> Option<(Seq<TxOutV>, int)> {
    match varint_parse(s) {
        Some((count, n)) => match parse_txouts(s.skip(n), count as nat) {
            Some((ts, m)) => Some((ts, n + m)),
            None => None,
        },
        None => None,
    }
}

// ---------- witnesses ----------

/// `count` length-prefixed witness stack items.
pub open spec fn parse_witness_items(s: Seq<u8>, count: nat) -> Option<(Seq<Seq<u8>>, int)>
    decreases count,
{
    if count == 0 {
        Some((Seq::empty(), 0))
    } else {
        match parse_bytes(s) {
            Some((item, n)) => match parse_witness_items(s.skip(n), (count - 1) as nat) {
                Some((items, m)) => Some((seq![item] + items, n + m)),
                None => None,
            },
            None => None,
        }
    }
}

/// One witness stack: a single count byte (not a CompactSize; the
/// format caps a stack at 255 items), then that many items.
pub open spec fn parse_witness(s: Seq<u8>) -> Option<(Seq<Seq<u8>>, int)> {
    if s.len() < 1 {
        None
    } else {
        match parse_witness_items(s.skip(1), s[0] as nat) {
            Some((items, m)) => Some((items, 1 + m)),
            None => None,
        }
    }
}

/// `count` witness stacks, one per input, in input order.
pub open spec fn parse_witness_list(s: Seq<u8>, count: nat) -> Option<(Seq<Seq<Seq<u8>>>, int)>
    decreases count,
{
    if count == 0 {
        Some((Seq::empty(), 0))
    } else {
        match parse_witness(s) {
            Some((w, n)) => match parse_witness_list(s.skip(n), (count - 1) as nat) {
                Some((ws, m)) => Some((seq![w] + ws, n + m)),
                None => None,
            },
            None => None,
        }
    }
}

// ---------- the whole transaction ----------

/// Pairs each input with the witness stack parsed for it.
pub open spec fn attach_witnesses(ins: Seq<TxInV>, ws: Seq<Seq<Seq<u8>>>) -> Seq<TxInV> {
    Seq::new(
        ins.len(),
        |i: int|
            TxInV {
                tx_id: ins[i].tx_id,
                output_index: ins[i].output_index,
                script: ins[i].script,
                witness: ws[i],
                sequence: ins[i].sequence,
            },
    )
}

/// True when every witness stack in the list is empty.
pub open spec fn all_witnesses_empty(ws: Seq<Seq<Seq<u8>>>) -> bool {
    forall|i: int| 0 <= i < ws.len() ==> ws[i].len() == 0
}

/// The tail of the witness layout, after the empty marker list: the
/// flag byte (which must be 1), the true input list, the outputs, one
/// witness per input, and the lock-time. A set witness flag must be
/// backed by at least one non-empty witness; in particular an empty
/// input list, which carries no witness at all, is never a valid
/// final state.
pub open spec fn parse_witness_tail(version: u32, s: Seq<u8>) -> Result<(TransactionV, int), ParseErr> {
    if s.len() < 1 {
        Err(ParseErr::Truncated)
    } else if s[0] != 1 {
        Err(ParseErr::UnsupportedFlag(s[0]))
    } else {
        let s1 = s.skip(1);
        match parse_txins_counted(s1) {
            None => Err(ParseErr::Truncated),
            Some((ins, m1)) => {
                let s2 = s1.skip(m1);
                match parse_txouts_counted(s2) {
                    None => Err(ParseErr::Truncated),
                    Some((outs, m2)) => {
                        let s3 = s2.skip(m2);
                        match parse_witness_list(s3, ins.len() as nat) {
                            None => Err(ParseErr::Truncated),
                            Some((ws, m3)) => if all_witnesses_empty(ws) {
                                Err(ParseErr::MissingWitness)
                            } else {
                                let s4 = s3.skip(m3);
                                if s4.len() < 4 {
                                    Err(ParseErr::Truncated)
                                } else {
                                    Ok(
                                        (
                                            TransactionV {
                                                version,
                                                inputs: attach_witnesses(ins, ws),
                                                outputs: outs,
                                                lock_time: le_value(s4.take(4)) as u32,
                                            },
                                            1 + m1 + m2 + m3 + 4,
                                        ),
                                    )
                                }
                            },
                        }
                    },
                }
            },
        }
    }
}

/// The tail of the legacy layout, after a non-empty input list: the
/// outputs and the lock-time.
pub open spec fn parse_legacy_tail(
    version: u32,
    ins: Seq<TxInV>,
    s: Seq<u8>,
) -> Result<(TransactionV, int), ParseErr> {
    match parse_txouts_counted(s) {
        None => Err(ParseErr::Truncated),
        Some((outs, n2)) => {
            let s1 = s.skip(n2);
            if s1.len() < 4 {
                Err(ParseErr::Truncated)
            } else {
                Ok(
                    (
                        TransactionV {
                            version,
                            inputs: ins,
                            outputs: outs,
                            lock_time: le_value(s1.take(4)) as u32,
                        },
                        n2 + 4,
                    ),
                )
            }
        },
    }
}

/// The full decode: version, then either the legacy layout (a
/// non-empty input list, outputs, lock-time) or the witness layout
/// (an empty input list as marker, then the witness tail).
pub open spec fn parse_tx(s: Seq<u8>) -> Result<(TransactionV, int), ParseErr> {
    if s.len() < 4 {
        Err(ParseErr::Truncated)
    } else {
        let version = le_value(s.take(4)) as u32;
        let s1 = s.skip(4);
        match parse_txins_counted(s1) {
            None => Err(ParseErr::Truncated),
            Some((ins, n1)) => if ins.len() > 0 {
                match parse_legacy_tail(version, ins, s1.skip(n1)) {
                    Ok((t, m)) => Ok((t, 4 + n1 + m)),
                    Err(e) => Err(e),
                }
            } else {
                match parse_witness_tail(version, s1.skip(n1)) {
                    Ok((t, m)) => Ok((t, 4 + n1 + m)),
                    Err(e) => Err(e),
                }
            },
        }
    }
}

// ---------- every parse consumes at most what is there ----------

pub proof fn lemma_varint_parse_len(s: Seq<u8>)
    ensures
        varint_parse(s) matches Some(p) ==> 1 <= p.1 <= s.len(),
{
}

pub proof fn lemma_parse_bytes_len(s: Seq<u8>)
    ensures
        parse_bytes(s) matches Some(p) ==> 1 <= p.1 <= s.len(),
{
    lemma_varint_parse_len(s);
}

pub proof fn lemma_parse_txin_len(s: Seq<u8>)
    ensures
        parse_txin(s) matches Some(p) ==> 1 <= p.1 <= s.len(),
{
    if s.len() >= 36 {
        lemma_parse_bytes_len(s.skip(36));
    }
}

pub proof fn lemma_parse_txins_len(s: Seq<u8>, count: nat)
    ensures
        parse_txins(s, count) matches Some(p) ==> 0 <= p.1 <= s.len(),
    decreases count,
{
    if count > 0 {
        if parse_txin(s) is Some {
            let p = parse_txin(s)->Some_0;
            lemma_parse_txin_len(s);
            lemma_parse_txins_len(s.skip(p.1), (count - 1) as nat);
        }
    }
}

pub proof fn lemma_parse_txins_counted_len(s: Seq<u8>)
    ensures
        parse_txins_counted(s) matches Some(p) ==> 1 <= p.1 <= s.len(),
{
    lemma_varint_parse_len(s);
    if varint_parse(s) is Some {
        let q = varint_parse(s)->Some_0;
        lemma_parse_txins_len(s.skip(q.1), q.0 as nat);
    }
}

pub proof fn lemma_parse_txout_len(s: Seq<u8>)
    ensures
        parse_txout(s) matches Some(p) ==> 1 <= p.1 <= s.len(),
{
    if s.len() >= 8 {
        lemma_parse_bytes_len(s.skip(8));
    }
}

pub proof fn lemma_parse_txouts_len(s: Seq<u8>, count: nat)
    ensures
        parse_txouts(s, count) matches Some(p) ==> 0 <= p.1 <= s.len(),
    decreases count,
{
    if count > 0 {
        if parse_txout(s) is Some {
            let p = parse_txout(s)->Some_0;
            lemma_parse_txout_len(s);
            lemma_parse_txouts_len(s.skip(p.1), (count - 1) as nat);
        }
    }
}

pub proof fn lemma_parse_txouts_counted_len(s: Seq<u8>)
    ensures
        parse_txouts_counted(s) matches Some(p) ==> 1 <= p.1 <= s.len(),
{
    lemma_varint_parse_len(s);
    if varint_parse(s) is Some {
        let q = varint_parse(s)->Some_0;
        lemma_parse_txouts_len(s.skip(q.1), q.0 as nat);
    }
}

pub proof fn lemma_parse_witness_items_len(s: Seq<u8>, count: nat)
    ensures
        parse_witness_items(s, count) matches Some(p) ==> 0 <= p.1 <= s.len(),
    decreases count,
{
    if count > 0 {
        if parse_bytes(s) is Some {
            let p = parse_bytes(s)->Some_0;
            lemma_parse_bytes_len(s);
            lemma_parse_witness_items_len(s.skip(p.1), (count - 1) as nat);
        }
    }
}

pub proof fn lemma_parse_witness_len(s: Seq<u8>)
    ensures
        parse_witness(s) matches Some(p) ==> 1 <= p.1 <= s.len(),
{
    if s.len() >= 1 {
        lemma_parse_witness_items_len(s.skip(1), s[0] as nat);
    }
}

pub proof fn lemma_parse_witness_list_len(s: Seq<u8>, count: nat)
    ensures
        parse_witness_list(s, count) matches Some(p) ==> 0 <= p.1 <= s.len(),
    decreases count,
{
    if count > 0 {
        if parse_witness(s) is Some {
            let p = parse_witness(s)->Some_0;
            lemma_parse_witness_len(s);
            lemma_parse_witness_list_len(s.skip(p.1), (count - 1) as nat);
        }
    }
}

pub proof fn lemma_parse_legacy_tail_len(version: u32, ins: Seq<TxInV>, s: Seq<u8>)
    ensures
        parse_legacy_tail(version, ins, s) matches Ok(p) ==> 1 <= p.1 <= s.len(),
{
    lemma_parse_txouts_counted_len(s);
}

pub proof fn lemma_parse_witness_tail_len(version: u32, s: Seq<u8>)
    ensures
        parse_witness_tail(version, s) matches Ok(p) ==> 1 <= p.1 <= s.len(),
{
    if s.len() >= 1 && s[0] == 1 {
        let s1 = s.skip(1);
        lemma_parse_txins_counted_len(s1);
        if parse_txins_counted(s1) is Some {
            let q1 = parse_txins_counted(s1)->Some_0;
            lemma_parse_txouts_counted_len(s1.skip(q1.1));
            if parse_txouts_counted(s1.skip(q1.1)) is Some {
                let q2 = parse_txouts_counted(s1.skip(q1.1))->Some_0;
                lemma_parse_witness_list_len(s1.skip(q1.1).skip(q2.1), q1.0.len() as nat);
            }
        }
    }
}

// ---------- canonical (non-witness) serialization ----------

/// An input's wire form. The witness stack is deliberately absent: it
/// belongs to a separate section of the witness layout and never to
/// the input itself, so the identifier hash cannot see it.
pub open spec fn serial_txin(t: TxInV) -> Seq<u8> {
    t.tx_id + le_bytes(t.output_index as nat, 4) + serial_bytes(t.script) + le_bytes(
        t.sequence as nat,
        4,
    )
}

/// The inputs one after the other, without a count prefix.
pub open spec fn serial_txin_items(ts: Seq<TxInV>) -> Seq<u8>
    decreases ts.len(),
{
    if ts.len() == 0 {
        Seq::empty()
    } else {
        serial_txin(ts[0]) + serial_txin_items(ts.drop_first())
    }
}

/// A CompactSize input count followed by the inputs.
pub open spec fn serial_txins(ts: Seq<TxInV>) -> Seq<u8> {
    varint_serial(ts.len() as u64) + serial_txin_items(ts)
}

/// An output's wire form: amount, then the length-prefixed script.
pub open spec fn serial_txout(t: TxOutV) -> Seq<u8> {
    le_bytes(t.amount as nat, 8) + serial_bytes(t.script)
}

/// The outputs one after the other, without a count prefix.
pub open spec fn serial_txout_items(ts: Seq<TxOutV>) -> Seq<u8>
    decreases ts.len(),
{
    if ts.len() == 0 {
        Seq::empty()
    } else {
        serial_txout(ts[0]) + serial_txout_items(ts.drop_first())
    }
}

/// A CompactSize output count followed by the outputs.
pub open spec fn serial_txouts(ts: Seq<TxOutV>) -> Seq<u8> {
    varint_serial(ts.len() as u64) + serial_txout_items(ts)
}

/// Appending an input on the right serializes on the right.
pub proof fn lemma_serial_txin_items_push(ts: Seq<TxInV>, x: TxInV)
    ensures
        serial_txin_items(ts.push(x)) == serial_txin_items(ts) + serial_txin(x),
    decreases ts.len(),
{
    if ts.len() == 0 {
        assert(ts.push(x).drop_first() =~= Seq::<TxInV>::empty());
        assert(ts.push(x)[0] == x);
        assert(serial_txin_items(ts.push(x)) == serial_txin(x) + serial_txin_items(
            Seq::<TxInV>::empty(),
        ));
        assert(serial_txin_items(Seq::<TxInV>::empty()) == Seq::<u8>::empty());
        assert(serial_txin(x) + Seq::<u8>::empty() =~= serial_txin(x));
        assert(Seq::<u8>::empty() + serial_txin(x) =~= serial_txin(x));
    } else {
        assert(ts.push(x).drop_first() =~= ts.drop_first().push(x));
        assert(ts.push(x)[0] == ts[0]);
        lemma_serial_txin_items_push(ts.drop_first(), x);
        assert(serial_txin_items(ts.push(x)) == serial_txin(ts[0]) + (serial_txin_items(
            ts.drop_first(),
        ) + serial_txin(x)));
        assert(serial_txin(ts[0]) + (serial_txin_items(ts.drop_first()) + serial_txin(x)) =~= (
        serial_txin(ts[0]) + serial_txin_items(ts.drop_first())) + serial_txin(x));
    }
}

/// Appending an output on the right serializes on the right.
pub proof fn lemma_serial_txout_items_push(ts: Seq<TxOutV>, x: TxOutV)
    ensures
        serial_txout_items(ts.push(x)) == serial_txout_items(ts) + serial_txout(x),
    decreases ts.len(),
{
    if ts.len() == 0 {
        assert(ts.push(x).drop_first() =~= Seq::<TxOutV>::empty());
        assert(ts.push(x)[0] == x);
        assert(serial_txout_items(ts.push(x)) == serial_txout(x) + serial_txout_items(
            Seq::<TxOutV>::empty(),
        ));
        assert(serial_txout_items(Seq::<TxOutV>::empty()) == Seq::<u8>::empty());
        assert(serial_txout(x) + Seq::<u8>::empty() =~= serial_txout(x));
        assert(Seq::<u8>::empty() + serial_txout(x) =~= serial_txout(x));
    } else {
        assert(ts.push(x).drop_first() =~= ts.drop_first().push(x));
        assert(ts.push(x)[0] == ts[0]);
        lemma_serial_txout_items_push(ts.drop_first(), x);
        assert(serial_txout_items(ts.push(x)) == serial_txout(ts[0]) + (serial_txout_items(
            ts.drop_first(),
        ) + serial_txout(x)));
        assert(serial_txout(ts[0]) + (serial_txout_items(ts.drop_first()) + serial_txout(x)) =~= (
        serial_txout(ts[0]) + serial_txout_items(ts.drop_first())) + serial_txout(x));
    }
}

/// One witness stack's items, each length-prefixed, in order.
pub open spec fn serial_witness_items(ws: Seq<Seq<u8>>) -> Seq<u8>
    decreases ws.len(),
{
    if ws.len() == 0 {
        Seq::empty()
    } else {
        serial_bytes(ws[0]) + serial_witness_items(ws.drop_first())
    }
}

/// One witness stack's wire form: a single count byte (the format
/// caps a stack at 255 items), then the items.
pub open spec fn serial_witness(ws: Seq<Seq<u8>>) -> Seq<u8> {
    seq![ws.len() as u8] + serial_witness_items(ws)
}

/// Appending an item on the right serializes on the right.
pub proof fn lemma_serial_witness_items_push(ws: Seq<Seq<u8>>, x: Seq<u8>)
    ensures
        serial_witness_items(ws.push(x)) == serial_witness_items(ws) + serial_bytes(x),
    decreases ws.len(),
{
    if ws.len() == 0 {
        assert(ws.push(x).drop_first() =~= Seq::<Seq<u8>>::empty());
        assert(ws.push(x)[0] == x);
        assert(serial_witness_items(ws.push(x)) == serial_bytes(x) + serial_witness_items(
            Seq::<Seq<u8>>::empty(),
        ));
        assert(serial_witness_items(Seq::<Seq<u8>>::empty()) == Seq::<u8>::empty());
        assert(serial_bytes(x) + Seq::<u8>::empty() =~= serial_bytes(x));
        assert(Seq::<u8>::empty() + serial_bytes(x) =~= serial_bytes(x));
    } else {
        assert(ws.push(x).drop_first() =~= ws.drop_first().push(x));
        assert(ws.push(x)[0] == ws[0]);
        lemma_serial_witness_items_push(ws.drop_first(), x);
        assert(serial_witness_items(ws.push(x)) == serial_bytes(ws[0]) + (serial_witness_items(
            ws.drop_first(),
        ) + serial_bytes(x)));
        assert(serial_bytes(ws[0]) + (serial_witness_items(ws.drop_first()) + serial_bytes(x)) =~= (
        serial_bytes(ws[0]) + serial_witness_items(ws.drop_first())) + serial_bytes(x));
    }
}

/// The canonical non-witness serialization of a transaction: version,
/// inputs without witness data, outputs, lock-time. This is the exact
/// byte sequence the identifier is hashed over, whichever layout the
/// transaction was parsed from.
pub open spec fn serial_tx(t: TransactionV) -> Seq<u8> {
    le_bytes(t.version as nat, 4) + serial_txins(t.inputs) + serial_txouts(t.outputs) + le_bytes(
        t.lock_time as nat,
        4,
    )
}

} // verus!

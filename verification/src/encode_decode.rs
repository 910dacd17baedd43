use vstd::prelude::*;

use crate::error::Error;
use crate::hex_text::{
    bytes_of_hex, canonical_hex, hex_decode, hex_encode, hex_of_bytes, lemma_hex_of_bytes_valid,
    lemma_hex_round_trip,
};
use crate::types::{Amount, CompactSize, Transaction, TxID, TxIn, TxOut, Witness};
use crate::wire::{
    le_value, lemma_le_bytes_len, lemma_pow256_increases, lemma_pow256_values,
    lemma_serial_txin_items_push, lemma_serial_txout_items_push, le_bytes, parse_bytes, parse_tx,
    parse_txin, parse_txins, parse_txins_counted, parse_txout, parse_txouts,
    parse_txouts_counted, parse_witness, parse_witness_items, parse_witness_list,
    attach_witnesses, all_witnesses_empty, lemma_parse_txins_counted_len,
    lemma_parse_txouts_counted_len, lemma_parse_witness_len, lemma_parse_witness_list_len,
    parse_legacy_tail, parse_witness_tail, lemma_parse_legacy_tail_len,
    lemma_parse_witness_tail_len, pow256,
    serial_bytes, serial_txin, serial_txin_items, serial_txins, serial_txout, serial_txout_items,
    serial_txouts, serial_witness, serial_witness_items, lemma_serial_witness_items_push,
    varint_parse, varint_serial, ParseErr, TransactionV, TxInV, TxOutV,
};

verus! {

/// How an executable decode error reports an abstract parse failure.
pub open spec fn err_reflects(e: Error, pe: ParseErr) -> bool {
    match pe {
        ParseErr::Truncated => e is Io,
        ParseErr::UnsupportedFlag(b) => e matches Error::UnsupportedSegwitFlag(x) && x == b,
        ParseErr::MissingWitness => e matches Error::ParseFailed(m) && m@
            == "witness flag set but no witnesses present"@,
    }
}

/// A byte source consumed from front to back. Reads either return
/// exactly what was asked for or fail with `Error::Io` and leave the
/// source as it was.
pub struct Reader {
    data: Vec<u8>,
    pos: usize,
}

impl Reader {
    #[verifier::type_invariant]
    spec fn inv(self) -> bool {
        self.pos <= self.data.len()
    }

    /// The bytes not yet consumed.
    pub closed spec fn remaining(self) -> Seq<u8> {
        self.data@.skip(self.pos as int)
    }

    pub fn new(data: Vec<u8>) -> (r: Reader)
        ensures
            r.remaining() == data@,
    {
        let r = Reader { data, pos: 0 };
        proof {
            assert(r.remaining() =~= r.data@);
        }
        r
    }

    /// Reads a single byte.
    pub fn read_u8(&mut self) -> (res: Result<u8, Error>)
        ensures
            match res {
                Ok(b) => old(self).remaining().len() >= 1 && b == old(self).remaining()[0]
                    && final(self).remaining() == old(self).remaining().skip(1),
                Err(e) => old(self).remaining().len() < 1 && e is Io && *final(self) == *old(self),
            },
    {
        proof {
            use_type_invariant(&*self);
        }
        if self.pos < self.data.len() {
            let b = self.data[self.pos];
            self.pos = self.pos + 1;
            proof {
                assert(self.remaining() =~= old(self).remaining().skip(1));
            }
            Ok(b)
        } else {
            proof {
                assert(self.remaining() =~= Seq::<u8>::empty());
            }
            Err(Error::Io)
        }
    }

    /// Reads exactly `n` bytes.
    pub fn read_bytes(&mut self, n: u64) -> (res: Result<Vec<u8>, Error>)
        ensures
            match res {
                Ok(b) => old(self).remaining().len() >= n && b@ == old(self).remaining().take(
                    n as int,
                ) && final(self).remaining() == old(self).remaining().skip(n as int),
                Err(e) => old(self).remaining().len() < n && e is Io && *final(self) == *old(self),
            },
    {
        proof {
            use_type_invariant(&*self);
        }
        let avail: usize = self.data.len() - self.pos;
        if n > avail as u64 {
            return Err(Error::Io);
        }
        let cnt: usize = n as usize;
        let mut out: Vec<u8> = Vec::new();
        let mut i: usize = 0;
        while i < cnt
            invariant
                i <= cnt,
                cnt == n,
                self == old(self),
                self.pos + cnt <= self.data.len(),
                out@ =~= self.data@.subrange(self.pos as int, self.pos + i),
            decreases cnt - i,
        {
            out.push(self.data[self.pos + i]);
            i = i + 1;
        }
        proof {
            assert(out@ =~= old(self).remaining().take(n as int));
        }
        self.pos = self.pos + cnt;
        proof {
            assert(self.remaining() =~= old(self).remaining().skip(n as int));
        }
        Ok(out)
    }

    /// Reads `n` bytes (at most 8) as a little-endian unsigned integer.
    pub fn read_le_uint(&mut self, n: u64) -> (res: Result<u64, Error>)
        requires
            1 <= n <= 8,
        ensures
            match res {
                Ok(v) => old(self).remaining().len() >= n && v == le_value(
                    old(self).remaining().take(n as int),
                ) && v < pow256(n as nat) && final(self).remaining() == old(
                    self,
                ).remaining().skip(n as int),
                Err(e) => old(self).remaining().len() < n && e is Io && *final(self) == *old(self),
            },
    {
        match self.read_bytes(n) {
            Err(e) => Err(e),
            Ok(buf) => {
                let len: usize = buf.len();
                let mut acc: u64 = 0;
                let mut j: usize = len;
                proof {
                    assert(buf@.skip(len as int) =~= Seq::<u8>::empty());
                    lemma_pow256_values();
                }
                while j > 0
                    invariant
                        j <= len <= 8,
                        buf@.len() == len,
                        acc == le_value(buf@.skip(j as int)),
                        acc < pow256((len - j) as nat),
                    decreases j,
                {
                    j = j - 1;
                    proof {
                        assert(buf@.skip(j as int).drop_first() =~= buf@.skip(j + 1));
                        assert(buf@.skip(j as int)[0] == buf@[j as int]);
                        lemma_pow256_values();
                        lemma_pow256_increases(((len - j) as nat), 8);
                    }
                    acc = acc * 256 + (buf[j] as u64);
                }
                proof {
                    assert(buf@.skip(0) =~= buf@);
                    lemma_pow256_increases(((len - 0) as nat), 8);
                }
                Ok(acc)
            },
        }
    }
}

/// Structural soundness of an in-memory value. Hex-text script fields
/// must actually hold hex: decoding only produces, and encoding
/// expects, well-formed values.
pub trait WellFormed {
    open spec fn wf(&self) -> bool {
        true
    }
}

/// A value readable from the wire format.
pub trait Decodable: Sized + DeepView + WellFormed {
    /// What decoding this type from the front of `s` means: the
    /// abstract value read and the bytes consumed, or the failure.
    spec fn spec_decode(s: Seq<u8>) -> Result<(Self::V, int), ParseErr>;

    /// What a fresh decode guarantees of the representation beyond the
    /// abstract value: every script field holds the canonical
    /// lowercase hex spelling of its bytes, not merely some spelling.
    open spec fn canonical(&self) -> bool {
        true
    }

    /// Reads one value from the front of `r`.
    fn decode(r: &mut Reader) -> (res: Result<Self, Error>)
        ensures
            match res {
                Ok(v) => Self::spec_decode(old(r).remaining()) matches Ok(p) && v.deep_view()
                    == p.0 && final(r).remaining() == old(r).remaining().skip(p.1) && v.wf()
                    && v.canonical(),
                Err(e) => Self::spec_decode(old(r).remaining()) matches Err(pe) && err_reflects(
                    e,
                    pe,
                ),
            },
    ;
}

/// A value writable in the wire format.
pub trait Encodable: DeepView + WellFormed {
    /// The wire bytes of an abstract value of this type.
    spec fn spec_serial(v: Self::V) -> Seq<u8>;

    /// Appends the wire form of `self` to `w` and returns how many
    /// bytes that added.
    fn encode(&self, w: &mut Vec<u8>) -> (res: Result<usize, Error>)
        requires
            self.wf(),
        ensures
            final(w)@ == old(w)@ + Self::spec_serial(self.deep_view()),
            res matches Ok(n) && n == Self::spec_serial(self.deep_view()).len(),
    ;
}

// ---------- shared read/write helpers ----------

/// Appends the `n`-byte little-endian form of `v` to `w`.
fn write_le_bytes(w: &mut Vec<u8>, v: u64, n: usize)
    ensures
        final(w)@ == old(w)@ + le_bytes(v as nat, n as nat),
{
    let mut x = v;
    let mut i: usize = 0;
    while i < n
        invariant
            i <= n,
            w@ + le_bytes(x as nat, (n - i) as nat) == old(w)@ + le_bytes(v as nat, n as nat),
        decreases n - i,
    {
        proof {
            assert(le_bytes(x as nat, (n - i) as nat) =~= seq![(x % 256) as u8] + le_bytes(
                (x / 256) as nat,
                (n - i - 1) as nat,
            ));
            assert(w@.push((x % 256) as u8) + le_bytes((x / 256) as nat, (n - i - 1) as nat) =~= w@
                + le_bytes(x as nat, (n - i) as nat));
        }
        w.push((x % 256) as u8);
        x = x / 256;
        i = i + 1;
    }
    proof {
        assert(w@ + le_bytes(x as nat, 0) =~= w@);
    }
}

/// Appends all of `b` to `w`.
fn write_bytes(w: &mut Vec<u8>, b: &Vec<u8>)
    ensures
        final(w)@ == old(w)@ + b@,
{
    let mut i: usize = 0;
    while i < b.len()
        invariant
            i <= b@.len(),
            w@ == old(w)@ + b@.take(i as int),
        decreases b@.len() - i,
    {
        proof {
            assert(w@.push(b@[i as int]) =~= old(w)@ + b@.take(i + 1));
        }
        w.push(b[i]);
        i = i + 1;
    }
    proof {
        assert(b@.take(b@.len() as int) =~= b@);
    }
}

/// Reads a CompactSize length, then exactly that many raw bytes.
fn read_len_prefixed(r: &mut Reader) -> (res: Result<Vec<u8>, Error>)
    ensures
        match res {
            Ok(b) => parse_bytes(old(r).remaining()) matches Some(p) && p.0 == b@
                && final(r).remaining() == old(r).remaining().skip(p.1),
            Err(e) => parse_bytes(old(r).remaining()) is None && e is Io,
        },
{
    match CompactSize::decode(r) {
        Err(e) => Err(e),
        Ok(cs) => {
            let ghost s = old(r).remaining();
            let ghost n = varint_parse(s)->Some_0.1;
            match r.read_bytes(cs.0) {
                Err(e) => Err(e),
                Ok(b) => {
                    proof {
                        assert(s.skip(n).take(cs.0 as int) =~= s.subrange(n, n + cs.0));
                        assert(s.skip(n).skip(cs.0 as int) =~= s.skip(n + cs.0));
                    }
                    Ok(b)
                },
            }
        },
    }
}

// ---------- fixed-width integers ----------

impl Decodable for u8 {
    open spec fn canonical(&self) -> bool {
        true
    }

    open spec fn spec_decode(s: Seq<u8>) -> Result<(u8, int), ParseErr> {
        if s.len() < 1 {
            Err(ParseErr::Truncated)
        } else {
            Ok((s[0], 1))
        }
    }

    fn decode(r: &mut Reader) -> (res: Result<u8, Error>) {
        r.read_u8()
    }
}

impl Decodable for u16 {
    open spec fn canonical(&self) -> bool {
        true
    }

    open spec fn spec_decode(s: Seq<u8>) -> Result<(u16, int), ParseErr> {
        if s.len() < 2 {
            Err(ParseErr::Truncated)
        } else {
            Ok((le_value(s.take(2)) as u16, 2))
        }
    }

    fn decode(r: &mut Reader) -> (res: Result<u16, Error>) {
        proof {
            lemma_pow256_values();
        }
        match r.read_le_uint(2) {
            Ok(v) => Ok(v as u16),
            Err(e) => Err(e),
        }
    }
}

impl Decodable for u32 {
    open spec fn canonical(&self) -> bool {
        true
    }

    open spec fn spec_decode(s: Seq<u8>) -> Result<(u32, int), ParseErr> {
        if s.len() < 4 {
            Err(ParseErr::Truncated)
        } else {
            Ok((le_value(s.take(4)) as u32, 4))
        }
    }

    fn decode(r: &mut Reader) -> (res: Result<u32, Error>) {
        proof {
            lemma_pow256_values();
        }
        match r.read_le_uint(4) {
            Ok(v) => Ok(v as u32),
            Err(e) => Err(e),
        }
    }
}

impl Decodable for u64 {
    open spec fn canonical(&self) -> bool {
        true
    }

    open spec fn spec_decode(s: Seq<u8>) -> Result<(u64, int), ParseErr> {
        if s.len() < 8 {
            Err(ParseErr::Truncated)
        } else {
            Ok((le_value(s.take(8)) as u64, 8))
        }
    }

    fn decode(r: &mut Reader) -> (res: Result<u64, Error>) {
        proof {
            lemma_pow256_values();
        }
        match r.read_le_uint(8) {
            Ok(v) => Ok(v),
            Err(e) => Err(e),
        }
    }
}

impl Encodable for u8 {
    open spec fn spec_serial(v: u8) -> Seq<u8> {
        seq![v]
    }

    fn encode(&self, w: &mut Vec<u8>) -> (res: Result<usize, Error>) {
        proof {
            assert(w@.push(*self) =~= w@ + seq![*self]);
        }
        w.push(*self);
        Ok(1)
    }
}

impl Encodable for u16 {
    open spec fn spec_serial(v: u16) -> Seq<u8> {
        le_bytes(v as nat, 2)
    }

    fn encode(&self, w: &mut Vec<u8>) -> (res: Result<usize, Error>) {
        write_le_bytes(w, *self as u64, 2);
        proof {
            lemma_le_bytes_len(*self as nat, 2);
        }
        Ok(2)
    }
}

impl Encodable for u32 {
    open spec fn spec_serial(v: u32) -> Seq<u8> {
        le_bytes(v as nat, 4)
    }

    fn encode(&self, w: &mut Vec<u8>) -> (res: Result<usize, Error>) {
        write_le_bytes(w, *self as u64, 4);
        proof {
            lemma_le_bytes_len(*self as nat, 4);
        }
        Ok(4)
    }
}

impl Encodable for u64 {
    open spec fn spec_serial(v: u64) -> Seq<u8> {
        le_bytes(v as nat, 8)
    }

    fn encode(&self, w: &mut Vec<u8>) -> (res: Result<usize, Error>) {
        write_le_bytes(w, *self, 8);
        proof {
            lemma_le_bytes_len(*self as nat, 8);
        }
        Ok(8)
    }
}

// ---------- CompactSize ----------

impl Decodable for CompactSize {
    open spec fn canonical(&self) -> bool {
        true
    }

    open spec fn spec_decode(s: Seq<u8>) -> Result<(u64, int), ParseErr> {
        match varint_parse(s) {
            Some((v, n)) => Ok((v, n)),
            None => Err(ParseErr::Truncated),
        }
    }

    fn decode(r: &mut Reader) -> (res: Result<CompactSize, Error>) {
        let ghost s = old(r).remaining();
        let tag = match r.read_u8() {
            Ok(t) => t,
            Err(e) => {
                return Err(e);
            },
        };
        proof {
            lemma_pow256_values();
        }
        if tag == 0xFF {
            match r.read_le_uint(8) {
                Ok(v) => {
                    proof {
                        assert(s.skip(1).take(8) =~= s.subrange(1, 9));
                        assert(s.skip(1).skip(8) =~= s.skip(9));
                    }
                    Ok(CompactSize(v))
                },
                Err(e) => Err(e),
            }
        } else if tag == 0xFE {
            match r.read_le_uint(4) {
                Ok(v) => {
                    proof {
                        assert(s.skip(1).take(4) =~= s.subrange(1, 5));
                        assert(s.skip(1).skip(4) =~= s.skip(5));
                    }
                    Ok(CompactSize(v))
                },
                Err(e) => Err(e),
            }
        } else if tag == 0xFD {
            match r.read_le_uint(2) {
                Ok(v) => {
                    proof {
                        assert(s.skip(1).take(2) =~= s.subrange(1, 3));
                        assert(s.skip(1).skip(2) =~= s.skip(3));
                    }
                    Ok(CompactSize(v))
                },
                Err(e) => Err(e),
            }
        } else {
            Ok(CompactSize(tag as u64))
        }
    }
}

impl Encodable for CompactSize {
    open spec fn spec_serial(v: u64) -> Seq<u8> {
        varint_serial(v)
    }

    fn encode(&self, w: &mut Vec<u8>) -> (res: Result<usize, Error>) {
        if self.0 <= 0xFC {
            proof {
                assert(w@.push(self.0 as u8) =~= w@ + varint_serial(self.0));
            }
            w.push(self.0 as u8);
            Ok(1)
        } else if self.0 <= 0xFFFF {
            let ghost w0 = w@;
            w.push(0xFD);
            write_le_bytes(w, self.0, 2);
            proof {
                lemma_le_bytes_len(self.0 as nat, 2);
                assert(w@ =~= w0 + varint_serial(self.0));
            }
            Ok(3)
        } else if self.0 <= 0xFFFF_FFFF {
            let ghost w0 = w@;
            w.push(0xFE);
            write_le_bytes(w, self.0, 4);
            proof {
                lemma_le_bytes_len(self.0 as nat, 4);
                assert(w@ =~= w0 + varint_serial(self.0));
            }
            Ok(5)
        } else {
            let ghost w0 = w@;
            w.push(0xFF);
            write_le_bytes(w, self.0, 8);
            proof {
                lemma_le_bytes_len(self.0 as nat, 8);
                assert(w@ =~= w0 + varint_serial(self.0));
            }
            Ok(9)
        }
    }
}

// ---------- scripts: hex text on the wire as raw bytes ----------

impl Decodable for String {
    open spec fn spec_decode(s: Seq<u8>) -> Result<(Seq<char>, int), ParseErr> {
        match parse_bytes(s) {
            Some((b, n)) => Ok((hex_of_bytes(b), n)),
            None => Err(ParseErr::Truncated),
        }
    }

    open spec fn canonical(&self) -> bool {
        canonical_hex(self@)
    }

    fn decode(r: &mut Reader) -> (res: Result<String, Error>) {
        match read_len_prefixed(r) {
            Err(e) => Err(e),
            Ok(b) => {
                proof {
                    lemma_hex_of_bytes_valid(b@);
                    lemma_hex_round_trip(b@);
                }
                Ok(hex_encode(b.as_slice()))
            },
        }
    }
}

impl Encodable for String {
    open spec fn spec_serial(v: Seq<char>) -> Seq<u8> {
        serial_bytes(bytes_of_hex(v))
    }

    fn encode(&self, w: &mut Vec<u8>) -> (res: Result<usize, Error>) {
        match hex_decode(self.as_str()) {
            Err(_) => {
                proof {
                    assert(false);
                }
                Err(Error::ParseFailed("script is not hex text"))
            },
            Ok(b) => {
                let ghost w0 = w@;
                let start = w.len();
                let cs = CompactSize(b.len() as u64);
                match cs.encode(w) {
                    Ok(_) => (),
                    Err(e) => {
                        return Err(e);
                    },
                };
                write_bytes(w, &b);
                proof {
                    assert(w@ =~= w0 + serial_bytes(b@));
                }
                Ok(w.len() - start)
            },
        }
    }
}

// ---------- 32-byte identifiers ----------

impl Decodable for TxID {
    open spec fn canonical(&self) -> bool {
        true
    }

    open spec fn spec_decode(s: Seq<u8>) -> Result<(Seq<u8>, int), ParseErr> {
        if s.len() < 32 {
            Err(ParseErr::Truncated)
        } else {
            Ok((s.take(32), 32))
        }
    }

    fn decode(r: &mut Reader) -> (res: Result<TxID, Error>) {
        match r.read_bytes(32) {
            Err(e) => Err(e),
            Ok(b) => {
                proof {
                    assert(b@.len() == 32);
                }
                let a: [u8; 32] = [
                    b[0], b[1], b[2], b[3], b[4], b[5], b[6], b[7], b[8], b[9], b[10], b[11],
                    b[12], b[13], b[14], b[15], b[16], b[17], b[18], b[19], b[20], b[21], b[22],
                    b[23], b[24], b[25], b[26], b[27], b[28], b[29], b[30], b[31],
                ];
                proof {
                    assert(a@ =~= b@);
                }
                Ok(TxID(a))
            },
        }
    }
}

impl Encodable for TxID {
    open spec fn spec_serial(v: Seq<u8>) -> Seq<u8> {
        v
    }

    fn encode(&self, w: &mut Vec<u8>) -> (res: Result<usize, Error>) {
        let mut i: usize = 0;
        while i < 32
            invariant
                i <= 32,
                w@ == old(w)@ + self.0@.take(i as int),
            decreases 32 - i,
        {
            proof {
                assert(w@.push(self.0@[i as int]) =~= old(w)@ + self.0@.take(i + 1));
            }
            w.push(self.0[i]);
            i = i + 1;
        }
        proof {
            assert(self.0@.take(32) =~= self.0@);
        }
        Ok(32)
    }
}

// ---------- amounts ----------

impl Encodable for Amount {
    open spec fn spec_serial(v: u64) -> Seq<u8> {
        le_bytes(v as nat, 8)
    }

    fn encode(&self, w: &mut Vec<u8>) -> (res: Result<usize, Error>) {
        self.0.encode(w)
    }
}

// ---------- inputs ----------

impl Decodable for TxIn {
    open spec fn spec_decode(s: Seq<u8>) -> Result<(TxInV, int), ParseErr> {
        match parse_txin(s) {
            Some((t, n)) => Ok((t, n)),
            None => Err(ParseErr::Truncated),
        }
    }

    open spec fn canonical(&self) -> bool {
        canonical_hex(self.script_sig@)
    }

    fn decode(r: &mut Reader) -> (res: Result<TxIn, Error>) {
        let ghost s = old(r).remaining();
        let tx_id = match TxID::decode(r) {
            Ok(t) => t,
            Err(e) => {
                return Err(e);
            },
        };
        let output_index = match u32::decode(r) {
            Ok(v) => v,
            Err(e) => {
                return Err(e);
            },
        };
        proof {
            assert(s.skip(32).skip(4) =~= s.skip(36));
            assert(s.skip(32).take(4) =~= s.subrange(32, 36));
        }
        let script_sig = match String::decode(r) {
            Ok(v) => v,
            Err(e) => {
                return Err(e);
            },
        };
        let ghost p = parse_bytes(s.skip(36))->Some_0;
        let sequence = match u32::decode(r) {
            Ok(v) => v,
            Err(e) => {
                return Err(e);
            },
        };
        proof {
            lemma_hex_round_trip(p.0);
            assert(s.skip(36).skip(p.1).take(4) =~= s.subrange(36 + p.1, 36 + p.1 + 4));
            assert(s.skip(36).skip(p.1).skip(4) =~= s.skip(36 + p.1 + 4));
        }
        let txin = TxIn { tx_id, output_index, script_sig, witness: Witness::new(), sequence };
        proof {
            assert(txin.deep_view() == parse_txin(s)->Some_0.0);
        }
        Ok(txin)
    }
}

impl Encodable for TxIn {
    open spec fn spec_serial(v: TxInV) -> Seq<u8> {
        serial_txin(v)
    }

    fn encode(&self, w: &mut Vec<u8>) -> (res: Result<usize, Error>) {
        let ghost w0 = w@;
        let start = w.len();
        match self.tx_id.encode(w) {
            Ok(_) => (),
            Err(e) => {
                return Err(e);
            },
        };
        match self.output_index.encode(w) {
            Ok(_) => (),
            Err(e) => {
                return Err(e);
            },
        };
        match self.script_sig.encode(w) {
            Ok(_) => (),
            Err(e) => {
                return Err(e);
            },
        };
        match self.sequence.encode(w) {
            Ok(_) => (),
            Err(e) => {
                return Err(e);
            },
        };
        proof {
            assert(w@ =~= w0 + serial_txin(self.deep_view()));
        }
        Ok(w.len() - start)
    }
}

// ---------- outputs ----------

impl Decodable for TxOut {
    open spec fn spec_decode(s: Seq<u8>) -> Result<(TxOutV, int), ParseErr> {
        match parse_txout(s) {
            Some((t, n)) => Ok((t, n)),
            None => Err(ParseErr::Truncated),
        }
    }

    open spec fn canonical(&self) -> bool {
        canonical_hex(self.script_pubkey@)
    }

    fn decode(r: &mut Reader) -> (res: Result<TxOut, Error>) {
        let ghost s = old(r).remaining();
        let sats = match u64::decode(r) {
            Ok(v) => v,
            Err(e) => {
                return Err(e);
            },
        };
        let script_pubkey = match String::decode(r) {
            Ok(v) => v,
            Err(e) => {
                return Err(e);
            },
        };
        let ghost p = parse_bytes(s.skip(8))->Some_0;
        proof {
            lemma_hex_round_trip(p.0);
        }
        let txout = TxOut { amount: Amount::from_sat(sats), script_pubkey };
        proof {
            assert(txout.deep_view() == parse_txout(s)->Some_0.0);
        }
        Ok(txout)
    }
}

impl Encodable for TxOut {
    open spec fn spec_serial(v: TxOutV) -> Seq<u8> {
        serial_txout(v)
    }

    fn encode(&self, w: &mut Vec<u8>) -> (res: Result<usize, Error>) {
        let ghost w0 = w@;
        let start = w.len();
        match self.amount.encode(w) {
            Ok(_) => (),
            Err(e) => {
                return Err(e);
            },
        };
        match self.script_pubkey.encode(w) {
            Ok(_) => (),
            Err(e) => {
                return Err(e);
            },
        };
        proof {
            assert(w@ =~= w0 + serial_txout(self.deep_view()));
        }
        Ok(w.len() - start)
    }
}

// ---------- witness stacks ----------

impl Decodable for Witness {
    open spec fn canonical(&self) -> bool {
        true
    }

    open spec fn spec_decode(s: Seq<u8>) -> Result<(Seq<Seq<u8>>, int), ParseErr> {
        match parse_witness(s) {
            Some((ws, n)) => Ok((ws, n)),
            None => Err(ParseErr::Truncated),
        }
    }

    fn decode(r: &mut Reader) -> (res: Result<Witness, Error>) {
        let ghost s = old(r).remaining();
        let count = match r.read_u8() {
            Ok(c) => c,
            Err(e) => {
                return Err(e);
            },
        };
        let ghost s1 = s.skip(1);
        let mut items: Vec<Vec<u8>> = Vec::new();
        let mut i: u8 = 0;
        let ghost mut k: int = 0;
        proof {
            assert(items.deep_view() =~= Seq::<Seq<u8>>::empty());
            assert(s1.skip(0) =~= s1);
            if parse_witness_items(s1, count as nat) is Some {
                let q = parse_witness_items(s1, count as nat)->Some_0;
                assert(Seq::<Seq<u8>>::empty() + q.0 =~= q.0);
            }
        }
        while i < count
            invariant
                i <= count,
                s == old(r).remaining(),
                s.len() >= 1,
                count == s[0],
                s1 == s.skip(1),
                items@.len() == i,
                0 <= k <= s1.len(),
                r.remaining() == s1.skip(k),
                parse_witness_items(s1, count as nat) == (match parse_witness_items(
                    s1.skip(k),
                    (count - i) as nat,
                ) {
                    Some((rest, m)) => Some::<(Seq<Seq<u8>>, int)>((items.deep_view() + rest, k + m)),
                    None => None::<(Seq<Seq<u8>>, int)>,
                }),
            decreases count - i,
        {
            let ghost dv0 = items.deep_view();
            let item = match read_len_prefixed(r) {
                Ok(b) => b,
                Err(e) => {
                    proof {
                        assert(parse_witness_items(s1.skip(k), (count - i) as nat) is None);
                    }
                    return Err(e);
                },
            };
            let ghost pn = parse_bytes(s1.skip(k))->Some_0.1;
            items.push(item);
            proof {
                assert(s1.skip(k).skip(pn) =~= s1.skip(k + pn));
                assert(items.deep_view() =~~= dv0.push(item@));
                if parse_witness_items(s1.skip(k + pn), (count - i - 1) as nat) is Some {
                    let q = parse_witness_items(s1.skip(k + pn), (count - i - 1) as nat)->Some_0;
                    assert(dv0 + (seq![item@] + q.0) =~~= dv0.push(item@) + q.0);
                }
                k = k + pn;
            }
            i = i + 1;
        }
        proof {
            assert(s1.skip(k).skip(0) =~= s1.skip(k));
            assert(items.deep_view() + Seq::<Seq<u8>>::empty() =~= items.deep_view());
            assert(s1.skip(k) =~= s.skip(1 + k));
        }
        Ok(Witness { content: items })
    }
}

impl Encodable for Witness {
    open spec fn spec_serial(v: Seq<Seq<u8>>) -> Seq<u8> {
        serial_witness(v)
    }

    fn encode(&self, w: &mut Vec<u8>) -> (res: Result<usize, Error>) {
        let ghost w0 = w@;
        let start = w.len();
        proof {
            assert(self.deep_view().len() == self.content@.len());
        }
        let count = self.content.len() as u8;
        w.push(count);
        let mut i: usize = 0;
        proof {
            assert(serial_witness_items(self.deep_view().take(0)) == Seq::<u8>::empty());
            assert(w@ =~= w0 + seq![(self.deep_view().len() as u8)] + serial_witness_items(
                self.deep_view().take(0),
            ));
        }
        while i < self.content.len()
            invariant
                i <= self.content@.len(),
                self.deep_view().len() == self.content@.len() <= 255,
                w@ == w0 + seq![(self.deep_view().len() as u8)] + serial_witness_items(
                    self.deep_view().take(i as int),
                ),
            decreases self.content@.len() - i,
        {
            let ghost wbefore = w@;
            let item = &self.content[i];
            let cs = CompactSize(item.len() as u64);
            match cs.encode(w) {
                Ok(_) => (),
                Err(e) => {
                    return Err(e);
                },
            };
            write_bytes(w, item);
            proof {
                assert(self.deep_view()[i as int] =~= self.content@[i as int]@);
                assert(w@ =~= wbefore + serial_bytes(self.deep_view()[i as int]));
                lemma_serial_witness_items_push(
                    self.deep_view().take(i as int),
                    self.deep_view()[i as int],
                );
                assert(self.deep_view().take(i as int).push(self.deep_view()[i as int]) =~= self
                    .deep_view()
                    .take(i + 1));
                assert(w@ =~= w0 + seq![(self.deep_view().len() as u8)] + serial_witness_items(
                    self.deep_view().take(i + 1),
                ));
            }
            i = i + 1;
        }
        proof {
            assert(self.deep_view().take(self.content@.len() as int) =~= self.deep_view());
            assert(w@ =~= w0 + serial_witness(self.deep_view()));
        }
        Ok(w.len() - start)
    }
}

// ---------- input and output lists ----------

impl Decodable for Vec<TxIn> {
    open spec fn spec_decode(s: Seq<u8>) -> Result<(Seq<TxInV>, int), ParseErr> {
        match parse_txins_counted(s) {
            Some((ts, n)) => Ok((ts, n)),
            None => Err(ParseErr::Truncated),
        }
    }

    open spec fn canonical(&self) -> bool {
        forall|i: int| 0 <= i < self@.len() ==> self@[i].canonical()
    }

    fn decode(r: &mut Reader) -> (res: Result<Vec<TxIn>, Error>) {
        let ghost s = old(r).remaining();
        let count = match CompactSize::decode(r) {
            Ok(c) => c,
            Err(e) => {
                return Err(e);
            },
        };
        let ghost n0 = varint_parse(s)->Some_0.1;
        let ghost s1 = s.skip(n0);
        let mut out: Vec<TxIn> = Vec::new();
        let mut i: u64 = 0;
        let ghost mut k: int = 0;
        proof {
            assert(out.deep_view() =~= Seq::<TxInV>::empty());
            assert(s1.skip(0) =~= s1);
            if parse_txins(s1, count.0 as nat) is Some {
                let q = parse_txins(s1, count.0 as nat)->Some_0;
                assert(Seq::<TxInV>::empty() + q.0 =~= q.0);
            }
        }
        while i < count.0
            invariant
                i <= count.0,
                s == old(r).remaining(),
                varint_parse(s) == Some((count.0, n0)),
                s1 == s.skip(n0),
                0 <= k <= s1.len(),
                r.remaining() == s1.skip(k),
                out.wf(),
                out.canonical(),
                parse_txins(s1, count.0 as nat) == (match parse_txins(
                    s1.skip(k),
                    (count.0 - i) as nat,
                ) {
                    Some((rest, m)) => Some::<(Seq<TxInV>, int)>((out.deep_view() + rest, k + m)),
                    None => None::<(Seq<TxInV>, int)>,
                }),
            decreases count.0 - i,
        {
            let ghost dv0 = out.deep_view();
            let ghost out0 = out@;
            let txin = match TxIn::decode(r) {
                Ok(t) => t,
                Err(e) => {
                    proof {
                        assert(parse_txins(s1.skip(k), (count.0 - i) as nat) is None);
                    }
                    return Err(e);
                },
            };
            let ghost pn = parse_txin(s1.skip(k))->Some_0.1;
            out.push(txin);
            proof {
                assert(s1.skip(k).skip(pn) =~= s1.skip(k + pn));
                assert(out.deep_view() =~= dv0.push(txin.deep_view()));
                if parse_txins(s1.skip(k + pn), (count.0 - i - 1) as nat) is Some {
                    let q = parse_txins(s1.skip(k + pn), (count.0 - i - 1) as nat)->Some_0;
                    assert(dv0 + (seq![txin.deep_view()] + q.0) =~= dv0.push(txin.deep_view())
                        + q.0);
                }
                k = k + pn;
                assert forall|j: int| 0 <= j < out@.len() implies out@[j].wf()
                    && out@[j].canonical() by {
                    if j < out@.len() - 1 {
                        assert(out@[j] == out0[j]);
                    }
                }
            }
            i = i + 1;
        }
        proof {
            assert(s1.skip(k).skip(0) =~= s1.skip(k));
            assert(out.deep_view() + Seq::<TxInV>::empty() =~= out.deep_view());
            assert(s1.skip(k) =~= s.skip(n0 + k));
        }
        Ok(out)
    }
}

impl Encodable for Vec<TxIn> {
    open spec fn spec_serial(v: Seq<TxInV>) -> Seq<u8> {
        serial_txins(v)
    }

    fn encode(&self, w: &mut Vec<u8>) -> (res: Result<usize, Error>) {
        let ghost w0 = w@;
        let start = w.len();
        let cs = CompactSize(self.len() as u64);
        proof {
            assert(self.deep_view().len() == self@.len());
        }
        match cs.encode(w) {
            Ok(_) => (),
            Err(e) => {
                return Err(e);
            },
        };
        let mut i: usize = 0;
        while i < self.len()
            invariant
                i <= self@.len(),
                self.wf(),
                self.deep_view().len() == self@.len(),
                w@ == w0 + varint_serial(self@.len() as u64) + serial_txin_items(
                    self.deep_view().take(i as int),
                ),
            decreases self@.len() - i,
        {
            proof {
                assert(self@[i as int].wf());
            }
            match self[i].encode(w) {
                Ok(_) => (),
                Err(e) => {
                    return Err(e);
                },
            };
            proof {
                lemma_serial_txin_items_push(
                    self.deep_view().take(i as int),
                    self.deep_view()[i as int],
                );
                assert(self.deep_view().take(i as int).push(self.deep_view()[i as int]) =~= self
                    .deep_view()
                    .take(i + 1));
                assert(self@[i as int].deep_view() == self.deep_view()[i as int]);
                assert(w@ =~= w0 + varint_serial(self@.len() as u64) + serial_txin_items(
                    self.deep_view().take(i + 1),
                ));
            }
            i = i + 1;
        }
        proof {
            assert(self.deep_view().take(self@.len() as int) =~= self.deep_view());
            assert(w@ =~= w0 + serial_txins(self.deep_view()));
        }
        Ok(w.len() - start)
    }
}

impl Decodable for Vec<TxOut> {
    open spec fn spec_decode(s: Seq<u8>) -> Result<(Seq<TxOutV>, int), ParseErr> {
        match parse_txouts_counted(s) {
            Some((ts, n)) => Ok((ts, n)),
            None => Err(ParseErr::Truncated),
        }
    }

    open spec fn canonical(&self) -> bool {
        forall|i: int| 0 <= i < self@.len() ==> self@[i].canonical()
    }

    fn decode(r: &mut Reader) -> (res: Result<Vec<TxOut>, Error>) {
        let ghost s = old(r).remaining();
        let count = match CompactSize::decode(r) {
            Ok(c) => c,
            Err(e) => {
                return Err(e);
            },
        };
        let ghost n0 = varint_parse(s)->Some_0.1;
        let ghost s1 = s.skip(n0);
        let mut out: Vec<TxOut> = Vec::new();
        let mut i: u64 = 0;
        let ghost mut k: int = 0;
        proof {
            assert(out.deep_view() =~= Seq::<TxOutV>::empty());
            assert(s1.skip(0) =~= s1);
            if parse_txouts(s1, count.0 as nat) is Some {
                let q = parse_txouts(s1, count.0 as nat)->Some_0;
                assert(Seq::<TxOutV>::empty() + q.0 =~= q.0);
            }
        }
        while i < count.0
            invariant
                i <= count.0,
                s == old(r).remaining(),
                varint_parse(s) == Some((count.0, n0)),
                s1 == s.skip(n0),
                0 <= k <= s1.len(),
                r.remaining() == s1.skip(k),
                out.wf(),
                out.canonical(),
                parse_txouts(s1, count.0 as nat) == (match parse_txouts(
                    s1.skip(k),
                    (count.0 - i) as nat,
                ) {
                    Some((rest, m)) => Some::<(Seq<TxOutV>, int)>((out.deep_view() + rest, k + m)),
                    None => None::<(Seq<TxOutV>, int)>,
                }),
            decreases count.0 - i,
        {
            let ghost dv0 = out.deep_view();
            let ghost out0 = out@;
            let txout = match TxOut::decode(r) {
                Ok(t) => t,
                Err(e) => {
                    proof {
                        assert(parse_txouts(s1.skip(k), (count.0 - i) as nat) is None);
                    }
                    return Err(e);
                },
            };
            let ghost pn = parse_txout(s1.skip(k))->Some_0.1;
            out.push(txout);
            proof {
                assert(s1.skip(k).skip(pn) =~= s1.skip(k + pn));
                assert(out.deep_view() =~= dv0.push(txout.deep_view()));
                if parse_txouts(s1.skip(k + pn), (count.0 - i - 1) as nat) is Some {
                    let q = parse_txouts(s1.skip(k + pn), (count.0 - i - 1) as nat)->Some_0;
                    assert(dv0 + (seq![txout.deep_view()] + q.0) =~= dv0.push(txout.deep_view())
                        + q.0);
                }
                k = k + pn;
                assert forall|j: int| 0 <= j < out@.len() implies out@[j].wf()
                    && out@[j].canonical() by {
                    if j < out@.len() - 1 {
                        assert(out@[j] == out0[j]);
                    }
                }
            }
            i = i + 1;
        }
        proof {
            assert(s1.skip(k).skip(0) =~= s1.skip(k));
            assert(out.deep_view() + Seq::<TxOutV>::empty() =~= out.deep_view());
            assert(s1.skip(k) =~= s.skip(n0 + k));
        }
        Ok(out)
    }
}

impl Encodable for Vec<TxOut> {
    open spec fn spec_serial(v: Seq<TxOutV>) -> Seq<u8> {
        serial_txouts(v)
    }

    fn encode(&self, w: &mut Vec<u8>) -> (res: Result<usize, Error>) {
        let ghost w0 = w@;
        let start = w.len();
        let cs = CompactSize(self.len() as u64);
        proof {
            assert(self.deep_view().len() == self@.len());
        }
        match cs.encode(w) {
            Ok(_) => (),
            Err(e) => {
                return Err(e);
            },
        };
        let mut i: usize = 0;
        while i < self.len()
            invariant
                i <= self@.len(),
                self.wf(),
                self.deep_view().len() == self@.len(),
                w@ == w0 + varint_serial(self@.len() as u64) + serial_txout_items(
                    self.deep_view().take(i as int),
                ),
            decreases self@.len() - i,
        {
            proof {
                assert(self@[i as int].wf());
            }
            match self[i].encode(w) {
                Ok(_) => (),
                Err(e) => {
                    return Err(e);
                },
            };
            proof {
                lemma_serial_txout_items_push(
                    self.deep_view().take(i as int),
                    self.deep_view()[i as int],
                );
                assert(self.deep_view().take(i as int).push(self.deep_view()[i as int]) =~= self
                    .deep_view()
                    .take(i + 1));
                assert(self@[i as int].deep_view() == self.deep_view()[i as int]);
                assert(w@ =~= w0 + varint_serial(self@.len() as u64) + serial_txout_items(
                    self.deep_view().take(i + 1),
                ));
            }
            i = i + 1;
        }
        proof {
            assert(self.deep_view().take(self@.len() as int) =~= self.deep_view());
            assert(w@ =~= w0 + serial_txouts(self.deep_view()));
        }
        Ok(w.len() - start)
    }
}

// ---------- the whole transaction ----------

/// Reads one witness stack per input, in input order.
fn read_witness_list(r: &mut Reader, count: usize) -> (res: Result<Vec<Witness>, Error>)
    ensures
        match res {
            Ok(ws) => parse_witness_list(old(r).remaining(), count as nat) matches Some(p) && p.0
                == ws.deep_view() && ws@.len() == count && final(r).remaining() == old(
                r,
            ).remaining().skip(p.1),
            Err(e) => parse_witness_list(old(r).remaining(), count as nat) is None && e is Io,
        },
{
    let ghost s = old(r).remaining();
    let mut out: Vec<Witness> = Vec::new();
    let mut i: usize = 0;
    let ghost mut k: int = 0;
    proof {
        assert(out.deep_view() =~= Seq::<Seq<Seq<u8>>>::empty());
        assert(s.skip(0) =~= s);
        if parse_witness_list(s, count as nat) is Some {
            let q = parse_witness_list(s, count as nat)->Some_0;
            assert(Seq::<Seq<Seq<u8>>>::empty() + q.0 =~= q.0);
        }
    }
    while i < count
        invariant
            i <= count,
            s == old(r).remaining(),
            0 <= k <= s.len(),
            r.remaining() == s.skip(k),
            out@.len() == i,
            parse_witness_list(s, count as nat) == (match parse_witness_list(
                s.skip(k),
                (count - i) as nat,
            ) {
                Some((rest, m)) => Some::<(Seq<Seq<Seq<u8>>>, int)>(
                    (out.deep_view() + rest, k + m),
                ),
                None => None::<(Seq<Seq<Seq<u8>>>, int)>,
            }),
        decreases count - i,
    {
        let ghost dv0 = out.deep_view();
        let wtn = match Witness::decode(r) {
            Ok(w) => w,
            Err(e) => {
                proof {
                    assert(parse_witness_list(s.skip(k), (count - i) as nat) is None);
                }
                return Err(e);
            },
        };
        let ghost pn = parse_witness(s.skip(k))->Some_0.1;
        out.push(wtn);
        proof {
            lemma_parse_witness_len(s.skip(k));
            assert(s.skip(k).skip(pn) =~= s.skip(k + pn));
            assert(out.deep_view() =~~= dv0.push(wtn.deep_view()));
            if parse_witness_list(s.skip(k + pn), (count - i - 1) as nat) is Some {
                let q = parse_witness_list(s.skip(k + pn), (count - i - 1) as nat)->Some_0;
                assert(dv0 + (seq![wtn.deep_view()] + q.0) =~~= dv0.push(wtn.deep_view()) + q.0);
            }
            k = k + pn;
        }
        i = i + 1;
    }
    proof {
        assert(s.skip(k).skip(0) =~= s.skip(k));
        assert(out.deep_view() + Seq::<Seq<Seq<u8>>>::empty() =~= out.deep_view());
    }
    Ok(out)
}

/// Pairs each input with its witness stack and reports whether every
/// stack is empty.
fn attach_all(inputs: Vec<TxIn>, wits: Vec<Witness>) -> (res: (Vec<TxIn>, bool))
    requires
        inputs@.len() == wits@.len(),
        inputs.wf(),
        inputs.canonical(),
    ensures
        res.0.deep_view() == attach_witnesses(inputs.deep_view(), wits.deep_view()),
        res.0.wf(),
        res.0.canonical(),
        res.0@.len() == inputs@.len(),
        res.1 == all_witnesses_empty(wits.deep_view()),
{
    let ghost ins_dv = inputs.deep_view();
    let ghost ws = wits.deep_view();
    let mut inputs = inputs;
    let mut wits = wits;
    let total = inputs.len();
    let mut merged: Vec<TxIn> = Vec::new();
    let mut any_nonempty = false;
    let mut j: usize = 0;
    proof {
        assert(merged.deep_view() =~= attach_witnesses(ins_dv, ws).take(0));
        assert(inputs.deep_view() =~= ins_dv.skip(0));
        assert(wits.deep_view() =~= ws.skip(0));
        assert(all_witnesses_empty(ws.take(0)));
    }
    while j < total
        invariant
            j <= total,
            ins_dv.len() == total,
            ws.len() == total,
            inputs@.len() == total - j,
            wits@.len() == total - j,
            inputs.deep_view() == ins_dv.skip(j as int),
            wits.deep_view() == ws.skip(j as int),
            inputs.wf(),
            inputs.canonical(),
            merged@.len() == j,
            merged.wf(),
            merged.canonical(),
            merged.deep_view() == attach_witnesses(ins_dv, ws).take(j as int),
            any_nonempty == !all_witnesses_empty(ws.take(j as int)),
        decreases total - j,
    {
        let ghost merged0 = merged@;
        let ghost mdv0 = merged.deep_view();
        let ghost iv0 = inputs@;
        let ghost wv0 = wits@;
        let ghost idv0 = inputs.deep_view();
        let ghost wdv0 = wits.deep_view();
        proof {
            assert(inputs.deep_view()[0] == inputs@[0].deep_view());
            assert(wits.deep_view()[0] == wits@[0].deep_view());
            assert(inputs@[0].wf());
            assert(inputs@[0].canonical());
        }
        let txin = inputs.remove(0);
        let wtn = wits.remove(0);
        proof {
            assert(inputs@ =~= iv0.drop_first());
            assert(wits@ =~= wv0.drop_first());
            assert forall|l: int| 0 <= l < inputs@.len() implies #[trigger] inputs.deep_view()[l]
                == ins_dv.skip(j + 1)[l] by {
                assert(inputs.deep_view()[l] == inputs@[l].deep_view());
                assert(inputs@[l] == iv0[l + 1]);
                assert(idv0[l + 1] == iv0[l + 1].deep_view());
                assert(idv0[l + 1] == ins_dv.skip(j as int)[l + 1]);
            }
            assert(inputs.deep_view() =~= ins_dv.skip(j + 1));
            assert forall|l: int| 0 <= l < wits@.len() implies #[trigger] wits.deep_view()[l]
                == ws.skip(j + 1)[l] by {
                assert(wits.deep_view()[l] == wits@[l].deep_view());
                assert(wits@[l] == wv0[l + 1]);
                assert(wdv0[l + 1] == wv0[l + 1].deep_view());
                assert(wdv0[l + 1] == ws.skip(j as int)[l + 1]);
            }
            assert(wits.deep_view() =~= ws.skip(j + 1));
            assert(txin.deep_view() == idv0[0]);
            assert(txin.deep_view() == ins_dv[j as int]);
            assert(wtn.deep_view() == wdv0[0]);
            assert(wtn.deep_view() == ws[j as int]);
            assert(wtn.deep_view().len() == wtn.content@.len());
        }
        let has_data = wtn.content.len() > 0;
        merged.push(
            TxIn {
                tx_id: txin.tx_id,
                output_index: txin.output_index,
                script_sig: txin.script_sig,
                witness: wtn,
                sequence: txin.sequence,
            },
        );
        any_nonempty = any_nonempty || has_data;
        proof {
            assert(merged.deep_view() =~~= mdv0.push(attach_witnesses(ins_dv, ws)[j as int]));
            assert(merged.deep_view() =~= attach_witnesses(ins_dv, ws).take(j + 1));
            assert forall|l: int| 0 <= l < merged@.len() implies merged@[l].wf()
                && merged@[l].canonical() by {
                if l < merged@.len() - 1 {
                    assert(merged@[l] == merged0[l]);
                }
            }
            if any_nonempty {
                assert(!all_witnesses_empty(ws.take(j + 1))) by {
                    if ws[j as int].len() > 0 {
                        assert(ws.take(j + 1)[j as int].len() > 0);
                    } else {
                        let w = choose|l: int| 0 <= l < j && ws.take(j as int)[l].len() > 0;
                        assert(ws.take(j + 1)[w].len() > 0);
                    }
                }
            } else {
                assert(all_witnesses_empty(ws.take(j + 1))) by {
                    assert forall|l: int| 0 <= l < j + 1 implies (#[trigger] ws.take(j + 1)[l]).len()
                        == 0 by {
                        if l < j {
                            assert(ws.take(j as int)[l].len() == 0);
                        }
                    }
                }
            }
        }
        j = j + 1;
    }
    proof {
        assert(ws.take(total as int) =~= ws);
        assert(attach_witnesses(ins_dv, ws).take(total as int) =~= attach_witnesses(ins_dv, ws));
    }
    (merged, !any_nonempty)
}

/// The witness layout after the empty marker list: flag byte, true
/// input list, outputs, one witness per input, lock-time.
fn decode_witness_tail(r: &mut Reader, version: u32) -> (res: Result<Transaction, Error>)
    ensures
        match res {
            Ok(v) => parse_witness_tail(version, old(r).remaining()) matches Ok(p) && v.deep_view()
                == p.0 && final(r).remaining() == old(r).remaining().skip(p.1) && v.wf()
                && v.canonical(),
            Err(e) => parse_witness_tail(version, old(r).remaining()) matches Err(pe)
                && err_reflects(e, pe),
        },
{
    let ghost s = old(r).remaining();
    let segwit_flag = match r.read_u8() {
        Ok(v) => v,
        Err(e) => {
            return Err(e);
        },
    };
    if segwit_flag != 1 {
        return Err(Error::UnsupportedSegwitFlag(segwit_flag));
    }
    let ghost s1 = s.skip(1);
    let inputs = match Vec::<TxIn>::decode(r) {
        Ok(v) => v,
        Err(e) => {
            return Err(e);
        },
    };
    let ghost q1 = parse_txins_counted(s1)->Some_0;
    let outputs = match Vec::<TxOut>::decode(r) {
        Ok(v) => v,
        Err(e) => {
            return Err(e);
        },
    };
    let ghost q2 = parse_txouts_counted(s1.skip(q1.1))->Some_0;
    let ghost s3 = s1.skip(q1.1).skip(q2.1);
    let total = inputs.len();
    proof {
        assert(inputs.deep_view().len() == inputs@.len());
    }
    let wits = match read_witness_list(r, total) {
        Ok(w) => w,
        Err(e) => {
            return Err(e);
        },
    };
    let ghost p3 = parse_witness_list(s3, total as nat)->Some_0;
    let (merged, all_empty) = attach_all(inputs, wits);
    if all_empty {
        return Err(Error::ParseFailed("witness flag set but no witnesses present"));
    }
    let lock_time = match u32::decode(r) {
        Ok(v) => v,
        Err(e) => {
            return Err(e);
        },
    };
    proof {
        lemma_parse_txins_counted_len(s1);
        lemma_parse_txouts_counted_len(s1.skip(q1.1));
        lemma_parse_witness_list_len(s3, total as nat);
        assert(s3.skip(p3.1).skip(4) =~= s.skip(1 + q1.1 + q2.1 + p3.1 + 4));
    }
    Ok(Transaction { version, inputs: merged, outputs, lock_time })
}

/// The legacy layout after a non-empty input list: outputs, lock-time.
fn decode_legacy_tail(r: &mut Reader, version: u32, inputs: Vec<TxIn>) -> (res: Result<
    Transaction,
    Error,
>)
    requires
        inputs.wf(),
        inputs.canonical(),
    ensures
        match res {
            Ok(v) => parse_legacy_tail(version, inputs.deep_view(), old(r).remaining()) matches Ok(
                p,
            ) && v.deep_view() == p.0 && final(r).remaining() == old(r).remaining().skip(p.1)
                && v.wf() && v.canonical(),
            Err(e) => parse_legacy_tail(
                version,
                inputs.deep_view(),
                old(r).remaining(),
            ) matches Err(pe) && err_reflects(e, pe),
        },
{
    let ghost s = old(r).remaining();
    let outputs = match Vec::<TxOut>::decode(r) {
        Ok(v) => v,
        Err(e) => {
            return Err(e);
        },
    };
    let ghost p2 = parse_txouts_counted(s)->Some_0;
    let lock_time = match u32::decode(r) {
        Ok(v) => v,
        Err(e) => {
            return Err(e);
        },
    };
    proof {
        lemma_parse_txouts_counted_len(s);
        assert(s.skip(p2.1).skip(4) =~= s.skip(p2.1 + 4));
    }
    Ok(Transaction { version, inputs, outputs, lock_time })
}

impl Decodable for Transaction {
    open spec fn spec_decode(s: Seq<u8>) -> Result<(TransactionV, int), ParseErr> {
        parse_tx(s)
    }

    open spec fn canonical(&self) -> bool {
        self.inputs.canonical() && self.outputs.canonical()
    }

    #[verifier::rlimit(50)]
    fn decode(r: &mut Reader) -> (res: Result<Transaction, Error>) {
        let ghost s = old(r).remaining();
        let version = match u32::decode(r) {
            Ok(v) => v,
            Err(e) => {
                return Err(e);
            },
        };
        let ghost s1 = s.skip(4);
        let inputs = match Vec::<TxIn>::decode(r) {
            Ok(v) => v,
            Err(e) => {
                return Err(e);
            },
        };
        let ghost p1 = parse_txins_counted(s1)->Some_0;
        proof {
            assert(inputs.deep_view().len() == inputs@.len());
            lemma_parse_txins_counted_len(s1);
            assert(s1.skip(p1.1) =~= s.skip(4 + p1.1));
        }
        if inputs.len() > 0 {
            let res = decode_legacy_tail(r, version, inputs);
            proof {
                lemma_parse_legacy_tail_len(version, p1.0, s.skip(4 + p1.1));
                if parse_legacy_tail(version, p1.0, s.skip(4 + p1.1)) is Ok {
                    let q = parse_legacy_tail(version, p1.0, s.skip(4 + p1.1))->Ok_0;
                    assert(s.skip(4 + p1.1).skip(q.1) =~= s.skip(4 + p1.1 + q.1));
                }
            }
            res
        } else {
            let res = decode_witness_tail(r, version);
            proof {
                lemma_parse_witness_tail_len(version, s.skip(4 + p1.1));
                if parse_witness_tail(version, s.skip(4 + p1.1)) is Ok {
                    let q = parse_witness_tail(version, s.skip(4 + p1.1))->Ok_0;
                    assert(s.skip(4 + p1.1).skip(q.1) =~= s.skip(4 + p1.1 + q.1));
                }
            }
            res
        }
    }
}

} // verus!

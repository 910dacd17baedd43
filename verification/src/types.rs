use vstd::prelude::*;

use crate::encode_decode::{err_reflects, Decodable, Reader, WellFormed};
use crate::error::Error;
use crate::hex_text::{bytes_of_hex, valid_hex};
use crate::wire::{parse_tx, TransactionV, TxInV, TxOutV};

verus! {

/// The raw bytes of a transaction, as obtained from hex text.
#[derive(Debug)]
pub struct RawTransaction(pub(crate) Vec<u8>);

/// A fully decoded transaction.
#[derive(Debug)]
pub struct Transaction {
    pub version: u32,
    pub inputs: Vec<TxIn>,
    pub outputs: Vec<TxOut>,
    pub lock_time: u32,
}

/// One transaction input. `script_sig` holds the unlocking script as
/// hex text, the canonical in-memory form for scripts. `witness` is
/// empty unless the transaction was parsed in witness layout.
#[derive(Debug)]
pub struct TxIn {
    pub tx_id: TxID,
    pub output_index: u32,
    pub script_sig: String,
    pub witness: Witness,
    pub sequence: u32,
}

/// The witness stack attached to one input: a sequence of opaque byte
/// strings. An empty stack is a valid state, distinct from "absent".
#[derive(Debug)]
pub struct Witness {
    pub content: Vec<Vec<u8>>,
}

/// One transaction output: an amount and the locking script as hex
/// text.
#[derive(Debug)]
pub struct TxOut {
    pub amount: Amount,
    pub script_pubkey: String,
}

/// An amount in satoshis, the smallest unit.
#[derive(Debug)]
pub struct Amount(pub u64);

/// A 32-byte transaction identifier, kept in wire order. The display
/// form reverses the bytes.
#[derive(Debug)]
pub struct TxID(pub [u8; 32]);

/// A CompactSize value: one logical 64-bit non-negative integer with
/// several valid wire encodings of different widths.
#[derive(Debug)]
pub struct CompactSize(pub u64);

// ---------- abstractions ----------

impl DeepView for RawTransaction {
    type V = Seq<u8>;

    closed spec fn deep_view(&self) -> Seq<u8> {
        self.0@
    }
}

impl DeepView for TxID {
    type V = Seq<u8>;

    open spec fn deep_view(&self) -> Seq<u8> {
        self.0@
    }
}

impl DeepView for Witness {
    type V = Seq<Seq<u8>>;

    open spec fn deep_view(&self) -> Seq<Seq<u8>> {
        self.content.deep_view()
    }
}

impl DeepView for Amount {
    type V = u64;

    open spec fn deep_view(&self) -> u64 {
        self.0
    }
}

impl DeepView for CompactSize {
    type V = u64;

    open spec fn deep_view(&self) -> u64 {
        self.0
    }
}

impl DeepView for TxIn {
    type V = TxInV;

    open spec fn deep_view(&self) -> TxInV {
        TxInV {
            tx_id: self.tx_id.deep_view(),
            output_index: self.output_index,
            script: bytes_of_hex(self.script_sig@),
            witness: self.witness.deep_view(),
            sequence: self.sequence,
        }
    }
}

impl DeepView for TxOut {
    type V = TxOutV;

    open spec fn deep_view(&self) -> TxOutV {
        TxOutV { amount: self.amount.0, script: bytes_of_hex(self.script_pubkey@) }
    }
}

impl DeepView for Transaction {
    type V = TransactionV;

    open spec fn deep_view(&self) -> TransactionV {
        TransactionV {
            version: self.version,
            inputs: self.inputs.deep_view(),
            outputs: self.outputs.deep_view(),
            lock_time: self.lock_time,
        }
    }
}

// ---------- well-formedness ----------

impl WellFormed for u8 {

}

impl WellFormed for u16 {

}

impl WellFormed for u32 {

}

impl WellFormed for u64 {

}

impl WellFormed for RawTransaction {

}

impl WellFormed for TxID {

}

/// A witness stack can be re-encoded only while it fits the one-byte
/// item count the wire format gives it.
impl WellFormed for Witness {
    open spec fn wf(&self) -> bool {
        self.content@.len() <= 255
    }
}

impl WellFormed for Amount {

}

impl WellFormed for CompactSize {

}

/// A script string is sound when it is hex text.
impl WellFormed for String {
    open spec fn wf(&self) -> bool {
        valid_hex(self@)
    }
}

impl WellFormed for TxIn {
    open spec fn wf(&self) -> bool {
        valid_hex(self.script_sig@)
    }
}

impl WellFormed for TxOut {
    open spec fn wf(&self) -> bool {
        valid_hex(self.script_pubkey@)
    }
}

impl WellFormed for Vec<TxIn> {
    open spec fn wf(&self) -> bool {
        forall|i: int| 0 <= i < self@.len() ==> self@[i].wf()
    }
}

impl WellFormed for Vec<TxOut> {
    open spec fn wf(&self) -> bool {
        forall|i: int| 0 <= i < self@.len() ==> self@[i].wf()
    }
}

impl WellFormed for Transaction {
    open spec fn wf(&self) -> bool {
        self.inputs.wf() && self.outputs.wf()
    }
}

// ---------- constructors ----------

impl RawTransaction {
    /// Turns hex text into the raw bytes of a transaction. Fails
    /// exactly when the text is not valid hex.
    pub fn new(tx_hex: String) -> (r: Result<RawTransaction, hex::FromHexError>)
        ensures
            match r {
                Ok(raw) => valid_hex(tx_hex@) && raw.deep_view() == bytes_of_hex(tx_hex@),
                Err(_) => !valid_hex(tx_hex@),
            },
    {
        match crate::hex_text::hex_decode(tx_hex.as_str()) {
            Ok(v) => Ok(RawTransaction(v)),
            Err(e) => Err(e),
        }
    }
}

/// Hands back an owned copy of a byte vector.
fn copy_bytes(src: &Vec<u8>) -> (r: Vec<u8>)
    ensures
        r@ == src@,
{
    let mut out: Vec<u8> = Vec::new();
    let mut i: usize = 0;
    while i < src.len()
        invariant
            i <= src@.len(),
            out@ == src@.take(i as int),
        decreases src@.len() - i,
    {
        proof {
            assert(out@.push(src@[i as int]) =~= src@.take(i + 1));
        }
        out.push(src[i]);
        i = i + 1;
    }
    proof {
        assert(src@.take(src@.len() as int) =~= src@);
    }
    out
}

impl Transaction {
    /// Decodes a transaction from its raw bytes. Succeeds exactly when
    /// the bytes open with a parseable transaction; the decoded value
    /// is the one the wire format gives them.
    pub fn new(raw_tx: &RawTransaction) -> (r: Result<Transaction, Error>)
        ensures
            match r {
                Ok(tx) => parse_tx(raw_tx.deep_view()) matches Ok(p) && tx.deep_view() == p.0
                    && tx.wf() && tx.canonical(),
                Err(e) => parse_tx(raw_tx.deep_view()) matches Err(pe) && err_reflects(e, pe),
            },
    {
        let bytes = copy_bytes(&raw_tx.0);
        let mut reader = Reader::new(bytes);
        Transaction::decode(&mut reader)
    }
}

impl Amount {
    /// Wraps a satoshi count.
    pub fn from_sat(satoshi: u64) -> (r: Amount)
        ensures
            r.0 == satoshi,
    {
        Amount(satoshi)
    }
}

impl Witness {
    /// The empty witness stack.
    pub fn new() -> (r: Self)
        ensures
            r.deep_view() == Seq::<Seq<u8>>::empty(),
    {
        let w = Witness { content: Vec::new() };
        proof {
            assert(w.deep_view() =~= Seq::<Seq<u8>>::empty());
        }
        w
    }

    /// True when the stack holds no items.
    pub fn is_empty(&self) -> (r: bool)
        ensures
            r == (self.deep_view().len() == 0),
    {
        self.content.len() == 0
    }
}

} // verus!

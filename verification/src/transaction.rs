use vstd::prelude::*;

use sha2::{Digest, Sha256};

use crate::encode_decode::{Encodable, WellFormed};
use crate::hex_text::{hex_encode, hex_of_bytes};
use crate::types::{Transaction, TxID};
use crate::wire::{serial_tx, TransactionV};

verus! {

/// The SHA-256 digest of a byte sequence, by name only: the outside
/// hash function does the computing, and contracts speak of the digest
/// through this name.
pub uninterp spec fn sha256_of(data: Seq<u8>) -> Seq<u8>;

/// What a transaction's identifier is: the double SHA-256 of its
/// canonical non-witness serialization. Witness data cannot reach it.
pub open spec fn spec_txid(t: TransactionV) -> Seq<u8> {
    sha256_of(sha256_of(serial_tx(t)))
}

/// Relies on sha2::Sha256 (new, update, finalize): the 32-byte digest
/// depends on the input bytes alone.
#[verifier::external_body]
fn sha256(bytes: &[u8]) -> (r: [u8; 32])
    ensures
        r@ == sha256_of(bytes@),
        r@.len() == 32,
{
    let mut hasher = Sha256::new();
    hasher.update(bytes);
    hasher.finalize().into()
}

impl Transaction {
    /// Serializes the transaction in its non-witness form and hashes
    /// that twice: the identifier is the second digest, in wire order.
    pub fn compute_txid(&self) -> (r: TxID)
        requires
            self.wf(),
        ensures
            r.deep_view() == spec_txid(self.deep_view()),
    {
        let mut txid_data: Vec<u8> = Vec::new();
        let _ = self.version.encode(&mut txid_data);
        let _ = self.inputs.encode(&mut txid_data);
        let _ = self.outputs.encode(&mut txid_data);
        let _ = self.lock_time.encode(&mut txid_data);
        proof {
            assert(txid_data@ =~= serial_tx(self.deep_view()));
        }
        TxID::from_raw_transaction(txid_data)
    }
}

impl TxID {
    /// Wraps a 32-byte digest as an identifier.
    pub fn from_hash(bytes: [u8; 32]) -> (r: Self)
        ensures
            r.deep_view() == bytes@,
    {
        TxID(bytes)
    }

    /// Double SHA-256 of a serialized transaction.
    fn from_raw_transaction(tx: Vec<u8>) -> (r: Self)
        ensures
            r.deep_view() == sha256_of(sha256_of(tx@)),
    {
        let hash1 = sha256(tx.as_slice());
        let hash2 = sha256(hash1.as_slice());
        TxID::from_hash(hash2)
    }

    /// The human-displayed form of an identifier: the 32 bytes in
    /// reverse order, spelled as lowercase hex.
    pub fn display_hex(&self) -> (r: String)
        ensures
            r@ == hex_of_bytes(self.deep_view().reverse()),
    {
        let mut rev: Vec<u8> = Vec::new();
        let mut i: usize = 0;
        while i < 32
            invariant
                i <= 32,
                rev@.len() == i,
                forall|l: int| 0 <= l < i ==> rev@[l] == self.0@[31 - l],
            decreases 32 - i,
        {
            rev.push(self.0[31 - i]);
            i = i + 1;
        }
        proof {
            assert(rev@ =~= self.deep_view().reverse());
        }
        hex_encode(rev.as_slice())
    }
}

} // verus!

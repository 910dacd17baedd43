use sha2::{Digest, Sha256};
use transaction_decoder::encode_decode::{Decodable, Encodable, Reader};
use transaction_decoder::error::Error;
use transaction_decoder::types::{Amount, CompactSize, RawTransaction, Transaction, Witness};

fn varint_round_trip(v: u64, expected_width: usize) {
    let mut wire: Vec<u8> = Vec::new();
    let written = CompactSize(v).encode(&mut wire).unwrap();
    assert_eq!(written, expected_width);
    assert_eq!(wire.len(), expected_width);
    let mut reader = Reader::new(wire);
    let back = CompactSize::decode(&mut reader).unwrap();
    assert_eq!(back.0, v);
}

#[test]
fn varint_boundary_values_round_trip() {
    varint_round_trip(0, 1);
    varint_round_trip(0xFC, 1);
    varint_round_trip(0xFD, 3);
    varint_round_trip(0xFFFF, 3);
    varint_round_trip(0x10000, 5);
    varint_round_trip(0xFFFF_FFFF, 5);
    varint_round_trip(0x1_0000_0000, 9);
    varint_round_trip(u64::MAX, 9);
}

#[test]
fn varint_minimal_prefixes() {
    let mut wire: Vec<u8> = Vec::new();
    CompactSize(0xFD).encode(&mut wire).unwrap();
    assert_eq!(wire, vec![0xFD, 0xFD, 0x00]);
    let mut wire: Vec<u8> = Vec::new();
    CompactSize(0x10000).encode(&mut wire).unwrap();
    assert_eq!(wire, vec![0xFE, 0x00, 0x00, 0x01, 0x00]);
}

#[test]
fn varint_accepts_non_minimal_encoding() {
    // value 5 in the 0xFD-prefixed two-byte form still decodes to 5
    let mut reader = Reader::new(vec![0xFD, 0x05, 0x00]);
    let v = CompactSize::decode(&mut reader).unwrap();
    assert_eq!(v.0, 5);
}

#[test]
fn varint_truncated_wide_form_fails() {
    let mut reader = Reader::new(vec![0xFD, 0x05]);
    let r = CompactSize::decode(&mut reader);
    assert!(matches!(r, Err(Error::Io)));
}

/// The canonical single-input, single-output legacy transaction:
/// version 1, one input spending the all-zero id at index 0xFFFFFFFF
/// with an empty script and sequence 0xFFFFFFFF, one output of 0
/// satoshis with an empty script, lock-time 0.
fn canonical_legacy_bytes() -> Vec<u8> {
    let mut b: Vec<u8> = Vec::new();
    b.extend_from_slice(&[0x01, 0x00, 0x00, 0x00]); // version
    b.push(0x01); // input count
    b.extend_from_slice(&[0u8; 32]); // prior id
    b.extend_from_slice(&[0xFF, 0xFF, 0xFF, 0xFF]); // output index
    b.push(0x00); // empty script
    b.extend_from_slice(&[0xFF, 0xFF, 0xFF, 0xFF]); // sequence
    b.push(0x01); // output count
    b.extend_from_slice(&[0u8; 8]); // amount
    b.push(0x00); // empty script
    b.extend_from_slice(&[0x00, 0x00, 0x00, 0x00]); // lock-time
    b
}

fn decode_tx(bytes: &[u8]) -> Result<Transaction, Error> {
    let raw = RawTransaction::new(hex::encode(bytes)).unwrap();
    Transaction::new(&raw)
}

#[test]
fn canonical_legacy_transaction_decodes() {
    let tx = decode_tx(&canonical_legacy_bytes()).unwrap();
    assert_eq!(tx.version, 1);
    assert_eq!(tx.lock_time, 0);
    assert_eq!(tx.inputs.len(), 1);
    assert_eq!(tx.outputs.len(), 1);
    assert_eq!(tx.inputs[0].tx_id.0, [0u8; 32]);
    assert_eq!(tx.inputs[0].output_index, 0xFFFF_FFFF);
    assert_eq!(tx.inputs[0].script_sig, "");
    assert_eq!(tx.inputs[0].sequence, 0xFFFF_FFFF);
    assert!(tx.inputs[0].witness.is_empty());
    assert_eq!(tx.outputs[0].amount.0, 0);
    assert_eq!(tx.outputs[0].script_pubkey, "");
}

#[test]
fn canonical_legacy_txid_is_double_sha256() {
    let bytes = canonical_legacy_bytes();
    let tx = decode_tx(&bytes).unwrap();
    let txid = tx.compute_txid();
    let first = Sha256::digest(&bytes);
    let second = Sha256::digest(first);
    assert_eq!(txid.0.as_slice(), second.as_slice());
    // the display form reverses the byte order
    let mut reversed = second.to_vec();
    reversed.reverse();
    assert_eq!(txid.display_hex(), hex::encode(reversed));
}

#[test]
fn txid_ignores_trailing_bytes() {
    let mut bytes = canonical_legacy_bytes();
    let txid = decode_tx(&bytes).unwrap().compute_txid();
    bytes.extend_from_slice(&[0xAB, 0xCD, 0xEF]);
    let txid_with_trailing = decode_tx(&bytes).unwrap().compute_txid();
    assert_eq!(txid.0, txid_with_trailing.0);
}

#[test]
fn truncation_before_lock_time_fails_with_io() {
    let bytes = canonical_legacy_bytes();
    for cut in [0, 3, 4, 5, 20, 36, 37, 41, 42, 50, bytes.len() - 5, bytes.len() - 1] {
        let r = decode_tx(&bytes[..cut]);
        assert!(matches!(r, Err(Error::Io)), "cut at {} did not fail with Io", cut);
    }
}

/// A witness-layout transaction: marker, flag 1, the same input and
/// output as the canonical legacy transaction, one witness with one
/// two-byte stack item.
fn witness_layout_bytes(witness_item_counts: &[u8]) -> Vec<u8> {
    let mut b: Vec<u8> = Vec::new();
    b.extend_from_slice(&[0x01, 0x00, 0x00, 0x00]); // version
    b.push(0x00); // marker: empty input list
    b.push(0x01); // segwit flag
    b.push(0x01); // real input count
    b.extend_from_slice(&[0u8; 32]);
    b.extend_from_slice(&[0xFF, 0xFF, 0xFF, 0xFF]);
    b.push(0x00);
    b.extend_from_slice(&[0xFF, 0xFF, 0xFF, 0xFF]);
    b.push(0x01); // output count
    b.extend_from_slice(&[0u8; 8]);
    b.push(0x00);
    for &count in witness_item_counts {
        b.push(count); // witness stack item count for the input
        for _ in 0..count {
            b.push(0x02); // item length
            b.extend_from_slice(&[0xBE, 0xEF]); // item bytes
        }
    }
    b.extend_from_slice(&[0x00, 0x00, 0x00, 0x00]); // lock-time
    b
}

#[test]
fn witness_layout_attaches_witnesses() {
    let tx = decode_tx(&witness_layout_bytes(&[1])).unwrap();
    assert_eq!(tx.inputs.len(), 1);
    assert_eq!(tx.inputs[0].witness.content, vec![vec![0xBE, 0xEF]]);
}

#[test]
fn witness_content_leaves_txid_unchanged() {
    let legacy = decode_tx(&canonical_legacy_bytes()).unwrap();
    let witness = decode_tx(&witness_layout_bytes(&[1])).unwrap();
    assert_eq!(legacy.compute_txid().0, witness.compute_txid().0);
}

#[test]
fn all_empty_witnesses_rejected() {
    let r = decode_tx(&witness_layout_bytes(&[0]));
    assert!(matches!(
        r,
        Err(Error::ParseFailed("witness flag set but no witnesses present"))
    ));
}

#[test]
fn empty_input_list_under_witness_flag_rejected() {
    // an all-empty input list is only the witness-layout marker, never
    // a valid final state: a re-read count of zero must fail
    let mut b: Vec<u8> = Vec::new();
    b.extend_from_slice(&[0x01, 0x00, 0x00, 0x00]); // version
    b.push(0x00); // marker: empty input list
    b.push(0x01); // segwit flag
    b.push(0x00); // re-read input count: zero
    b.push(0x01); // output count
    b.extend_from_slice(&[0u8; 8]); // amount
    b.push(0x00); // empty script
    b.extend_from_slice(&[0x00, 0x00, 0x00, 0x00]); // lock-time
    let r = decode_tx(&b);
    assert!(matches!(
        r,
        Err(Error::ParseFailed("witness flag set but no witnesses present"))
    ));
}

#[test]
fn unsupported_segwit_flag_carries_byte() {
    let bytes = vec![0x01, 0x00, 0x00, 0x00, 0x00, 0x02];
    let r = decode_tx(&bytes);
    assert!(matches!(r, Err(Error::UnsupportedSegwitFlag(2))));
}

#[test]
fn scripts_decode_to_lowercase_hex_text() {
    let mut b: Vec<u8> = Vec::new();
    b.extend_from_slice(&[0x01, 0x00, 0x00, 0x00]);
    b.push(0x01);
    b.extend_from_slice(&[0u8; 32]);
    b.extend_from_slice(&[0x00, 0x00, 0x00, 0x00]);
    b.push(0x04); // four-byte script
    b.extend_from_slice(&[0xDE, 0xAD, 0xBE, 0xEF]);
    b.extend_from_slice(&[0xFF, 0xFF, 0xFF, 0xFF]);
    b.push(0x01);
    b.extend_from_slice(&[0x40, 0x42, 0x0F, 0x00, 0x00, 0x00, 0x00, 0x00]); // 1_000_000 sat
    b.push(0x02);
    b.extend_from_slice(&[0x51, 0xAE]);
    b.extend_from_slice(&[0x00, 0x00, 0x00, 0x00]);
    let tx = decode_tx(&b).unwrap();
    assert_eq!(tx.inputs[0].script_sig, "deadbeef");
    assert_eq!(tx.outputs[0].amount.0, 1_000_000);
    assert_eq!(tx.outputs[0].script_pubkey, "51ae");
}

#[test]
fn raw_transaction_rejects_bad_hex() {
    assert!(RawTransaction::new("zz".to_string()).is_err());
    assert!(RawTransaction::new("abc".to_string()).is_err()); // odd length
    assert!(RawTransaction::new("abcd".to_string()).is_ok());
}

#[test]
fn amount_and_witness_constructors() {
    let a = Amount::from_sat(21);
    assert_eq!(a.0, 21);
    let w = Witness::new();
    assert!(w.is_empty());
    let full = Witness { content: vec![vec![1, 2, 3]] };
    assert!(!full.is_empty());
}

#[test]
fn fixed_width_integers_read_little_endian() {
    let mut reader = Reader::new(vec![0x78, 0x56, 0x34, 0x12]);
    let v = u32::decode(&mut reader).unwrap();
    assert_eq!(v, 0x1234_5678);
    let mut reader = Reader::new(vec![0xEF, 0xCD, 0xAB, 0x89, 0x67, 0x45, 0x23, 0x01]);
    let v = u64::decode(&mut reader).unwrap();
    assert_eq!(v, 0x0123_4567_89AB_CDEF);
}

#[test]
fn empty_stream_fails_with_io() {
    let r = decode_tx(&[]);
    assert!(matches!(r, Err(Error::Io)));
}

#[test]
fn witness_encode_decode_round_trip() {
    let w = Witness { content: vec![vec![0xBE, 0xEF], vec![], vec![0x51]] };
    let mut wire: Vec<u8> = Vec::new();
    let written = w.encode(&mut wire).unwrap();
    assert_eq!(written, wire.len());
    assert_eq!(wire, vec![0x03, 0x02, 0xBE, 0xEF, 0x00, 0x01, 0x51]);
    let mut reader = Reader::new(wire);
    let back = Witness::decode(&mut reader).unwrap();
    assert_eq!(back.content, w.content);
}

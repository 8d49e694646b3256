use long_arithmetic::utxo::{hash_str, Header, TxInput, TxOutput};

#[test]
fn hash_str_upper_hex() {
    assert_eq!(hash_str(&[0x00, 0x0A, 0xFF, 0x3c]), "000AFF3C");
    assert_eq!(hash_str(&[]), "");
}

fn header_bytes() -> Vec<u8> {
    let mut b = vec![1, 0, 0, 0];
    b.extend(0u8..32);
    b.extend(100u8..132);
    b.extend([0x29, 0xAB, 0x5F, 0x49]);
    b.extend([0xFF, 0xFF, 0x00, 0x1D]);
    b.extend([0x1D, 0xAC, 0x2B, 0x7C]);
    b
}

#[test]
fn header_parse() {
    let b = header_bytes();
    let (h, end) = Header::parse(&b, 0).unwrap();
    assert_eq!(end, 80);
    assert_eq!(h.version, 1);
    let mut prev: Vec<u8> = (0u8..32).collect();
    prev.reverse();
    assert_eq!(h.previous_hash.to_vec(), prev);
    assert_eq!(h.merkle_hash[0], 131);
    assert_eq!(h.time, 0x495F_AB29);
    assert_eq!(h.bits, 0x1D00_FFFF);
    assert_eq!(h.nonce, 0x7C2B_AC1D);
    assert!(Header::parse(&b[..79], 0).is_none());
    assert!(Header::parse(&b, 1).is_none());
}

#[test]
fn tx_input_parse() {
    let mut b = vec![0xAA];
    b.extend([7u8; 32]);
    b.extend([5, 0, 0, 0]);
    b.push(3);
    b.extend([9, 8, 7]);
    b.extend([0xFF, 0xFF, 0xFF, 0xFF]);
    let (t, end) = TxInput::parse(&b, 1).unwrap();
    assert_eq!(end, b.len());
    assert_eq!(t.prev_hash, [7u8; 32]);
    assert_eq!(t.out_id, 5);
    assert_eq!(t.script_sig, vec![9, 8, 7]);
    assert_eq!(t.seq_no, u32::MAX);
    assert!(TxInput::parse(&b[..b.len() - 1], 1).is_none());
}

#[test]
fn tx_output_parse() {
    let mut b = vec![0x00, 0xF2, 0x05, 0x2A, 0x01, 0x00, 0x00, 0x00];
    b.push(2);
    b.extend([0x41, 0x04]);
    let (t, end) = TxOutput::parse(&b, 0).unwrap();
    assert_eq!(end, 11);
    assert_eq!(t.value, 5_000_000_000);
    assert_eq!(t.pubkey, vec![0x41, 0x04]);
    assert!(TxOutput::parse(&b[..10], 0).is_none());
}

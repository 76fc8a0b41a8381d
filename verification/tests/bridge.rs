use abcd::{
    decode_cash_addr, Block, BlockIndex, CashAddrType, DecodedCashAddr, Script, Tx, TxId, TxInput,
    TxOutpoint, TxOutput,
};

fn sample_tx() -> Tx {
    Tx {
        txid: [3u8; 32],
        n_version: 2,
        n_lock_time: 500_000,
        vin: vec![TxInput {
            prevout: TxOutpoint { txid: TxId { bytes: [4u8; 32] }, n: 7 },
            script: Script { code: vec![0x51] },
            n_sequence: 0xffff_fffe,
        }],
        vout: vec![TxOutput { value: 5_000, script: Script { code: vec![0x6a, 0x00] } }],
        size: 85,
    }
}

#[test]
fn tx_getters_read_the_fields() {
    let tx = sample_tx();
    assert_eq!(tx.id(), [3u8; 32]);
    assert_eq!(tx.version(), 2);
    assert_eq!(tx.lock_time(), 500_000);
    assert_eq!(tx.serialize_size(), 85);
    assert_eq!(tx.inputs().len(), 1);
    assert_eq!(tx.outputs().len(), 1);
    let input = &tx.inputs()[0];
    assert_eq!(input.prev_out().index(), 7);
    assert_eq!(input.prev_out().txid().bytes, [4u8; 32]);
    assert_eq!(input.script_sig().bytecode(), &[0x51]);
    assert_eq!(input.sequence(), 0xffff_fffe);
    let output = &tx.outputs()[0];
    assert_eq!(output.amount(), 5_000);
    assert_eq!(output.script_pub_key().bytecode(), &[0x6a, 0x00]);
    let block = Block { vtx: vec![tx] };
    assert_eq!(block.txs().len(), 1);
}

#[test]
fn outpoint_is_null_only_for_zero_txid_and_max_index() {
    let null = TxOutpoint { txid: TxId { bytes: [0u8; 32] }, n: u32::MAX };
    assert!(null.is_null());
    let index_zero = TxOutpoint { txid: TxId { bytes: [0u8; 32] }, n: 0 };
    assert!(!index_zero.is_null());
    let mut bytes = [0u8; 32];
    bytes[31] = 1;
    let last_byte_set = TxOutpoint { txid: TxId { bytes }, n: u32::MAX };
    assert!(!last_byte_set.is_null());
}

#[test]
fn block_index_prev_and_file_pos() {
    let genesis = BlockIndex { n_file: 0, n_data_pos: 8, pprev: None };
    let next = BlockIndex { n_file: 1, n_data_pos: 300, pprev: Some(Box::new(genesis)) };
    let pos = next.file_pos();
    assert_eq!(pos.file_num, 1);
    assert_eq!(pos.data_pos, 300);
    let prev = next.prev().unwrap();
    assert_eq!(prev.file_pos().data_pos, 8);
    assert!(prev.prev().is_none());
}

#[test]
fn decode_cash_addr_rejects_an_empty_hash() {
    let failed = DecodedCashAddr { kind: CashAddrType::PUBKEY_TYPE, hash: vec![] };
    assert!(decode_cash_addr(failed).is_none());
    let decoded = DecodedCashAddr { kind: CashAddrType::SCRIPT_TYPE, hash: vec![5u8; 20] };
    let d = decode_cash_addr(decoded).unwrap();
    assert_eq!(d.kind, CashAddrType::SCRIPT_TYPE);
    assert_eq!(d.hash, vec![5u8; 20]);
    assert_eq!(d.kind.repr(), 1);
    assert_eq!(CashAddrType::PUBKEY_TYPE.repr(), 0);
}

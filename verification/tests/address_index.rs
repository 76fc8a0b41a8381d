use abcd::{
    address_search_prefix, block_connected_keys, block_is_indexable, entries_from_keys,
    AddressEntry, Block, BlockIndex, BlockIndexFilePos, Key, Script, ScriptKind, Tx, TxOutput,
};

fn p2pkh(hash: &[u8]) -> Script {
    let mut code = vec![0x76, 0xa9, 20];
    code.extend_from_slice(hash);
    code.extend([0x88, 0xac]);
    Script { code }
}

fn p2sh(hash: &[u8]) -> Script {
    let mut code = vec![0xa9, 20];
    code.extend_from_slice(hash);
    code.push(0x87);
    Script { code }
}

fn tx(size: usize, scripts: Vec<Script>) -> Tx {
    Tx {
        txid: [0u8; 32],
        n_version: 1,
        n_lock_time: 0,
        vin: vec![],
        vout: scripts.into_iter().map(|script| TxOutput { value: 1, script }).collect(),
        size,
    }
}

fn entry(file_num: i32, data_pos: u32, tx_pos: usize, out_idx: u32) -> AddressEntry {
    AddressEntry { file_pos: BlockIndexFilePos { file_num, data_pos }, tx_pos, out_idx }
}

#[test]
fn key_new_then_make_slice_lays_out_the_key() {
    let mut key = Key::new(BlockIndexFilePos { file_num: 3, data_pos: 0x1234 });
    assert_eq!(key.tx_pos_idx, 4);
    assert_eq!(&key.data[..4], &[3, 0xfd, 0x34, 0x12]);
    let hash = [0x11u8; 20];
    let script = p2sh(&hash);
    assert!(key.set_script_kind(&script.kind()));
    let bytes = key.make_slice(0x1_0000, 2);
    let mut expected = vec![1u8];
    expected.extend([0x11u8; 20]);
    expected.extend([3, 0xfd, 0x34, 0x12, 0xfe, 0x00, 0x00, 0x01, 0x00, 0x02]);
    assert_eq!(bytes, expected);
    let other = Script { code: vec![0x6a] };
    assert!(!key.set_script_kind(&other.kind()));
    assert!(matches!(other.kind(), ScriptKind::DATA(_)));
    assert_eq!(key.kind, 1);
}

#[test]
fn key_decodes_back_to_its_entry() {
    let mut key = Key::new(BlockIndexFilePos { file_num: -1, data_pos: u32::MAX });
    let script = p2pkh(&[0x22u8; 20]);
    assert!(key.set_script_kind(&script.kind()));
    let bytes = key.make_slice(81, 0);
    assert_eq!(AddressEntry::from_key_slice(&bytes), entry(-1, u32::MAX, 81, 0));
    assert_eq!(&bytes[..21], address_search_prefix(0, &[0x22u8; 20]).as_slice());
}

#[test]
fn try_from_key_slice_rejects_short_keys() {
    assert_eq!(AddressEntry::try_from_key_slice(&[0u8; 20]), None);
    assert_eq!(AddressEntry::try_from_key_slice(&[0u8; 24]), None);
    let mut ok = vec![0u8; 21];
    ok.extend([1, 2, 3, 4]);
    assert_eq!(AddressEntry::try_from_key_slice(&ok), Some(entry(1, 2, 3, 4)));
    let mut truncated = vec![0u8; 21];
    truncated.extend([1, 2, 3, 0xfd, 0x01]);
    assert_eq!(AddressEntry::try_from_key_slice(&truncated), None);
}

#[test]
fn block_connected_keys_index_p2pkh_and_p2sh_outputs() {
    let a = [0xaau8; 20];
    let b = [0xbbu8; 20];
    let block = Block {
        vtx: vec![
            tx(100, vec![p2pkh(&a), Script { code: vec![0x6a, 1] }]),
            tx(250, vec![Script { code: vec![0x51] }, p2sh(&b), p2pkh(&a)]),
        ],
    };
    let index = BlockIndex { n_file: 7, n_data_pos: 0x200, pprev: None };
    assert!(block_is_indexable(&block, &index));
    let keys = block_connected_keys(&block, &index);
    assert_eq!(keys.len(), 3);
    let pos = [7u8, 0xfd, 0x00, 0x02];
    let mut k0 = vec![0u8];
    k0.extend(a);
    k0.extend(pos);
    k0.extend([1, 0]);
    assert_eq!(keys[0], k0);
    let mut k1 = vec![1u8];
    k1.extend(b);
    k1.extend(pos);
    k1.extend([101, 1]);
    assert_eq!(keys[1], k1);
    let mut k2 = vec![0u8];
    k2.extend(a);
    k2.extend(pos);
    k2.extend([101, 2]);
    assert_eq!(keys[2], k2);
    let entries = entries_from_keys(&vec![keys[0].clone(), keys[2].clone()]);
    assert_eq!(entries, vec![entry(7, 0x200, 1, 0), entry(7, 0x200, 101, 2)]);
}

#[test]
fn block_connected_keys_counts_the_tx_count_prefix() {
    let txs: Vec<Tx> = (0..253).map(|_| tx(10, vec![])).collect();
    let mut txs = txs;
    txs.push(tx(10, vec![p2pkh(&[1u8; 20])]));
    let block = Block { vtx: txs };
    let index = BlockIndex { n_file: 0, n_data_pos: 0, pprev: None };
    let keys = block_connected_keys(&block, &index);
    assert_eq!(keys.len(), 1);
    let e = AddressEntry::from_key_slice(&keys[0]);
    assert_eq!(e, entry(0, 0, 3 + 253 * 10, 0));
}

#[test]
fn block_is_indexable_rejects_a_hash_of_the_wrong_length() {
    let block = Block { vtx: vec![tx(100, vec![p2pkh(&[1u8; 19])])] };
    let index = BlockIndex { n_file: 0, n_data_pos: 0, pprev: None };
    assert!(!block_is_indexable(&block, &index));
    let block = Block { vtx: vec![tx(100, vec![p2sh(&[1u8; 21])])] };
    assert!(!block_is_indexable(&block, &index));
    let block = Block { vtx: vec![tx(100, vec![Script { code: vec![0x6a; 30] }])] };
    assert!(block_is_indexable(&block, &index));
}

#[test]
fn block_is_indexable_rejects_keys_that_do_not_fit() {
    let mut scripts: Vec<Script> = (0..253).map(|_| Script { code: vec![0x6a] }).collect();
    scripts.push(p2pkh(&[1u8; 20]));
    let block = Block { vtx: vec![tx(usize::MAX / 2, vec![]), tx(10, scripts)] };
    let index = BlockIndex { n_file: -1, n_data_pos: u32::MAX, pprev: None };
    assert!(!block_is_indexable(&block, &index));
    let block = Block { vtx: vec![tx(usize::MAX / 2, vec![]), tx(10, vec![p2pkh(&[1u8; 20])])] };
    assert!(block_is_indexable(&block, &index));
    let block = Block { vtx: vec![tx(usize::MAX, vec![]), tx(1, vec![])] };
    let index = BlockIndex { n_file: 0, n_data_pos: 0, pprev: None };
    assert!(!block_is_indexable(&block, &index));
}

#[test]
fn entries_from_keys_drops_neighbouring_duplicates() {
    let k = |tx_pos: u8, out: u8| {
        let mut v = vec![0u8; 21];
        v.extend([1, 2, tx_pos, out]);
        v
    };
    let keys = vec![k(5, 0), k(5, 0), k(6, 1), k(5, 0), k(5, 0), k(5, 0)];
    let entries = entries_from_keys(&keys);
    assert_eq!(entries, vec![entry(1, 2, 5, 0), entry(1, 2, 6, 1), entry(1, 2, 5, 0)]);
    assert!(entries_from_keys(&vec![]).is_empty());
}

#[test]
fn address_search_prefix_is_kind_then_hash() {
    assert_eq!(address_search_prefix(1, &[9, 8, 7]), vec![1, 9, 8, 7]);
}

#[test]
fn indexed_output_is_found_by_its_address() {
    let a = [0x5au8; 20];
    let block = Block {
        vtx: vec![tx(60, vec![Script { code: vec![0x51] }]), tx(90, vec![p2sh(&[1u8; 20]), p2pkh(&a)])],
    };
    let index = BlockIndex { n_file: 2, n_data_pos: 9, pprev: None };
    let keys = block_connected_keys(&block, &index);
    let prefix = address_search_prefix(0, &a);
    let scanned: Vec<Vec<u8>> = keys.iter().filter(|k| k.starts_with(&prefix)).cloned().collect();
    assert_eq!(entries_from_keys(&scanned), vec![entry(2, 9, 61, 1)]);
}

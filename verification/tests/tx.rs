use abcd::{read_raw_tx, sha256d, CodecError};

fn hex(s: &str) -> Vec<u8> {
    (0..s.len()).step_by(2).map(|i| u8::from_str_radix(&s[i..i + 2], 16).unwrap()).collect()
}

const GENESIS_COINBASE: &str = "01000000010000000000000000000000000000000000000000000000000000000000000000ffffffff4d04ffff001d0104455468652054696d65732030332f4a616e2f32303039204368616e63656c6c6f72206f6e206272696e6b206f66207365636f6e64206261696c6f757420666f722062616e6b73ffffffff0100f2052a01000000434104678afdb0fe5548271967f1a67130b7105cd6a828e03909a67962e0ea1f61deb649f6bc3f4cef38c4f35504e51ec112de5c384df7ba0b8d578a4c702b6bf11d5fac00000000";

/// One input with a 2-byte script, one output with a 3-byte script.
fn small_tx() -> Vec<u8> {
    let mut t = vec![0x02, 0x00, 0x00, 0x00];
    t.push(1);
    t.extend((0..36).map(|i| i as u8));
    t.push(2);
    t.extend([0xaa, 0xbb]);
    t.extend([0xff, 0xff, 0xff, 0xfe]);
    t.push(1);
    t.extend([0x10, 0x27, 0, 0, 0, 0, 0, 0]);
    t.push(3);
    t.extend([0x51, 0x52, 0x53]);
    t.extend([0x11, 0x22, 0x33, 0x44]);
    t
}

#[test]
fn read_raw_tx_copies_the_genesis_coinbase() {
    let tx = hex(GENESIS_COINBASE);
    let mut stream = tx.clone();
    stream.extend([0x01, 0x02, 0x03]);
    let raw = read_raw_tx(&stream).unwrap();
    assert_eq!(raw, tx);
    let mut txid = sha256d(&raw);
    txid.reverse();
    assert_eq!(txid, hex("4a5e1e4baab89f3a32518a88c31bc87f618f76673e2cc77ab2127b7afdeda33b"));
}

#[test]
fn read_raw_tx_copies_a_small_tx_and_stops_at_its_end() {
    let tx = small_tx();
    let mut stream = tx.clone();
    stream.extend([0xde, 0xad]);
    assert_eq!(read_raw_tx(&stream), Ok(tx));
}

#[test]
fn read_raw_tx_shortens_long_length_forms() {
    let mut stream = vec![0x02, 0x00, 0x00, 0x00];
    stream.extend([0xfd, 0x01, 0x00]);
    stream.extend((0..36).map(|i| i as u8));
    stream.extend([0xfe, 0x02, 0x00, 0x00, 0x00]);
    stream.extend([0xaa, 0xbb]);
    stream.extend([0xff, 0xff, 0xff, 0xfe]);
    stream.extend([0xff, 1, 0, 0, 0, 0, 0, 0, 0]);
    stream.extend([0x10, 0x27, 0, 0, 0, 0, 0, 0]);
    stream.extend([0xfd, 0x03, 0x00]);
    stream.extend([0x51, 0x52, 0x53]);
    stream.extend([0x11, 0x22, 0x33, 0x44]);
    let raw = read_raw_tx(&stream).unwrap();
    assert_eq!(raw, small_tx());
    assert_eq!(read_raw_tx(&raw), Ok(raw.clone()));
}

#[test]
fn read_raw_tx_with_no_inputs_or_outputs() {
    let stream = vec![1, 0, 0, 0, 0, 0, 9, 9, 9, 9];
    assert_eq!(read_raw_tx(&stream), Ok(stream.clone()));
}

#[test]
fn read_raw_tx_fails_on_every_truncation() {
    let tx = small_tx();
    for cut in 0..tx.len() {
        assert_eq!(read_raw_tx(&tx[..cut]), Err(CodecError::UnexpectedEof), "cut at {}", cut);
    }
}

#[test]
fn read_raw_tx_fails_on_a_huge_script_length() {
    let mut stream = vec![0x02, 0x00, 0x00, 0x00, 1];
    stream.extend([0u8; 36]);
    stream.extend([0xff, 0xff, 0xff, 0xff, 0xff, 0xff, 0xff, 0xff, 0x7f]);
    stream.extend([0u8; 64]);
    assert_eq!(read_raw_tx(&stream), Err(CodecError::UnexpectedEof));
}

#[test]
fn read_raw_tx_copy_of_copy_is_the_copy() {
    let tx = hex(GENESIS_COINBASE);
    let once = read_raw_tx(&tx).unwrap();
    let twice = read_raw_tx(&once).unwrap();
    assert_eq!(once, twice);
}

#[test]
fn read_raw_tx_at_each_stored_offset_of_a_block_body() {
    let first = hex(GENESIS_COINBASE);
    let second = small_tx();
    let mut body = vec![2u8];
    body.extend(&first);
    body.extend(&second);
    assert_eq!(read_raw_tx(&body[1..]), Ok(first.clone()));
    assert_eq!(read_raw_tx(&body[1 + first.len()..]), Ok(second));
}

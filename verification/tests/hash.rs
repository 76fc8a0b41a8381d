use abcd::sha256d;

fn hex(s: &str) -> Vec<u8> {
    (0..s.len()).step_by(2).map(|i| u8::from_str_radix(&s[i..i + 2], 16).unwrap()).collect()
}

#[test]
fn sha256d_of_empty_input() {
    assert_eq!(
        sha256d(&[]),
        hex("5df6e0e2761359d30a8275058e299fcc0381534545f55cf43e41983f5d4c9456")
    );
}

#[test]
fn sha256d_of_genesis_header_is_its_block_hash() {
    let header = hex("0100000000000000000000000000000000000000000000000000000000000000000000003ba3edfd7a7b12b27ac72c3e67768f617fc81bc3888a51323a9fb8aa4b1e5e4a29ab5f49ffff001d1dac2b7c");
    assert_eq!(header.len(), 80);
    let mut hash = sha256d(&header);
    hash.reverse();
    assert_eq!(hash, hex("000000000019d6689c085ae165831e934ff763ae46a2a6c172b3f1b60a8ce26f"));
}

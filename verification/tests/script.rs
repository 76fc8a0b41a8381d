use abcd::{Script, ScriptKind};

fn p2pkh(hash: &[u8]) -> Vec<u8> {
    let mut code = vec![0x76, 0xa9, 20];
    code.extend_from_slice(hash);
    code.extend([0x88, 0xac]);
    code
}

#[test]
fn script_kind_pay_to_public_key_hash() {
    let script = Script { code: p2pkh(&[7u8; 20]) };
    match script.kind() {
        ScriptKind::P2PKH(hash) => assert_eq!(hash, &[7u8; 20]),
        other => panic!("unexpected {:?}", other),
    }
}

#[test]
fn script_kind_p2pkh_template_with_other_hash_length() {
    let script = Script { code: p2pkh(&[1, 2, 3]) };
    match script.kind() {
        ScriptKind::P2PKH(hash) => assert_eq!(hash, &[1, 2, 3]),
        other => panic!("unexpected {:?}", other),
    }
    let script = Script { code: vec![0x76, 0xa9, 20, 0x88, 0xac] };
    match script.kind() {
        ScriptKind::P2PKH(hash) => assert!(hash.is_empty()),
        other => panic!("unexpected {:?}", other),
    }
}

#[test]
fn script_kind_pay_to_script_hash() {
    let mut code = vec![0xa9, 20];
    code.extend([9u8; 20]);
    code.push(0x87);
    let script = Script { code };
    match script.kind() {
        ScriptKind::P2SH(hash) => assert_eq!(hash, &[9u8; 20]),
        other => panic!("unexpected {:?}", other),
    }
}

#[test]
fn script_kind_data() {
    let script = Script { code: vec![0x6a, 0x04, 0xde, 0xad, 0xbe, 0xef] };
    match script.kind() {
        ScriptKind::DATA(payload) => assert_eq!(payload, &[0x04, 0xde, 0xad, 0xbe, 0xef]),
        other => panic!("unexpected {:?}", other),
    }
    let script = Script { code: vec![0x6a] };
    match script.kind() {
        ScriptKind::DATA(payload) => assert!(payload.is_empty()),
        other => panic!("unexpected {:?}", other),
    }
}

#[test]
fn script_kind_other() {
    for code in [vec![], vec![0x76, 0xa9, 20, 0x88], vec![0xa9, 20], vec![0x51], vec![0xa9, 20, 0x88]] {
        let script = Script { code };
        assert!(matches!(script.kind(), ScriptKind::Other));
    }
}

#[test]
fn script_bytecode_is_the_code() {
    let script = Script { code: vec![1, 2, 3] };
    assert_eq!(script.bytecode(), &[1, 2, 3]);
}

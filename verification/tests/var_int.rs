use abcd::{encode_var_int, read_var_int, var_int_len_from_prefix, var_int_size, write_var_int, CodecError};

#[test]
fn var_int_size_at_each_boundary() {
    assert_eq!(var_int_size(0), 1);
    assert_eq!(var_int_size(0xfc), 1);
    assert_eq!(var_int_size(0xfd), 3);
    assert_eq!(var_int_size(0xffff), 3);
    assert_eq!(var_int_size(0x1_0000), 5);
    assert_eq!(var_int_size(0xffff_ffff), 5);
    assert_eq!(var_int_size(0x1_0000_0000), 9);
    assert_eq!(var_int_size(u64::MAX), 9);
}

#[test]
fn encode_var_int_each_form() {
    assert_eq!(encode_var_int(0x05), vec![0x05]);
    assert_eq!(encode_var_int(0xfc), vec![0xfc]);
    assert_eq!(encode_var_int(0xfd), vec![0xfd, 0xfd, 0x00]);
    assert_eq!(encode_var_int(0x1234), vec![0xfd, 0x34, 0x12]);
    assert_eq!(encode_var_int(0x1234_5678), vec![0xfe, 0x78, 0x56, 0x34, 0x12]);
    assert_eq!(
        encode_var_int(0x0102_0304_0506_0708),
        vec![0xff, 0x08, 0x07, 0x06, 0x05, 0x04, 0x03, 0x02, 0x01]
    );
}

#[test]
fn read_var_int_each_form() {
    assert_eq!(read_var_int(&[0x05, 0xaa]), Ok((5, 1)));
    assert_eq!(read_var_int(&[0xfd, 0x34, 0x12, 0xaa]), Ok((0x1234, 3)));
    assert_eq!(read_var_int(&[0xfe, 0x78, 0x56, 0x34, 0x12]), Ok((0x1234_5678, 5)));
    assert_eq!(
        read_var_int(&[0xff, 0x08, 0x07, 0x06, 0x05, 0x04, 0x03, 0x02, 0x01]),
        Ok((0x0102_0304_0506_0708, 9))
    );
}

#[test]
fn read_var_int_accepts_longer_forms() {
    assert_eq!(read_var_int(&[0xfd, 0x01, 0x00]), Ok((1, 3)));
    assert_eq!(read_var_int(&[0xff, 0x01, 0, 0, 0, 0, 0, 0, 0]), Ok((1, 9)));
}

#[test]
fn read_var_int_fails_on_short_input() {
    assert_eq!(read_var_int(&[]), Err(CodecError::UnexpectedEof));
    assert_eq!(read_var_int(&[0xfd, 0x01]), Err(CodecError::UnexpectedEof));
    assert_eq!(read_var_int(&[0xfe, 0x01, 0x02, 0x03]), Err(CodecError::UnexpectedEof));
    assert_eq!(read_var_int(&[0xff, 1, 2, 3, 4, 5, 6, 7]), Err(CodecError::UnexpectedEof));
}

#[test]
fn var_int_len_from_prefix_each_tag() {
    assert_eq!(var_int_len_from_prefix(0x00), 1);
    assert_eq!(var_int_len_from_prefix(0xfc), 1);
    assert_eq!(var_int_len_from_prefix(0xfd), 3);
    assert_eq!(var_int_len_from_prefix(0xfe), 5);
    assert_eq!(var_int_len_from_prefix(0xff), 9);
}

#[test]
fn write_var_int_into_room() {
    let mut buf = [0xaau8; 6];
    assert_eq!(write_var_int(&mut buf, 0x1234), Ok(3));
    assert_eq!(buf, [0xfd, 0x34, 0x12, 0xaa, 0xaa, 0xaa]);
    let mut buf = [0u8; 1];
    assert_eq!(write_var_int(&mut buf, 0x7f), Ok(1));
    assert_eq!(buf, [0x7f]);
}

#[test]
fn write_var_int_without_room_writes_what_fits() {
    let mut buf = [0xaau8; 2];
    assert_eq!(write_var_int(&mut buf, 0x1234), Err(CodecError::WriteZero));
    assert_eq!(buf, [0xfd, 0x34]);
    let mut empty: [u8; 0] = [];
    assert_eq!(write_var_int(&mut empty, 1), Err(CodecError::WriteZero));
    let mut buf = [0u8; 8];
    assert_eq!(write_var_int(&mut buf, u64::MAX), Err(CodecError::WriteZero));
    assert_eq!(buf, [0xff; 8]);
}

#[test]
fn var_int_roundtrip_on_many_numbers() {
    let numbers = [
        0u64,
        1,
        0xfc,
        0xfd,
        0xfe,
        0xff,
        0x100,
        0xffff,
        0x1_0000,
        0xdead_beef,
        0xffff_ffff,
        0x1_0000_0000,
        u64::MAX - 1,
        u64::MAX,
    ];
    for &n in numbers.iter() {
        let mut buf = [0u8; 12];
        let written = write_var_int(&mut buf, n).unwrap();
        assert_eq!(written, var_int_size(n));
        assert_eq!(&buf[..written], encode_var_int(n).as_slice());
        assert_eq!(read_var_int(&buf), Ok((n, written)));
    }
}

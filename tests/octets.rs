use quiche::{Error, Octets};

#[test]
fn varint_round_trip() {
    for v in [0u64, 63, 64, 16383, 16384, 1_073_741_823, 1_073_741_824, (1 << 62) - 1] {
        let mut out = Octets::new(vec![0; 8]);
        out.put_varint(v).unwrap();
        let mut b = Octets::new(out.written());
        assert_eq!(b.get_varint(), Ok(v));
        assert_eq!(b.cap(), 0);
    }
}

#[test]
fn varint_widths() {
    let mut out = Octets::new(vec![0; 8]);
    out.put_varint(37).unwrap();
    assert_eq!(out.written(), vec![0x25]);
    let mut out = Octets::new(vec![0; 8]);
    out.put_varint(15293).unwrap();
    assert_eq!(out.written(), vec![0x7b, 0xbd]);
    let mut out = Octets::new(vec![0; 8]);
    out.put_varint(494_878_333).unwrap();
    assert_eq!(out.written(), vec![0x9d, 0x7f, 0x3e, 0x7d]);
    let mut out = Octets::new(vec![0; 1]);
    assert_eq!(out.put_varint(64), Err(Error::BufferTooShort));
}

#[test]
fn reads_and_short_buffers() {
    let mut b = Octets::new(vec![0x01, 0x02, 0x03, 0x04, 0x05, 0x06, 0x07]);
    assert_eq!(b.get_u8(), Ok(1));
    assert_eq!(b.get_u16(), Ok(0x0203));
    assert_eq!(b.peek_bytes(2), Ok(vec![4, 5]));
    assert_eq!(b.get_bytes(3), Ok(vec![4, 5, 6]));
    assert_eq!(b.get_u32(), Err(Error::BufferTooShort));
    assert_eq!(b.get_bytes(2), Err(Error::BufferTooShort));
    assert_eq!(b.get_u8(), Ok(7));
    assert_eq!(b.get_u8(), Err(Error::BufferTooShort));
    assert_eq!(b.off(), 7);
}

#[test]
fn bytes_with_varint_length() {
    let mut b = Octets::new(vec![0x03, 9, 8, 7, 6]);
    assert_eq!(b.get_bytes_with_varint_length(), Ok(vec![9, 8, 7]));
    assert_eq!(b.cap(), 1);
    let mut b = Octets::new(vec![0x05, 9, 8]);
    assert_eq!(b.get_bytes_with_varint_length(), Err(Error::BufferTooShort));
}

#[test]
fn writes_overwrite_in_place() {
    let mut b = Octets::new(vec![0xee; 6]);
    b.put_u8(1).unwrap();
    b.put_u32(0x0203_0405).unwrap();
    assert_eq!(b.buf(), &vec![1, 2, 3, 4, 5, 0xee]);
    assert_eq!(b.put_bytes(&[1, 2]), Err(Error::BufferTooShort));
    assert_eq!(b.off(), 5);
    let b = Octets::from_slice(&[1, 2]);
    assert_eq!(b.cap(), 2);
}

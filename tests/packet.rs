use quiche::packet::{
    decode_pkt_num, decrypt_pkt_num, encode_pkt_num, negotiate_version, pkt_num_bits, pkt_num_len,
    pn_sample, Header, Type, PROTOCOL_VERSION,
};
use quiche::{Error, Octets};

fn long_header(ty: Type, dcid: Vec<u8>, scid: Vec<u8>, token: Option<Vec<u8>>) -> Header {
    Header {
        ty,
        version: 0xff00_000f,
        flags: 0,
        dcid,
        scid,
        token,
        versions: None,
    }
}

fn written(hdr: &Header, r: u8) -> Vec<u8> {
    let mut out = Octets::new(vec![0; 128]);
    hdr.to_bytes(&mut out, r).unwrap();
    out.written()
}

#[test]
fn pkt_num_len_boundaries() {
    assert_eq!(pkt_num_len(0), Ok(1));
    assert_eq!(pkt_num_len(127), Ok(1));
    assert_eq!(pkt_num_len(128), Ok(2));
    assert_eq!(pkt_num_len(16383), Ok(2));
    assert_eq!(pkt_num_len(16384), Ok(4));
    assert_eq!(pkt_num_len(1_073_741_823), Ok(4));
    assert_eq!(pkt_num_len(1_073_741_824), Err(Error::InvalidPacket));
}

#[test]
fn pkt_num_bits_widths() {
    assert_eq!(pkt_num_bits(1), Ok(7));
    assert_eq!(pkt_num_bits(2), Ok(14));
    assert_eq!(pkt_num_bits(4), Ok(30));
    assert_eq!(pkt_num_bits(3), Err(Error::InvalidPacket));
    assert_eq!(pkt_num_bits(0), Err(Error::InvalidPacket));
}

#[test]
fn decode_near_half_window_from_zero() {
    assert_eq!(decode_pkt_num(0, 63, 1), Ok(63));
    assert_eq!(decode_pkt_num(0, 64, 1), Ok(64));
    assert_eq!(decode_pkt_num(0, 65, 1), Ok(65));
    assert_eq!(decode_pkt_num(0, 66, 1), Ok(66));
    assert_eq!(decode_pkt_num(0, 0, 1), Ok(0));
}

#[test]
fn decode_recovers_truncated_numbers() {
    for largest in [0u64, 5, 127, 1000, 20_000, 300_000] {
        for pn in [largest.saturating_sub(40), largest, largest + 1, largest + 60] {
            let len = pkt_num_len(pn).unwrap();
            let win = 1u64 << pkt_num_bits(len).unwrap();
            assert_eq!(decode_pkt_num(largest, pn % win, len), Ok(pn));
        }
    }
    assert_eq!(decode_pkt_num(1000, 1001 % 128, 1), Ok(1001));
}

#[test]
fn decode_wraps_across_window() {
    // expected 1000, window 128: 1000 = 7 * 128 + 104; truncated 10 is nearer 1034.
    assert_eq!(decode_pkt_num(999, 10, 1), Ok(1034));
    // truncated 120 is nearer 1016 than 1144.
    assert_eq!(decode_pkt_num(999, 120, 1), Ok(1016));
    // expected 1024: truncated 127 stands for 1023.
    assert_eq!(decode_pkt_num(1023, 127, 1), Ok(1023));
    assert_eq!(decode_pkt_num(1023, 0, 3), Err(Error::InvalidPacket));
}

#[test]
fn encode_pkt_num_marks_width() {
    let mut b = Octets::new(vec![0; 8]);
    encode_pkt_num(5, &mut b).unwrap();
    encode_pkt_num(200, &mut b).unwrap();
    assert_eq!(b.written(), vec![0x05, 0x80, 0xc8]);

    let mut b = Octets::new(vec![0; 8]);
    encode_pkt_num(20_000, &mut b).unwrap();
    assert_eq!(b.written(), vec![0xc0, 0x00, 0x4e, 0x20]);

    let mut b = Octets::new(vec![0; 8]);
    assert_eq!(encode_pkt_num(1 << 30, &mut b), Err(Error::InvalidPacket));
    assert_eq!(b.off(), 0);

    let mut b = Octets::new(vec![0; 1]);
    assert_eq!(encode_pkt_num(200, &mut b), Err(Error::BufferTooShort));
}

#[test]
fn long_header_round_trip_initial() {
    let hdr = long_header(
        Type::Initial,
        vec![1, 2, 3, 4, 5, 6, 7, 8],
        vec![9, 10, 11, 12],
        Some(vec![0xaa, 0xbb, 0xcc]),
    );
    let mut buf = written(&hdr, 0);
    assert_eq!(buf[0], 0xff);
    assert_eq!(&buf[1..5], &[0xff, 0x00, 0x00, 0x0f]);
    assert_eq!(buf[5], 0x51);
    let h = Header::from_slice(&mut buf, 0).unwrap();
    assert_eq!(h.ty, Type::Initial);
    assert_eq!(h.version, 0xff00_000f);
    assert_eq!(h.dcid, vec![1, 2, 3, 4, 5, 6, 7, 8]);
    assert_eq!(h.scid, vec![9, 10, 11, 12]);
    assert_eq!(h.token, Some(vec![0xaa, 0xbb, 0xcc]));
    assert_eq!(h.flags, 0x80);
}

#[test]
fn long_header_round_trip_without_token() {
    let hdr = long_header(Type::Initial, vec![], vec![7; 18], None);
    let buf = written(&hdr, 0);
    let mut b = Octets::new(buf.clone());
    let h = Header::from_bytes(&mut b, 0).unwrap();
    assert_eq!(h.token, Some(vec![]));
    assert_eq!(h.dcid, Vec::<u8>::new());
    assert_eq!(h.scid, vec![7; 18]);
    assert_eq!(b.off(), buf.len());

    for ty in [Type::Handshake, Type::ZeroRTT] {
        let hdr = long_header(ty, vec![3; 4], vec![4; 5], None);
        let mut buf = written(&hdr, 0);
        let h = Header::from_slice(&mut buf, 0).unwrap();
        assert_eq!(h.ty, ty);
        assert_eq!(h.dcid, vec![3; 4]);
        assert_eq!(h.scid, vec![4; 5]);
        assert_eq!(h.token, None);
        assert_eq!(h.versions, None);
    }
}

#[test]
fn short_header_round_trip() {
    let hdr = Header {
        ty: Type::Application,
        version: 0,
        flags: 0,
        dcid: vec![5, 6, 7, 8, 9],
        scid: vec![],
        token: None,
        versions: None,
    };
    for r in [0x00u8, 0xff, 0x5a, 0xa5] {
        let mut buf = written(&hdr, r);
        assert_eq!(buf.len(), 6);
        assert_eq!(buf[0] & 0xc8, 0);
        assert_eq!(buf[0] & 0x30, 0x30);
        assert_eq!(buf[0] & 0x07, r & 0x07);
        let h = Header::from_slice(&mut buf, 5).unwrap();
        assert_eq!(h.ty, Type::Application);
        assert_eq!(h.dcid, vec![5, 6, 7, 8, 9]);
        assert_eq!(h.version, 0);
        assert!(h.scid.is_empty());
    }
}

#[test]
fn short_header_too_short() {
    let mut buf = vec![0x30, 1, 2];
    assert_eq!(Header::from_slice(&mut buf, 4).err(), Some(Error::BufferTooShort));
    let mut empty: Vec<u8> = vec![];
    assert_eq!(Header::from_slice(&mut empty, 0).err(), Some(Error::BufferTooShort));
}

#[test]
fn version_negotiation_parse() {
    let mut buf = vec![0x80, 0, 0, 0, 0, 0x10, 1, 2, 3, 4, 0xff, 0, 0, 0x0f, 0, 0, 0, 1];
    let h = Header::from_slice(&mut buf, 0).unwrap();
    assert_eq!(h.ty, Type::VersionNegotiation);
    assert_eq!(h.dcid, vec![1, 2, 3, 4]);
    assert!(h.scid.is_empty());
    assert_eq!(h.versions, Some(vec![0xff00_000f, 1]));

    let mut buf = vec![0x80, 0, 0, 0, 0, 0x00, 0, 0, 0, 1, 2, 3];
    assert_eq!(Header::from_slice(&mut buf, 0).err(), Some(Error::BufferTooShort));
}

#[test]
fn long_header_bad_type() {
    let mut buf = vec![0x80 | 0x10, 0, 0, 0, 1, 0x00];
    assert_eq!(Header::from_slice(&mut buf, 0).err(), Some(Error::InvalidPacket));
}

#[test]
fn retry_is_unsupported() {
    let mut buf = vec![0xfe, 0, 0, 0, 1, 0x00, 0, 0];
    assert_eq!(Header::from_slice(&mut buf, 0).err(), Some(Error::Unsupported));
}

#[test]
fn cid_lengths_capped() {
    // Both nibbles at their largest announce 18-byte connection IDs.
    let mut buf = vec![0xfd, 0, 0, 0, 1, 0xff];
    buf.extend(vec![1u8; 36]);
    let h = Header::from_slice(&mut buf, 0).unwrap();
    assert_eq!(h.dcid.len(), 18);
    assert_eq!(h.scid.len(), 18);

    let mut buf = vec![0xfd, 0, 0, 0, 1, 0xff, 1, 2, 3];
    assert_eq!(Header::from_slice(&mut buf, 0).err(), Some(Error::BufferTooShort));

    let mut buf = vec![0xfd, 0, 0, 0, 1];
    assert_eq!(Header::from_slice(&mut buf, 0).err(), Some(Error::BufferTooShort));
}

#[test]
fn to_bytes_rejects() {
    let mut out = Octets::new(vec![0; 64]);
    let vn = long_header(Type::VersionNegotiation, vec![], vec![], None);
    assert_eq!(vn.to_bytes(&mut out, 0), Err(Error::InvalidPacket));

    let bad = long_header(Type::Handshake, vec![1, 2], vec![], None);
    assert_eq!(bad.to_bytes(&mut out, 0), Err(Error::InvalidPacket));

    let long = long_header(Type::Handshake, vec![1; 19], vec![], None);
    assert_eq!(long.to_bytes(&mut out, 0), Err(Error::InvalidPacket));
    assert_eq!(out.off(), 0);

    let mut small = Octets::new(vec![0; 8]);
    let hdr = long_header(Type::Handshake, vec![1; 4], vec![], None);
    assert_eq!(hdr.to_bytes(&mut small, 0), Err(Error::BufferTooShort));
    assert_eq!(small.off(), 0);
}

fn protected(pn_bytes: &[u8], mask: &[u8]) -> Vec<u8> {
    let mut v: Vec<u8> = pn_bytes.iter().zip(mask).map(|(a, b)| a ^ b).collect();
    v.extend(vec![0x42u8; 20]);
    v
}

#[test]
fn decrypt_two_byte_number() {
    let mask = [0x11u8, 0x22, 0x33, 0x44, 0x55];
    let b = Octets::new(protected(&[0x81, 0x23], &mask));
    assert_eq!(decrypt_pkt_num(&b, 16, &mask), Ok((0x123, 2)));
    // The cursor does not move: a second call gives the same answer.
    assert_eq!(b.off(), 0);
    assert_eq!(decrypt_pkt_num(&b, 16, &mask), Ok((0x123, 2)));
}

#[test]
fn decrypt_one_and_four_byte_numbers() {
    let mask = [0xf0u8, 0x0f, 0xaa, 0x55];
    let b = Octets::new(protected(&[0x25], &mask));
    assert_eq!(decrypt_pkt_num(&b, 16, &mask), Ok((0x25, 1)));
    let b = Octets::new(protected(&[0xc1, 0x02, 0x03, 0x04], &mask));
    assert_eq!(decrypt_pkt_num(&b, 16, &mask), Ok((0x0102_0304, 4)));
}

#[test]
fn decrypt_too_short() {
    let mask = [0u8; 4];
    // A four-byte marker with room for only two packet-number bytes.
    let mut v = vec![0xc0, 0x00];
    v.extend(vec![0u8; 16]);
    let b = Octets::new(v);
    assert_eq!(decrypt_pkt_num(&b, 16, &mask), Err(Error::BufferTooShort));
    let b = Octets::new(vec![0u8; 16]);
    assert_eq!(decrypt_pkt_num(&b, 16, &mask), Err(Error::BufferTooShort));
}

#[test]
fn sample_follows_longest_number() {
    let v: Vec<u8> = (0u8..30).collect();
    let b = Octets::new(v);
    assert_eq!(pn_sample(&b, 16), Ok((4u8..20).collect::<Vec<u8>>()));
    let b = Octets::new((0u8..18).collect());
    assert_eq!(pn_sample(&b, 16), Ok((2u8..18).collect::<Vec<u8>>()));
    let b = Octets::new(vec![0u8; 16]);
    assert_eq!(pn_sample(&b, 16), Err(Error::BufferTooShort));
}

#[test]
fn negotiate_version_swaps_ids() {
    let hdr = long_header(Type::Initial, vec![1, 2, 3, 4], vec![5, 6, 7, 8, 9], None);
    let mut out = Octets::new(vec![0; 64]);
    let n = negotiate_version(&hdr, 0x12, &mut out).unwrap();
    assert_eq!(n, 19);
    assert_eq!(
        out.written(),
        vec![0x92, 0, 0, 0, 0, 0x21, 5, 6, 7, 8, 9, 1, 2, 3, 4, 0xff, 0x00, 0x00, 0x0f]
    );
    assert_eq!(PROTOCOL_VERSION, 0xff00_000f);

    let mut buf = out.written();
    let h = Header::from_slice(&mut buf, 0).unwrap();
    assert_eq!(h.ty, Type::VersionNegotiation);
    assert_eq!(h.dcid, vec![5, 6, 7, 8, 9]);
    assert_eq!(h.scid, vec![1, 2, 3, 4]);
    assert_eq!(h.versions, Some(vec![0xff00_000f]));

    let mut small = Octets::new(vec![0; 10]);
    assert_eq!(negotiate_version(&hdr, 0, &mut small), Err(Error::BufferTooShort));
}

#[test]
fn is_long_form_bit() {
    assert!(Header::is_long(0x80));
    assert!(Header::is_long(0xff));
    assert!(!Header::is_long(0x7f));
    assert!(!Header::is_long(0x00));
}

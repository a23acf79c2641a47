use quiche::packet::Type;
use quiche::space::{Aead, Algorithm, Level, PktNumSpace};

#[test]
fn fresh_space_is_not_ready() {
    let mut s = PktNumSpace::new(Type::Initial, Level::Initial);
    assert!(!s.ready());
    s.do_ack = true;
    assert!(s.ready());
}

#[test]
fn clear_removes_lost_packets_trigger() {
    let mut s = PktNumSpace::new(Type::Handshake, Level::Handshake);
    s.flight.lost.push(3);
    assert!(s.ready());
    s.clear();
    assert!(!s.ready());

    s.crypto_stream.send.extend_from_slice(&[1, 2, 3]);
    assert!(s.ready());
    s.clear();
    assert!(!s.ready());
}

#[test]
fn clear_keeps_numbering() {
    let mut s = PktNumSpace::new(Type::Application, Level::Application);
    s.next_pkt_num = 42;
    s.largest_rx_pkt_num = 17;
    s.flight.sent.extend_from_slice(&[40, 41]);
    s.flight.lost.push(39);
    s.crypto_stream.recv.push(7);
    s.crypto_seal = Some(Aead::new(Algorithm::AES128_GCM));
    s.clear();
    assert_eq!(s.next_pkt_num, 42);
    assert_eq!(s.largest_rx_pkt_num, 17);
    assert!(s.flight.sent.is_empty());
    assert!(s.flight.lost.is_empty());
    assert!(s.crypto_stream.send.is_empty());
    assert!(s.crypto_stream.recv.is_empty());
    assert_eq!(s.overhead(), 16);
}

#[test]
fn cipher_before_and_after_keys() {
    let mut s = PktNumSpace::new(Type::Initial, Level::Initial);
    assert_eq!(s.cipher(), Algorithm::Null);
    s.crypto_open = Some(Aead::new(Algorithm::ChaCha20_Poly1305));
    assert_eq!(s.cipher(), Algorithm::ChaCha20_Poly1305);
    assert_eq!(s.pkt_type, Type::Initial);
    assert_eq!(s.crypto_level, Level::Initial);
    assert_eq!(Algorithm::Null.tag_len(), 0);
}

use vstd::prelude::*;

use crate::packet::Type;

verus! {

/// The encryption level that a packet-number space belongs to.
#[derive(Clone, Copy, Debug, PartialEq, Eq, Structural)]
pub enum Level {
    Initial,
    ZeroRTT,
    Handshake,
    Application,
}

/// An AEAD algorithm; `Null` stands for no protection.
#[allow(non_camel_case_types)]
#[derive(Clone, Copy, Debug, PartialEq, Eq, Structural)]
pub enum Algorithm {
    Null,
    AES128_GCM,
    AES256_GCM,
    ChaCha20_Poly1305,
}

/// The length of the authentication tag that `alg` appends.
pub open spec fn tag_len_spec(alg: Algorithm) -> nat {
    match alg {
        Algorithm::Null => 0,
        _ => 16,
    }
}

impl Algorithm {
    /// The length of the authentication tag that this algorithm appends.
    pub fn tag_len(&self) -> (r: usize)
        ensures
            r == tag_len_spec(*self),
    {
        match self {
            Algorithm::Null => 0,
            _ => 16,
        }
    }
}

/// An installed packet-protection key: what this layer knows of it is its
/// algorithm.
pub struct Aead {
    pub alg: Algorithm,
}

impl Aead {
    pub fn new(alg: Algorithm) -> (r: Aead)
        ensures
            r.alg == alg,
    {
        Aead { alg }
    }

    pub fn alg(&self) -> (r: Algorithm)
        ensures
            r == self.alg,
    {
        self.alg
    }
}

/// The packets sent in a space and not yet acknowledged, and those declared
/// lost and waiting to be sent again.
pub struct InFlight {
    pub sent: Vec<u64>,
    pub lost: Vec<u64>,
}

impl InFlight {
    pub fn new() -> (r: InFlight)
        ensures
            r.sent@.len() == 0,
            r.lost@.len() == 0,
    {
        InFlight { sent: Vec::new(), lost: Vec::new() }
    }
}

/// The handshake data of one encryption level: bytes waiting to be sent and
/// bytes received.
pub struct CryptoStream {
    pub send: Vec<u8>,
    pub recv: Vec<u8>,
}

impl CryptoStream {
    pub fn new() -> (r: CryptoStream)
        ensures
            r.send@.len() == 0,
            r.recv@.len() == 0,
    {
        CryptoStream { send: Vec::new(), recv: Vec::new() }
    }

    /// Whether data waits to be sent.
    pub fn writable(&self) -> (r: bool)
        ensures
            r == (self.send@.len() > 0),
    {
        self.send.len() > 0
    }
}

/// The packet numbering, keys, in-flight packets and handshake stream of one
/// encryption level.
pub struct PktNumSpace {
    pub pkt_type: Type,
    pub largest_rx_pkt_num: u64,
    pub next_pkt_num: u64,
    pub recv_pkt_num: Vec<u64>,
    pub flight: InFlight,
    pub do_ack: bool,
    pub crypto_level: Level,
    pub crypto_open: Option<Aead>,
    pub crypto_seal: Option<Aead>,
    pub crypto_stream: CryptoStream,
}

/// Whether space `s` has something to send: handshake data, a lost packet, or
/// an acknowledgement.
pub open spec fn ready_spec(s: &PktNumSpace) -> bool {
    s.crypto_stream.send@.len() > 0 || s.flight.lost@.len() > 0 || s.do_ack
}

impl PktNumSpace {
    /// A space with no keys, nothing received, sent or pending.
    pub fn new(ty: Type, crypto_level: Level) -> (r: PktNumSpace)
        ensures
            r.pkt_type == ty,
            r.crypto_level == crypto_level,
            r.largest_rx_pkt_num == 0,
            r.next_pkt_num == 0,
            r.recv_pkt_num@.len() == 0,
            r.flight.sent@.len() == 0,
            r.flight.lost@.len() == 0,
            !r.do_ack,
            r.crypto_open is None,
            r.crypto_seal is None,
            r.crypto_stream.send@.len() == 0,
            r.crypto_stream.recv@.len() == 0,
    {
        PktNumSpace {
            pkt_type: ty,
            largest_rx_pkt_num: 0,
            next_pkt_num: 0,
            recv_pkt_num: Vec::new(),
            flight: InFlight::new(),
            do_ack: false,
            crypto_level,
            crypto_open: None,
            crypto_seal: None,
            crypto_stream: CryptoStream::new(),
        }
    }

    /// Drops the in-flight packets and the handshake stream; numbering and
    /// keys stay.
    pub fn clear(&mut self)
        ensures
            final(self).flight.sent@.len() == 0,
            final(self).flight.lost@.len() == 0,
            final(self).crypto_stream.send@.len() == 0,
            final(self).crypto_stream.recv@.len() == 0,
            final(self).pkt_type == old(self).pkt_type,
            final(self).largest_rx_pkt_num == old(self).largest_rx_pkt_num,
            final(self).next_pkt_num == old(self).next_pkt_num,
            final(self).recv_pkt_num == old(self).recv_pkt_num,
            final(self).do_ack == old(self).do_ack,
            final(self).crypto_level == old(self).crypto_level,
            final(self).crypto_open == old(self).crypto_open,
            final(self).crypto_seal == old(self).crypto_seal,
    {
        self.flight = InFlight::new();
        self.crypto_stream = CryptoStream::new();
    }

    /// The algorithm of the opening key, `Null` before one is installed.
    pub fn cipher(&self) -> (r: Algorithm)
        ensures
            r == match self.crypto_open {
                Some(a) => a.alg,
                None => Algorithm::Null,
            },
    {
        match &self.crypto_open {
            Some(v) => v.alg(),
            None => Algorithm::Null,
        }
    }

    /// The tag length that the sealing key adds to each packet.
    pub fn overhead(&self) -> (r: usize)
        requires
            self.crypto_seal is Some,
        ensures
            r == tag_len_spec(self.crypto_seal.unwrap().alg),
    {
        match &self.crypto_seal {
            Some(s) => s.alg().tag_len(),
            None => 0,
        }
    }

    /// Whether this space needs a packet sent.
    pub fn ready(&self) -> (r: bool)
        ensures
            r == ready_spec(self),
    {
        self.crypto_stream.writable() || self.flight.lost.len() > 0 || self.do_ack
    }
}

} // verus!

use vstd::prelude::*;

use crate::error::Error;
use crate::octets::{
    be_bytes, be_value, lemma_be_bytes_first, lemma_be_bytes_len, lemma_be_round_trip,
    lemma_be_value_bound, lemma_be_value_split, lemma_pow256_values, lemma_varint_round_trip,
    overwrite, pow256, to_be, varint_bytes, varint_len, varint_parse, Octets,
};

verus! {

broadcast use Octets::lemma_pos_bound;

/// Set in the first octet of a long header, clear in a short one.
pub const FORM_BIT: u8 = 0x80;

/// The key-phase bit of a short header; key update is not supported, so it
/// is always sent clear.
pub const KEY_PHASE_BIT: u8 = 0x40;

/// A bit of a short header's first octet that is always sent clear, so that
/// the packet is not mistaken for another protocol's.
pub const DEMUX_BIT: u8 = 0x08;

/// The bits of a long header's first octet that carry its type.
pub const TYPE_MASK: u8 = 0x7f;

/// The longest connection ID that a long header can carry.
pub const MAX_CID_LEN: usize = 18;

/// The protocol version that this endpoint offers in version negotiation.
pub const PROTOCOL_VERSION: u32 = 0xff00_000f;

/// The kind of a packet. All but `Application` use the long header form.
#[derive(Clone, Copy, Debug, PartialEq, Eq, Structural)]
pub enum Type {
    Initial,
    Retry,
    Handshake,
    ZeroRTT,
    VersionNegotiation,
    Application,
}

/// The seven-bit code of a long-header type on the wire.
pub open spec fn type_code(ty: Type) -> Option<u8> {
    match ty {
        Type::Initial => Some(0x7fu8),
        Type::Retry => Some(0x7eu8),
        Type::Handshake => Some(0x7du8),
        Type::ZeroRTT => Some(0x7cu8),
        _ => None,
    }
}

/// The long-header type that a seven-bit code names.
pub open spec fn type_of_code(c: u8) -> Option<Type> {
    if c == 0x7f {
        Some(Type::Initial)
    } else if c == 0x7e {
        Some(Type::Retry)
    } else if c == 0x7d {
        Some(Type::Handshake)
    } else if c == 0x7c {
        Some(Type::ZeroRTT)
    } else {
        None
    }
}

/// The framing fields of one packet.
#[derive(Clone, Debug)]
pub struct Header {
    pub ty: Type,
    pub version: u32,
    pub flags: u8,
    pub dcid: Vec<u8>,
    pub scid: Vec<u8>,
    pub token: Option<Vec<u8>>,
    pub versions: Option<Vec<u32>>,
}

/// The value of a `Header`, with byte strings as sequences.
pub struct HeaderView {
    pub ty: Type,
    pub version: u32,
    pub flags: u8,
    pub dcid: Seq<u8>,
    pub scid: Seq<u8>,
    pub token: Option<Seq<u8>>,
    pub versions: Option<Seq<u32>>,
}

impl View for Header {
    type V = HeaderView;

    open spec fn view(&self) -> HeaderView {
        HeaderView {
            ty: self.ty,
            version: self.version,
            flags: self.flags,
            dcid: self.dcid@,
            scid: self.scid@,
            token: match self.token {
                Some(t) => Some(t@),
                None => None,
            },
            versions: match self.versions {
                Some(v) => Some(v@),
                None => None,
            },
        }
    }
}

/// The length of a connection ID that a four-bit length field announces.
pub open spec fn cid_len_of_nibble(n: nat) -> nat {
    if n == 0 {
        0
    } else {
        n + 3
    }
}

/// A connection-ID length that the four-bit length field can carry.
pub open spec fn valid_cid_len(n: nat) -> bool {
    n == 0 || (4 <= n <= 18)
}

/// The four-bit length field for a connection ID of `n` bytes.
pub open spec fn cid_nibble(n: nat) -> nat {
    if n == 0 {
        0
    } else {
        (n - 3) as nat
    }
}

/// The 32-bit big-endian integers that fill `s`, four bytes each.
pub open spec fn u32_list(s: Seq<u8>) -> Seq<u32> {
    Seq::new(s.len() / 4, |i: int| be_value(s.subrange(4 * i, 4 * i + 4)) as u32)
}

/// The header at the start of `s`, with the number of bytes it takes, where a
/// short header's destination connection ID is `dcil` bytes long.
pub open spec fn parse_header(s: Seq<u8>, dcil: nat) -> Result<(HeaderView, nat), Error> {
    if s.len() < 1 {
        Err(Error::BufferTooShort)
    } else if s[0] < 0x80 {
        if s.len() < 1 + dcil {
            Err(Error::BufferTooShort)
        } else {
            Ok(
                (
                    HeaderView {
                        ty: Type::Application,
                        version: 0,
                        flags: 0,
                        dcid: s.subrange(1, 1 + dcil as int),
                        scid: Seq::empty(),
                        token: None,
                        versions: None,
                    },
                    1 + dcil,
                ),
            )
        }
    } else if s.len() < 5 {
        Err(Error::BufferTooShort)
    } else {
        let version = be_value(s.subrange(1, 5)) as u32;
        let ty = if version == 0 {
            Some(Type::VersionNegotiation)
        } else {
            type_of_code((s[0] - 0x80) as u8)
        };
        match ty {
            None => Err(Error::InvalidPacket),
            Some(ty) => if s.len() < 6 {
                Err(Error::BufferTooShort)
            } else {
                let dl = cid_len_of_nibble(s[5] as nat / 16) as int;
                let sl = cid_len_of_nibble(s[5] as nat % 16) as int;
                let p = 6 + dl + sl;
                if s.len() < p {
                    Err(Error::BufferTooShort)
                } else {
                    let h = HeaderView {
                        ty,
                        version,
                        flags: 0x80,
                        dcid: s.subrange(6, 6 + dl),
                        scid: s.subrange(6 + dl, p),
                        token: None,
                        versions: None,
                    };
                    match ty {
                        Type::Initial => match varint_parse(s.subrange(p, s.len() as int)) {
                            None => Err(Error::BufferTooShort),
                            Some((x, k)) => if s.len() < p + k + x {
                                Err(Error::BufferTooShort)
                            } else {
                                Ok(
                                    (
                                        HeaderView {
                                            token: Some(s.subrange(p + k as int, p + k + x as int)),
                                            ..h
                                        },
                                        (p + k + x) as nat,
                                    ),
                                )
                            },
                        },
                        Type::Retry => Err(Error::Unsupported),
                        Type::VersionNegotiation => if (s.len() - p) % 4 != 0 {
                            Err(Error::BufferTooShort)
                        } else {
                            Ok(
                                (
                                    HeaderView {
                                        versions: Some(u32_list(s.subrange(p, s.len() as int))),
                                        ..h
                                    },
                                    s.len(),
                                ),
                            )
                        },
                        _ => Ok((h, p as nat)),
                    }
                }
            },
        }
    }
}

/// Reads 32-bit versions until the cursor reaches the end of the buffer.
fn get_versions(b: &mut Octets) -> (r: Result<Vec<u32>, Error>)
    ensures
        final(b).bytes() == old(b).bytes(),
        match r {
            Ok(v) => old(b).rest().len() % 4 == 0 && v@ == u32_list(old(b).rest())
                && final(b).pos() == old(b).bytes().len(),
            Err(e) => old(b).rest().len() % 4 != 0 && e == Error::BufferTooShort,
        },
{
    let ghost s = old(b).rest();
    let ghost start = old(b).pos();
    let mut list: Vec<u32> = Vec::new();
    while b.cap() > 0
        invariant
            b.bytes() == old(b).bytes(),
            s == old(b).rest(),
            start == old(b).pos(),
            start + s.len() == b.bytes().len(),
            start <= b.pos() <= b.bytes().len(),
            b.pos() == start + 4 * list@.len(),
            forall|i: int|
                0 <= i < list@.len() ==> #[trigger] list@[i] == be_value(
                    s.subrange(4 * i, 4 * i + 4),
                ) as u32,
        decreases b.bytes().len() - b.pos(),
    {
        let ghost k = list@.len() as int;
        let ghost before = b.rest();
        assert(before =~= s.subrange(4 * k, s.len() as int));
        let v = b.get_u32();
        match v {
            Ok(v) => {
                assert(before.subrange(0, 4) =~= s.subrange(4 * k, 4 * k + 4));
                list.push(v);
            },
            Err(e) => {
                assert(s.len() == 4 * k + before.len());
                return Err(e);
            },
        }
    }
    proof {
        assert(s.len() == 4 * list@.len());
        assert(s.len() / 4 == list@.len());
        assert(list@ =~= u32_list(s));
    }
    Ok(list)
}

impl Header {
    /// Whether a first octet announces a long header.
    pub fn is_long(b: u8) -> (r: bool)
        ensures
            r == (b >= 0x80),
    {
        let r = b & FORM_BIT != 0;
        assert(r == (b >= 0x80)) by (bit_vector)
            requires
                r == (b & 0x80u8 != 0),
        ;
        r
    }

    /// Parses the header at the start of `buf`.
    pub fn from_slice(buf: &mut [u8], dcil: usize) -> (r: Result<Header, Error>)
        ensures
            final(buf)@ == old(buf)@,
            match r {
                Ok(h) => parse_header(old(buf)@, dcil as nat) matches Ok((v, _)) && v == h@,
                Err(e) => parse_header(old(buf)@, dcil as nat) == Err::<(HeaderView, nat), Error>(e),
            },
    {
        let mut b = Octets::from_slice(buf);
        assert(b.rest() =~= buf@);
        Header::from_bytes(&mut b, dcil)
    }

    /// Parses the header at the cursor and moves the cursor past it.
    #[verifier::rlimit(50)]
    pub fn from_bytes(b: &mut Octets, dcil: usize) -> (r: Result<Header, Error>)
        ensures
            final(b).bytes() == old(b).bytes(),
            match r {
                Ok(h) => parse_header(old(b).rest(), dcil as nat) == Ok::<(HeaderView, nat), Error>(
                    (h@, (final(b).pos() - old(b).pos()) as nat),
                ),
                Err(e) => parse_header(old(b).rest(), dcil as nat) == Err::<(HeaderView, nat), Error>(e),
            },
    {
        let ghost s = old(b).rest();
        let ghost start = old(b).pos();
        let first = b.get_u8()?;
        if !Header::is_long(first) {
            proof {
                assert(b.rest() =~= s.subrange(1, s.len() as int));
            }
            let dcid = b.get_bytes(dcil)?;
            proof {
                assert(dcid@ =~= s.subrange(1, 1 + dcil));
            }
            return Ok(
                Header {
                    ty: Type::Application,
                    flags: 0,
                    version: 0,
                    dcid,
                    scid: Vec::new(),
                    token: None,
                    versions: None,
                },
            );
        }
        proof {
            assert(b.rest() =~= s.subrange(1, s.len() as int));
        }
        let ghost r1 = b.rest();
        let version = b.get_u32()?;
        proof {
            assert(b.rest() =~= s.subrange(5, s.len() as int));
            assert(r1.subrange(0, 4) =~= s.subrange(1, 5));
            assert(s[0] == first);
        }
        let ty = if version == 0 {
            Type::VersionNegotiation
        } else {
            let code = first & TYPE_MASK;
            assert(code == first - 0x80) by (bit_vector)
                requires
                    code == first & 0x7f,
                    first >= 0x80,
            ;
            if code == 0x7f {
                Type::Initial
            } else if code == 0x7e {
                Type::Retry
            } else if code == 0x7d {
                Type::Handshake
            } else if code == 0x7c {
                Type::ZeroRTT
            } else {
                return Err(Error::InvalidPacket);
            }
        };
        let ghost r2 = b.rest();
        let cil = b.get_u8()?;
        proof {
            assert(b.rest() =~= s.subrange(6, s.len() as int));
            assert(r2[0] == s[5]);
        }
        let mut dl: usize = (cil >> 4) as usize;
        let mut sl: usize = (cil & 0xf) as usize;
        assert(dl == cil / 16 && sl == cil % 16) by (bit_vector)
            requires
                dl == (cil >> 4) as usize,
                sl == (cil & 0xf) as usize,
        ;
        if dl > 0 {
            dl = dl + 3;
        }
        if sl > 0 {
            sl = sl + 3;
        }
        if b.cap() < dl + sl {
            return Err(Error::BufferTooShort);
        }
        let ghost r3 = b.rest();
        let dcid = b.get_bytes(dl)?;
        let ghost r4 = b.rest();
        let scid = b.get_bytes(sl)?;
        let ghost p = 6 + dl + sl;
        proof {
            assert(r4 =~= s.subrange(6 + dl, s.len() as int));
            assert(dcid@ =~= s.subrange(6, 6 + dl));
            assert(scid@ =~= s.subrange(6 + dl, p));
            assert(b.rest() =~= s.subrange(p, s.len() as int));
        }
        let mut token: Option<Vec<u8>> = None;
        let mut versions: Option<Vec<u32>> = None;
        match ty {
            Type::Initial => {
                let ghost r5 = b.rest();
                let t = b.get_bytes_with_varint_length()?;
                proof {
                    let (x, k) = varint_parse(r5).unwrap();
                    assert(t@ =~= s.subrange(p + k, p + k + x));
                }
                token = Some(t);
            },
            Type::Retry => {
                return Err(Error::Unsupported);
            },
            Type::VersionNegotiation => {
                let list = get_versions(b)?;
                versions = Some(list);
            },
            _ => {},
        }
        Ok(Header { ty, flags: FORM_BIT, version, dcid, scid, token, versions })
    }
}

/// The first octet of a short header, built on the random byte `r`.
pub open spec fn short_first(r: u8) -> u8 {
    (r & 0x37) | 0x30
}

/// The token of an Initial header, absent meaning empty.
pub open spec fn token_of(h: HeaderView) -> Seq<u8> {
    match h.token {
        Some(t) => t,
        None => Seq::empty(),
    }
}

/// The length octet that carries both connection-ID lengths.
pub open spec fn cid_lengths_byte(hi: nat, lo: nat) -> u8 {
    (cid_nibble(hi) * 16 + cid_nibble(lo)) as u8
}

/// The long header `h` on the wire, with its type's code `code`.
pub open spec fn long_header_bytes(h: HeaderView, code: u8) -> Seq<u8> {
    seq![(0x80 + code) as u8] + be_bytes(h.version as nat, 4) + seq![
        cid_lengths_byte(h.dcid.len(), h.scid.len()),
    ] + h.dcid + h.scid + if h.ty == Type::Initial {
        varint_bytes(token_of(h).len()) + token_of(h)
    } else {
        Seq::empty()
    }
}

/// The header `h` on the wire, where a short header's first octet is built on
/// `r`; or the error for a header that cannot be sent.
pub open spec fn header_bytes(h: HeaderView, r: u8) -> Result<Seq<u8>, Error> {
    if h.ty == Type::Application {
        Ok(seq![short_first(r)] + h.dcid)
    } else {
        match type_code(h.ty) {
            None => Err(Error::InvalidPacket),
            Some(c) => if !valid_cid_len(h.dcid.len()) || !valid_cid_len(h.scid.len())
                || (h.ty == Type::Initial && token_of(h).len() >= 0x4000_0000_0000_0000) {
                Err(Error::InvalidPacket)
            } else {
                Ok(long_header_bytes(h, c))
            },
        }
    }
}

fn append(w: &mut Vec<u8>, d: &[u8])
    ensures
        final(w)@ == old(w)@ + d@,
{
    w.extend_from_slice(d);
    assert(w@ =~= old(w)@ + d@);
}

/// The shortest encoding of `v` as a variable-length integer.
fn varint_vec(v: u64) -> (r: Vec<u8>)
    requires
        v < 0x4000_0000_0000_0000,
    ensures
        r@ == varint_bytes(v as nat),
{
    if v < 0x40 {
        to_be(v, 1)
    } else if v < 0x4000 {
        to_be(v + 0x4000, 2)
    } else if v < 0x4000_0000 {
        to_be(v + 0x8000_0000, 4)
    } else {
        to_be(v + 0xc000_0000_0000_0000, 8)
    }
}

/// The length octet for two connection IDs, or `None` where a length cannot
/// be carried.
fn cid_lengths(hi: usize, lo: usize) -> (r: Option<u8>)
    ensures
        match r {
            Some(c) => valid_cid_len(hi as nat) && valid_cid_len(lo as nat) && c
                == cid_lengths_byte(hi as nat, lo as nat),
            None => !valid_cid_len(hi as nat) || !valid_cid_len(lo as nat),
        },
{
    if (hi != 0 && (hi < 4 || hi > MAX_CID_LEN)) || (lo != 0 && (lo < 4 || lo > MAX_CID_LEN)) {
        return None;
    }
    let a: u8 = if hi != 0 {
        (hi - 3) as u8
    } else {
        0
    };
    let b: u8 = if lo != 0 {
        (lo - 3) as u8
    } else {
        0
    };
    let cil: u8 = (a << 4) | (b & 0xf);
    assert((a << 4) | (b & 0xf) == a * 16 + b) by (bit_vector)
        requires
            a < 16,
            b < 16,
    ;
    Some(cil)
}

impl Header {
    /// Writes this header at the cursor. A short header's first octet keeps
    /// the low bits of the random byte `rand_byte`.
    pub fn to_bytes(&self, out: &mut Octets, rand_byte: u8) -> (r: Result<(), Error>)
        ensures
            match header_bytes(self@, rand_byte) {
                Err(e) => r == Err::<(), Error>(e) && final(out).bytes() == old(out).bytes()
                    && final(out).pos() == old(out).pos(),
                Ok(w) => if old(out).rest().len() >= w.len() {
                    r is Ok && final(out).bytes() == overwrite(
                        old(out).bytes(),
                        old(out).pos() as int,
                        w,
                    ) && final(out).pos() == old(out).pos() + w.len()
                } else {
                    r == Err::<(), Error>(Error::BufferTooShort) && final(out).bytes()
                        == old(out).bytes() && final(out).pos() == old(out).pos()
                },
            },
    {
        let mut w: Vec<u8> = Vec::new();
        if self.ty == Type::Application {
            let mut first = rand_byte;
            first = first & !FORM_BIT;
            first = first & !KEY_PHASE_BIT;
            first = first | 0x20;
            first = first | 0x10;
            first = first & !DEMUX_BIT;
            assert(first == (rand_byte & 0x37) | 0x30) by (bit_vector)
                requires
                    first == ((((rand_byte & !0x80u8) & !0x40u8) | 0x20u8) | 0x10u8) & !0x08u8,
            ;
            w.push(first);
            append(&mut w, self.dcid.as_slice());
            assert(w@ =~= seq![short_first(rand_byte)] + self.dcid@);
            return out.put_bytes(w.as_slice());
        }
        let code: u8 = match self.ty {
            Type::Initial => 0x7f,
            Type::Retry => 0x7e,
            Type::Handshake => 0x7d,
            Type::ZeroRTT => 0x7c,
            _ => {
                return Err(Error::InvalidPacket);
            },
        };
        let cil = match cid_lengths(self.dcid.len(), self.scid.len()) {
            Some(c) => c,
            None => {
                return Err(Error::InvalidPacket);
            },
        };
        let first = FORM_BIT | code;
        assert(first == 0x80 + code) by (bit_vector)
            requires
                first == 0x80u8 | code,
                code < 0x80,
        ;
        w.push(first);
        let v = to_be(self.version as u64, 4);
        append(&mut w, v.as_slice());
        w.push(cil);
        append(&mut w, self.dcid.as_slice());
        append(&mut w, self.scid.as_slice());
        let ghost head = w@;
        if self.ty == Type::Initial {
            let empty: Vec<u8> = Vec::new();
            let t = match &self.token {
                Some(t) => t,
                None => &empty,
            };
            assert(t@ == token_of(self@));
            if t.len() as u64 >= 0x4000_0000_0000_0000 {
                return Err(Error::InvalidPacket);
            }
            let len = varint_vec(t.len() as u64);
            append(&mut w, len.as_slice());
            append(&mut w, t.as_slice());
            assert(w@ =~= head + (varint_bytes(token_of(self@).len()) + token_of(self@)));
        } else {
            assert(w@ =~= head + Seq::<u8>::empty());
        }
        assert(w@ =~= long_header_bytes(self@, code));
        out.put_bytes(w.as_slice())
    }
}

/// The length of the shortest encoding of packet number `pn` (below 2^30).
pub open spec fn pn_len(pn: nat) -> nat {
    if pn < 128 {
        1
    } else if pn < 16384 {
        2
    } else {
        4
    }
}

/// The number of packet-number bits that an encoding of `len` bytes carries.
pub open spec fn pn_bits(len: nat) -> Option<nat> {
    if len == 1 {
        Some(7)
    } else if len == 2 {
        Some(14)
    } else if len == 4 {
        Some(30)
    } else {
        None
    }
}

/// The window of a truncated packet number of `len` bytes: two to the power
/// of its bits.
pub open spec fn pn_window(len: nat) -> nat {
    if len == 1 {
        0x80
    } else if len == 2 {
        0x4000
    } else {
        0x4000_0000
    }
}

/// The minimal encoding width of packet number `pn`.
pub fn pkt_num_len(pn: u64) -> (r: Result<usize, Error>)
    ensures
        match r {
            Ok(n) => pn < 0x4000_0000 && n == pn_len(pn as nat),
            Err(e) => pn >= 0x4000_0000 && e == Error::InvalidPacket,
        },
{
    let len: usize = if pn < 128 {
        1
    } else if pn < 16384 {
        2
    } else if pn < 1_073_741_824 {
        4
    } else {
        return Err(Error::InvalidPacket);
    };
    Ok(len)
}

/// The number of bits that a packet-number encoding of `len` bytes carries.
pub fn pkt_num_bits(len: usize) -> (r: Result<usize, Error>)
    ensures
        match r {
            Ok(b) => pn_bits(len as nat) == Some(b as nat),
            Err(e) => pn_bits(len as nat) is None && e == Error::InvalidPacket,
        },
{
    let bits: usize = if len == 1 {
        7
    } else if len == 2 {
        14
    } else if len == 4 {
        30
    } else {
        return Err(Error::InvalidPacket);
    };
    Ok(bits)
}

/// The full packet number that a truncated one stands for: of the numbers
/// that agree with `truncated` modulo the window `win`, the one nearest to the
/// number after `largest`.
pub open spec fn decode_spec(largest: nat, truncated: nat, win: nat) -> nat {
    let expected = largest + 1;
    let hwin = win / 2;
    let candidate = (expected - expected % win) + truncated;
    if candidate + hwin <= expected {
        (candidate + win) as nat
    } else if candidate > expected + hwin && candidate > win {
        (candidate - win) as nat
    } else {
        candidate as nat
    }
}

proof fn lemma_window_candidate(e: u64, t: u64, m: u64)
    requires
        m == 0x7f || m == 0x3fff || m == 0x3fff_ffff,
        t <= m,
    ensures
        (e & !m) | t == (e - e % ((m + 1) as u64)) + t,
{
    if m == 0x7f {
        assert((e & !0x7fu64) | t == (e - e % 0x80) + t) by (bit_vector)
            requires
                t <= 0x7f,
        ;
    } else if m == 0x3fff {
        assert((e & !0x3fffu64) | t == (e - e % 0x4000) + t) by (bit_vector)
            requires
                t <= 0x3fff,
        ;
    } else {
        assert((e & !0x3fff_ffffu64) | t == (e - e % 0x4000_0000) + t) by (bit_vector)
            requires
                t <= 0x3fff_ffff,
        ;
    }
}

/// Expands the truncated packet number `truncated_pn` of `pn_len` bytes,
/// given the largest packet number received so far.
pub fn decode_pkt_num(largest_pn: u64, truncated_pn: u64, pn_len: usize) -> (r: Result<
    u64,
    Error,
>)
    requires
        largest_pn < 0x4000_0000_0000_0000,
        pn_bits(pn_len as nat) is Some ==> truncated_pn < pn_window(pn_len as nat),
    ensures
        match r {
            Ok(v) => pn_bits(pn_len as nat) is Some && v as nat == decode_spec(
                largest_pn as nat,
                truncated_pn as nat,
                pn_window(pn_len as nat),
            ),
            Err(e) => pn_bits(pn_len as nat) is None && e == Error::InvalidPacket,
        },
{
    let pn_nbits = pkt_num_bits(pn_len)?;
    let expected_pn = largest_pn + 1;
    let pn_win: u64 = 1u64 << (pn_nbits as u64);
    assert(pn_win == pn_window(pn_len as nat)) by {
        assert(1u64 << 7u64 == 0x80) by (bit_vector);
        assert(1u64 << 14u64 == 0x4000) by (bit_vector);
        assert(1u64 << 30u64 == 0x4000_0000) by (bit_vector);
    }
    let pn_hwin = pn_win / 2;
    let pn_mask = pn_win - 1;
    let candidate_pn = (expected_pn & !pn_mask) | truncated_pn;
    proof {
        lemma_window_candidate(expected_pn, truncated_pn, pn_mask);
    }
    if candidate_pn + pn_hwin <= expected_pn {
        return Ok(candidate_pn + pn_win);
    }
    if candidate_pn > expected_pn + pn_hwin && candidate_pn > pn_win {
        return Ok(candidate_pn - pn_win);
    }
    Ok(candidate_pn)
}

/// The encoding of packet number `pn` (below 2^30): its minimal width, with
/// the top bits of the first byte marking that width.
pub open spec fn pn_encoding(pn: nat) -> Seq<u8> {
    if pn < 128 {
        be_bytes(pn, 1)
    } else if pn < 16384 {
        be_bytes(pn + 0x8000, 2)
    } else {
        be_bytes(pn + 0xc000_0000, 4)
    }
}

/// Writes packet number `pn` at the cursor at its minimal width, the first
/// byte's top bits marking the width.
pub fn encode_pkt_num(pn: u64, b: &mut Octets) -> (r: Result<(), Error>)
    ensures
        pn >= 0x4000_0000 ==> r == Err::<(), Error>(Error::InvalidPacket) && *final(b) == *old(b),
        pn < 0x4000_0000 ==> if old(b).rest().len() >= pn_len(pn as nat) {
            r is Ok && final(b).bytes() == overwrite(
                old(b).bytes(),
                old(b).pos() as int,
                pn_encoding(pn as nat),
            ) && final(b).pos() == old(b).pos() + pn_len(pn as nat)
        } else {
            r == Err::<(), Error>(Error::BufferTooShort) && final(b).bytes() == old(b).bytes()
                && final(b).pos() == old(b).pos()
        },
{
    let len = pkt_num_len(pn)?;
    if len == 1 {
        b.put_be(pn, 1)
    } else if len == 2 {
        b.put_be(pn + 0x8000, 2)
    } else {
        b.put_be(pn + 0xc000_0000, 4)
    }
}

/// The most packet-number bytes that can precede a sample of `sample_len`
/// bytes in `n` remaining bytes.
pub open spec fn pn_max_len(n: nat, sample_len: nat) -> nat {
    if n - sample_len < 4 {
        (n - sample_len) as nat
    } else {
        4
    }
}

/// The packet-number length that an unmasked first byte announces.
pub open spec fn pn_len_of_first(f: u8) -> nat {
    if f < 0x80 {
        1
    } else if f < 0xc0 {
        2
    } else {
        4
    }
}

/// The `len` unmasked packet-number bytes of `c`, with the length marker
/// cleared from the first.
pub open spec fn pn_plaintext(c: Seq<u8>, mask: Seq<u8>, len: nat) -> Seq<u8> {
    Seq::new(
        len,
        |i: int|
            if i == 0 && len > 1 {
                (c[0] ^ mask[0]) & 0x3f
            } else {
                c[i] ^ mask[i]
            },
    )
}

/// The truncated packet number at the start of `s` and its length, where the
/// header-protection mask is `mask` and the sample takes `sample_len` bytes.
pub open spec fn decrypt_spec(s: Seq<u8>, sample_len: nat, mask: Seq<u8>) -> Result<
    (nat, nat),
    Error,
> {
    if s.len() < sample_len + 1 {
        Err(Error::BufferTooShort)
    } else {
        let len = pn_len_of_first(s[0] ^ mask[0]);
        if len > pn_max_len(s.len(), sample_len) {
            Err(Error::BufferTooShort)
        } else {
            Ok((be_value(pn_plaintext(s, mask, len)), len))
        }
    }
}

/// The sample of `sample_len` bytes that the header-protection mask is drawn
/// from: it follows the longest packet number that fits before it.
pub fn pn_sample(b: &Octets, sample_len: usize) -> (r: Result<Vec<u8>, Error>)
    ensures
        match r {
            Ok(v) => b.rest().len() >= sample_len + 1 && v@ == b.rest().subrange(
                pn_max_len(b.rest().len(), sample_len as nat) as int,
                pn_max_len(b.rest().len(), sample_len as nat) + sample_len,
            ),
            Err(e) => b.rest().len() < sample_len + 1 && e == Error::BufferTooShort,
        },
{
    let cap = b.cap();
    if cap <= sample_len {
        return Err(Error::BufferTooShort);
    }
    let max_pn_len: usize = if cap - sample_len < 4 {
        cap - sample_len
    } else {
        4
    };
    let end = max_pn_len + sample_len;
    let all = b.peek_bytes(end)?;
    let mut v: Vec<u8> = Vec::new();
    let mut i: usize = max_pn_len;
    while i < end
        invariant
            end == max_pn_len + sample_len,
            all@.len() == end,
            max_pn_len <= i <= end,
            v@ == all@.subrange(max_pn_len as int, i as int),
        decreases end - i,
    {
        v.push(all[i]);
        i += 1;
        assert(v@ =~= all@.subrange(max_pn_len as int, i as int));
    }
    assert(v@ =~= b.rest().subrange(max_pn_len as int, max_pn_len + sample_len));
    Ok(v)
}

/// Removes header protection from the packet number at the cursor, given the
/// mask that the packet's cipher drew from the sample (see `pn_sample`), and
/// returns the truncated packet number with its length. The cursor stays
/// where it is.
pub fn decrypt_pkt_num(b: &Octets, sample_len: usize, mask: &[u8]) -> (r: Result<
    (u64, usize),
    Error,
>)
    requires
        mask@.len() >= 4,
    ensures
        match r {
            Ok((v, n)) => decrypt_spec(b.rest(), sample_len as nat, mask@) == Ok::<(nat, nat), Error>(
                (v as nat, n as nat),
            ),
            Err(e) => decrypt_spec(b.rest(), sample_len as nat, mask@) == Err::<(nat, nat), Error>(e),
        },
{
    let cap = b.cap();
    if cap <= sample_len {
        return Err(Error::BufferTooShort);
    }
    let max_pn_len: usize = if cap - sample_len < 4 {
        cap - sample_len
    } else {
        4
    };
    let ciphertext = b.peek_bytes(max_pn_len + sample_len)?;
    let first = ciphertext[0] ^ mask[0];
    let len: usize = if first >> 7 == 0 {
        1
    } else if first >> 6 == 2 {
        2
    } else {
        4
    };
    assert(len == pn_len_of_first(first)) by {
        assert((first >> 7 == 0) == (first < 0x80)) by (bit_vector);
        assert(first >= 0x80 ==> ((first >> 6 == 2) == (first < 0xc0))) by (bit_vector);
    }
    if len > max_pn_len {
        return Err(Error::BufferTooShort);
    }
    let mut plaintext: Vec<u8> = Vec::with_capacity(len);
    let mut i: usize = 0;
    while i < len
        invariant
            len <= max_pn_len <= 4,
            ciphertext@.len() >= max_pn_len,
            mask@.len() >= 4,
            i <= len,
            plaintext@.len() == i,
            forall|j: int| 0 <= j < i ==> #[trigger] plaintext@[j] == ciphertext@[j] ^ mask@[j],
        decreases len - i,
    {
        plaintext.push(ciphertext[i] ^ mask[i]);
        i += 1;
    }
    if len > 1 {
        plaintext[0] = plaintext[0] & 0x3f;
    }
    let ghost s = b.rest();
    assert(plaintext@ =~= pn_plaintext(s, mask@, len as nat)) by {
        assert forall|j: int| 0 <= j < len implies ciphertext@[j] == s[j] by {}
    }
    let mut pb = Octets::new(plaintext);
    assert(pb.rest() =~= pn_plaintext(s, mask@, len as nat));
    assert(pb.rest().subrange(0, len as int) =~= pb.rest());
    let ghost pr = pb.rest();
    let out: u64 = if len == 1 {
        match pb.get_u8() {
            Ok(v) => v as u64,
            Err(e) => {
                return Err(e);
            },
        }
    } else if len == 2 {
        match pb.get_u16() {
            Ok(v) => v as u64,
            Err(e) => {
                return Err(e);
            },
        }
    } else {
        match pb.get_u32() {
            Ok(v) => v as u64,
            Err(e) => {
                return Err(e);
            },
        }
    };
    proof {
        if len == 1 {
            reveal_with_fuel(be_value, 2);
            assert(pr.drop_last() =~= Seq::<u8>::empty());
        }
    }
    Ok((out, len))
}

/// A version-negotiation packet answering header `h`, its first octet built
/// on the random byte `r`: the connection IDs swap places.
pub open spec fn negotiation_bytes(h: HeaderView, r: u8) -> Seq<u8> {
    seq![r | 0x80] + be_bytes(0, 4) + seq![cid_lengths_byte(h.scid.len(), h.dcid.len())] + h.scid
        + h.dcid + be_bytes(PROTOCOL_VERSION as nat, 4)
}

/// Writes at the cursor a version-negotiation packet that answers the client
/// header `hdr`, and returns the number of bytes written.
pub fn negotiate_version(hdr: &Header, rand_byte: u8, out: &mut Octets) -> (r: Result<
    usize,
    Error,
>)
    ensures
        !valid_cid_len(hdr.scid@.len()) || !valid_cid_len(hdr.dcid@.len()) ==> r == Err::<
            usize,
            Error,
        >(Error::InvalidPacket) && *final(out) == *old(out),
        valid_cid_len(hdr.scid@.len()) && valid_cid_len(hdr.dcid@.len()) ==> {
            let w = negotiation_bytes(hdr@, rand_byte);
            if old(out).rest().len() >= w.len() {
                r == Ok::<usize, Error>(w.len() as usize) && final(out).bytes() == overwrite(
                    old(out).bytes(),
                    old(out).pos() as int,
                    w,
                ) && final(out).pos() == old(out).pos() + w.len()
            } else {
                r == Err::<usize, Error>(Error::BufferTooShort) && final(out).bytes()
                    == old(out).bytes() && final(out).pos() == old(out).pos()
            }
        },
{
    let cil = match cid_lengths(hdr.scid.len(), hdr.dcid.len()) {
        Some(c) => c,
        None => {
            return Err(Error::InvalidPacket);
        },
    };
    let mut w: Vec<u8> = Vec::new();
    w.push(rand_byte | FORM_BIT);
    let z = to_be(0, 4);
    append(&mut w, z.as_slice());
    w.push(cil);
    append(&mut w, hdr.scid.as_slice());
    append(&mut w, hdr.dcid.as_slice());
    let v = to_be(PROTOCOL_VERSION as u64, 4);
    append(&mut w, v.as_slice());
    assert(w@ =~= negotiation_bytes(hdr@, rand_byte));
    let n = w.len();
    out.put_bytes(w.as_slice())?;
    Ok(n)
}

/// A long header that can be sent reads back with the same type, version and
/// connection IDs, and an Initial header with the same token (an absent one
/// reading back as empty). A Retry header is sent but not read, and version
/// zero reads back as version negotiation, so neither is covered.
pub proof fn lemma_long_header_round_trip(h: HeaderView, r: u8, rest: Seq<u8>, dcil: nat)
    requires
        h.ty == Type::Initial || h.ty == Type::Handshake || h.ty == Type::ZeroRTT,
        h.version != 0,
        valid_cid_len(h.dcid.len()),
        valid_cid_len(h.scid.len()),
        token_of(h).len() < 0x4000_0000_0000_0000,
    ensures
        header_bytes(h, r) matches Ok(w) && parse_header(w + rest, dcil) matches Ok((p, n)) && n
            == w.len() && p.ty == h.ty && p.version == h.version && p.dcid == h.dcid && p.scid
            == h.scid && p.flags == 0x80 && (h.ty == Type::Initial ==> p.token == Some(
            token_of(h),
        )),
{
    let c = type_code(h.ty).unwrap();
    let w = long_header_bytes(h, c);
    let s = w + rest;
    let vb = be_bytes(h.version as nat, 4);
    lemma_pow256_values();
    lemma_be_round_trip(h.version as nat, 4);
    let cb = cid_lengths_byte(h.dcid.len(), h.scid.len());
    let dl = h.dcid.len() as int;
    let sl = h.scid.len() as int;
    let tail = if h.ty == Type::Initial {
        varint_bytes(token_of(h).len()) + token_of(h)
    } else {
        Seq::empty()
    };
    assert(w =~= seq![(0x80 + c) as u8] + vb + seq![cb] + h.dcid + h.scid + tail);
    assert(s[0] == (0x80 + c) as u8);
    assert(s.subrange(1, 5) =~= vb);
    assert(s[5] == cb);
    assert(cid_len_of_nibble(cb as nat / 16) == dl);
    assert(cid_len_of_nibble(cb as nat % 16) == sl);
    assert(s.subrange(6, 6 + dl) =~= h.dcid);
    assert(s.subrange(6 + dl, 6 + dl + sl) =~= h.scid);
    let p = 6 + dl + sl;
    assert(s.subrange(p, s.len() as int) =~= tail + rest);
    if h.ty == Type::Initial {
        let t = token_of(h);
        lemma_varint_round_trip(t.len(), t + rest);
        assert(tail + rest =~= varint_bytes(t.len()) + (t + rest));
        let k = varint_len(t.len()) as int;
        assert(s.subrange(p + k, p + k + t.len()) =~= t);
    }
}

/// A short header reads back, with its destination connection ID's length
/// given, as an Application header with the same connection ID.
pub proof fn lemma_short_header_round_trip(h: HeaderView, r: u8, rest: Seq<u8>)
    requires
        h.ty == Type::Application,
    ensures
        header_bytes(h, r) matches Ok(w) && parse_header(w + rest, h.dcid.len()) == Ok::<
            (HeaderView, nat),
            Error,
        >(
            (
                HeaderView {
                    ty: Type::Application,
                    version: 0,
                    flags: 0,
                    dcid: h.dcid,
                    scid: Seq::empty(),
                    token: None,
                    versions: None,
                },
                w.len(),
            ),
        ),
{
    let f = short_first(r);
    assert(f < 0x80) by (bit_vector)
        requires
            f == (r & 0x37) | 0x30,
    ;
    let s = seq![f] + h.dcid + rest;
    assert(s.subrange(1, 1 + h.dcid.len() as int) =~= h.dcid);
    assert(seq![f] + h.dcid + rest =~= (seq![f] + h.dcid) + rest);
}

/// Every connection ID that a long header is read with is at most 18 bytes.
pub proof fn lemma_parsed_cid_len_cap(s: Seq<u8>, dcil: nat)
    requires
        parse_header(s, dcil) is Ok,
        s[0] >= 0x80,
    ensures
        parse_header(s, dcil)->Ok_0.0.dcid.len() <= MAX_CID_LEN,
        parse_header(s, dcil)->Ok_0.0.scid.len() <= MAX_CID_LEN,
{
}

/// A packet number encoded at its minimal width expands back to itself,
/// wherever it lies within half a window of the number after `largest`.
pub proof fn lemma_decode_inverts_truncation(largest: nat, pn: nat)
    requires
        pn < 0x4000_0000,
        largest + 1 < pn + pn_window(pn_len(pn)) / 2,
        pn <= largest + 1 + pn_window(pn_len(pn)) / 2,
    ensures
        decode_spec(largest, pn % pn_window(pn_len(pn)), pn_window(pn_len(pn))) == pn,
{
    let w = pn_window(pn_len(pn));
    let e = largest + 1;
    let q = e / w;
    assert(pn % w == pn);
    assert(e - e % w == w * q) by {
        vstd::arithmetic::div_mod::lemma_fundamental_div_mod(e as int, w as int);
    }
    assert(e % w < w) by {
        vstd::arithmetic::div_mod::lemma_mod_bound(e as int, w as int);
    }
    if q >= 2 {
        assert(w * q >= 2 * w) by (nonlinear_arith)
            requires
                q >= 2,
                w > 0,
        ;
    } else if q == 1 {
        assert(w * q == w);
    } else {
        assert(w * q == 0);
    }
}

/// A packet number freed of header protection is 1, 2 or 4 bytes long and
/// lies within the window of its length, as `decode_pkt_num` needs.
pub proof fn lemma_decrypted_fits_window(s: Seq<u8>, sample_len: nat, mask: Seq<u8>)
    requires
        mask.len() >= 4,
        decrypt_spec(s, sample_len, mask) is Ok,
    ensures
        ({
            let (v, n) = decrypt_spec(s, sample_len, mask)->Ok_0;
            pn_bits(n) is Some && v < pn_window(n)
        }),
{
    let n = pn_len_of_first(s[0] ^ mask[0]);
    let p = pn_plaintext(s, mask, n);
    let f = s[0] ^ mask[0];
    lemma_pow256_values();
    lemma_be_value_split(p);
    lemma_be_value_bound(p.drop_first());
    let rest = be_value(p.drop_first());
    if n == 1 {
        assert(p.drop_first().len() == 0);
        assert(p[0] == f);
        assert(f < 0x80);
        assert(be_value(p.drop_first()) == 0);
        assert(f as nat * pow256(0) == f as nat) by (nonlinear_arith)
            requires
                pow256(0) == 1,
        ;
        assert(be_value(p) == f as nat);
    } else {
        let g = f & 0x3f;
        assert(g < 0x40) by (bit_vector)
            requires
                g == f & 0x3f,
        ;
        assert(p[0] == g);
        let w = pow256((n - 1) as nat);
        assert(g as nat * w + rest < 0x40 * w) by (nonlinear_arith)
            requires
                g < 0x40,
                rest < w,
        ;
        assert(be_value(p) < pn_window(n));
    }
}

/// `e` masked byte by byte with `mask`.
pub open spec fn masked(e: Seq<u8>, mask: Seq<u8>) -> Seq<u8> {
    Seq::new(e.len(), |i: int| e[i] ^ mask[i])
}

/// A packet number encoded at its minimal width and masked for header
/// protection is read back, with the same mask, as that number and width,
/// wherever the packet holds a sample after it.
pub proof fn lemma_encode_decrypt_round_trip(
    pn: nat,
    mask: Seq<u8>,
    rest: Seq<u8>,
    sample_len: nat,
)
    requires
        pn < 0x4000_0000,
        mask.len() >= 4,
        rest.len() >= sample_len + 3,
    ensures
        decrypt_spec(masked(pn_encoding(pn), mask) + rest, sample_len, mask) == Ok::<
            (nat, nat),
            Error,
        >((pn, pn_len(pn))),
{
    let n = pn_len(pn);
    let x: nat = if n == 1 {
        pn
    } else if n == 2 {
        pn + 0x8000
    } else {
        pn + 0xc000_0000
    };
    let e = pn_encoding(pn);
    assert(e == be_bytes(x, n));
    lemma_pow256_values();
    lemma_be_round_trip(x, n);
    lemma_be_bytes_first(x, n);
    let s = masked(e, mask) + rest;
    let e0 = e[0];
    let m0 = mask[0];
    assert(s[0] ^ m0 == e0) by {
        assert(s[0] == e0 ^ m0);
        assert((e0 ^ m0) ^ m0 == e0) by (bit_vector);
    }
    let w = pow256((n - 1) as nat);
    if n == 1 {
        assert(e0 < 0x80);
    } else if n == 2 {
        assert(0x80 <= x / w < 0xc0) by (nonlinear_arith)
            requires
                w == 0x100,
                0x8000 <= x < 0xc000,
        ;
    } else {
        assert(0xc0 <= x / w) by (nonlinear_arith)
            requires
                w == 0x100_0000,
                0xc000_0000 <= x,
        ;
    }
    assert(pn_len_of_first(s[0] ^ m0) == n);
    let q = pn_plaintext(s, mask, n);
    assert forall|i: int| 0 < i < n implies #[trigger] q[i] == e[i] by {
        let a = e[i];
        let b = mask[i];
        assert((a ^ b) ^ b == a) by (bit_vector);
    }
    assert(q.drop_first() =~= e.drop_first());
    lemma_be_value_split(q);
    lemma_be_value_split(e);
    if n == 1 {
        assert(q =~= e);
    } else {
        let g = e0 & 0x3f;
        assert(q[0] == g);
        if n == 2 {
            assert(g == e0 - 0x80) by (bit_vector)
                requires
                    g == e0 & 0x3f,
                    0x80 <= e0 < 0xc0,
            ;
        } else {
            assert(g == e0 - 0xc0) by (bit_vector)
                requires
                    g == e0 & 0x3f,
                    0xc0 <= e0,
            ;
        }
        let r = be_value(e.drop_first());
        assert(g as nat * w + r == x - (e0 - g) * w) by (nonlinear_arith)
            requires
                x == e0 as nat * w + r,
                g <= e0,
        ;
    }
}

} // verus!

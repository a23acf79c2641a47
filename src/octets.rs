use vstd::prelude::*;

use crate::error::Error;

verus! {

/// `256` to the power `n`.
pub open spec fn pow256(n: nat) -> nat
    decreases n,
{
    if n == 0 {
        1
    } else {
        256 * pow256((n - 1) as nat)
    }
}

/// The unsigned integer that a big-endian byte string denotes.
pub open spec fn be_value(s: Seq<u8>) -> nat
    decreases s.len(),
{
    if s.len() == 0 {
        0
    } else {
        be_value(s.drop_last()) * 256 + s.last() as nat
    }
}

/// The `n` low-order bytes of `v`, most significant first.
pub open spec fn be_bytes(v: nat, n: nat) -> Seq<u8>
    decreases n,
{
    if n == 0 {
        Seq::empty()
    } else {
        be_bytes(v / 256, (n - 1) as nat).push((v % 256) as u8)
    }
}

/// `s` with the bytes from `at` on replaced by `d`.
pub open spec fn overwrite(s: Seq<u8>, at: int, d: Seq<u8>) -> Seq<u8> {
    s.subrange(0, at) + d + s.subrange(at + d.len(), s.len() as int)
}

/// The value offset that marks an encoded variable-length integer of `n` bytes.
pub open spec fn varint_tag(n: nat) -> nat {
    if n == 2 {
        0x4000
    } else if n == 4 {
        0x8000_0000
    } else if n == 8 {
        0xc000_0000_0000_0000
    } else {
        0
    }
}

/// The width of the shortest encoding of `v` as a variable-length integer.
pub open spec fn varint_len(v: nat) -> nat {
    if v < 0x40 {
        1
    } else if v < 0x4000 {
        2
    } else if v < 0x4000_0000 {
        4
    } else {
        8
    }
}

/// The width that the first byte of an encoded variable-length integer announces.
pub open spec fn varint_width(b0: u8) -> nat {
    if b0 < 0x40 {
        1
    } else if b0 < 0x80 {
        2
    } else if b0 < 0xc0 {
        4
    } else {
        8
    }
}

/// The shortest encoding of `v` (below 2^62) as a variable-length integer.
pub open spec fn varint_bytes(v: nat) -> Seq<u8> {
    be_bytes(v + varint_tag(varint_len(v)), varint_len(v))
}

/// The value of an encoded variable-length integer at the start of `s`, with
/// the number of bytes it takes; `None` where `s` ends before it does.
pub open spec fn varint_parse(s: Seq<u8>) -> Option<(nat, nat)> {
    if s.len() == 0 {
        None
    } else {
        let n = varint_width(s[0]);
        if s.len() < n {
            None
        } else {
            Some(((be_value(s.subrange(0, n as int)) - varint_tag(n)) as nat, n))
        }
    }
}

pub proof fn lemma_be_bytes_len(v: nat, n: nat)
    ensures
        be_bytes(v, n).len() == n,
    decreases n,
{
    if n > 0 {
        lemma_be_bytes_len(v / 256, (n - 1) as nat);
    }
}

/// Writing `n` bytes and reading them back gives the value, where it fits.
pub proof fn lemma_be_round_trip(v: nat, n: nat)
    requires
        v < pow256(n),
    ensures
        be_value(be_bytes(v, n)) == v,
        be_bytes(v, n).len() == n,
    decreases n,
{
    lemma_be_bytes_len(v, n);
    if n > 0 {
        let p = pow256((n - 1) as nat);
        assert(v / 256 < p) by (nonlinear_arith)
            requires
                v < 256 * p,
        ;
        lemma_be_round_trip(v / 256, (n - 1) as nat);
        assert(be_bytes(v, n).drop_last() =~= be_bytes(v / 256, (n - 1) as nat));
    }
}

/// The first of `n` bytes of `v` is its top digit.
pub proof fn lemma_be_bytes_first(v: nat, n: nat)
    requires
        n >= 1,
        v < pow256(n),
    ensures
        be_bytes(v, n)[0] as nat == v / pow256((n - 1) as nat),
    decreases n,
{
    lemma_be_bytes_len(v, n);
    reveal_with_fuel(pow256, 2);
    if n == 1 {
        assert(v / 256 == 0);
        assert(be_bytes(v, 1) =~= seq![(v % 256) as u8]);
        assert(v % 256 == v);
        assert(pow256(0) == 1);
        assert(v / 1 == v);
    } else {
        let p = pow256((n - 2) as nat);
        assert(pow256(n) == 256 * (256 * p));
        assert(v / 256 < 256 * p) by (nonlinear_arith)
            requires
                v < 256 * (256 * p),
        ;
        lemma_be_bytes_first(v / 256, (n - 1) as nat);
        lemma_be_bytes_len(v / 256, (n - 1) as nat);
        assert(be_bytes(v, n)[0] == be_bytes(v / 256, (n - 1) as nat)[0]);
        assert(pow256((n - 1) as nat) == 256 * p);
        assert((v / 256) / p == v / (256 * p)) by {
            vstd::arithmetic::div_mod::lemma_div_denominator(v as int, 256, p as int);
        }
    }
}

/// A byte string is at least its first byte times the weight of that byte.
pub proof fn lemma_be_value_first(s: Seq<u8>)
    requires
        s.len() >= 1,
    ensures
        be_value(s) >= s[0] as nat * pow256((s.len() - 1) as nat),
        be_value(s) < pow256(s.len()),
    decreases s.len(),
{
    reveal_with_fuel(pow256, 2);
    reveal_with_fuel(be_value, 2);
    if s.len() == 1 {
        assert(s.drop_last() =~= Seq::<u8>::empty());
    } else {
        let t = s.drop_last();
        lemma_be_value_first(t);
        assert(t[0] == s[0]);
        let p = pow256((t.len() - 1) as nat);
        let a = be_value(t);
        assert(a * 256 + s.last() as nat >= s[0] as nat * (256 * p)) by (nonlinear_arith)
            requires
                a >= s[0] as nat * p,
        ;
        assert(a * 256 + (s.last() as nat) < 256 * pow256(t.len())) by (nonlinear_arith)
            requires
                a < pow256(t.len()),
                s.last() < 256,
        ;
    }
}

/// A byte string's value is its first byte's weight plus the value of the
/// bytes after it.
pub proof fn lemma_be_value_split(s: Seq<u8>)
    requires
        s.len() >= 1,
    ensures
        be_value(s) == s[0] as nat * pow256((s.len() - 1) as nat) + be_value(s.drop_first()),
    decreases s.len(),
{
    reveal_with_fuel(be_value, 2);
    if s.len() == 1 {
        assert(s.drop_last() =~= Seq::<u8>::empty());
        assert(s.drop_first() =~= Seq::<u8>::empty());
        assert(s.last() == s[0]);
        assert(pow256(0) == 1);
        assert(s[0] as nat * pow256(0) == s[0] as nat) by (nonlinear_arith)
            requires
                pow256(0) == 1,
        ;
    } else {
        let t = s.drop_last();
        lemma_be_value_split(t);
        assert(t[0] == s[0]);
        assert(s.drop_first().drop_last() =~= t.drop_first());
        assert(s.drop_first().last() == s.last());
        let p = pow256((t.len() - 1) as nat);
        let x = be_value(t.drop_first());
        assert(be_value(s.drop_first()) == x * 256 + (s.last() as nat));
        assert(be_value(s) == be_value(t) * 256 + (s.last() as nat));
        assert(pow256((s.len() - 1) as nat) == 256 * p);
        assert((s[0] as nat * p + x) * 256 + (s.last() as nat) == s[0] as nat * (256 * p) + (x * 256
            + (s.last() as nat))) by (nonlinear_arith);
    }
}

pub proof fn lemma_be_value_bound(s: Seq<u8>)
    ensures
        be_value(s) < pow256(s.len()),
{
    if s.len() >= 1 {
        lemma_be_value_first(s);
    }
}

/// Encoding a variable-length integer and parsing it back gives the value.
pub proof fn lemma_varint_round_trip(v: nat, rest: Seq<u8>)
    requires
        v < 0x4000_0000_0000_0000,
    ensures
        varint_parse(varint_bytes(v) + rest) == Some((v, varint_len(v))),
        varint_bytes(v).len() == varint_len(v),
{
    let n = varint_len(v);
    let x = v + varint_tag(n);
    lemma_pow256_values();
    lemma_be_round_trip(x, n);
    lemma_be_bytes_first(x, n);
    let e = varint_bytes(v);
    let s = e + rest;
    let d = pow256((n - 1) as nat);
    assert(varint_width(e[0]) == n) by {
        if n == 1 {
            assert(x / d < 0x40);
        } else if n == 2 {
            assert(0x40 <= x / d < 0x80) by (nonlinear_arith)
                requires
                    d == 0x100,
                    0x4000 <= x < 0x8000,
            ;
        } else if n == 4 {
            assert(0x80 <= x / d < 0xc0) by (nonlinear_arith)
                requires
                    d == 0x100_0000,
                    0x8000_0000 <= x < 0xc000_0000,
            ;
        } else {
            assert(0xc0 <= x / d) by (nonlinear_arith)
                requires
                    d == 0x100_0000_0000_0000,
                    0xc000_0000_0000_0000 <= x,
            ;
        }
    }
    assert(s.subrange(0, n as int) =~= e);
    assert(s[0] == e[0]);
}

/// A cursor over a byte buffer: reads and writes move it forward, and none of
/// them goes past the buffer's end.
pub struct Octets {
    buf: Vec<u8>,
    off: usize,
}

impl Octets {
    /// The whole buffer.
    pub closed spec fn bytes(&self) -> Seq<u8> {
        self.buf@
    }

    /// The cursor's offset into the buffer.
    pub closed spec fn pos(&self) -> nat {
        if self.off <= self.buf.len() {
            self.off as nat
        } else {
            self.buf.len() as nat
        }
    }

    /// The cursor never stands past the end of the buffer.
    pub broadcast proof fn lemma_pos_bound(o: &Octets)
        ensures
            #[trigger] o.pos() <= o.bytes().len(),
    {
    }

    /// The bytes from the cursor to the end of the buffer.
    pub open spec fn rest(&self) -> Seq<u8> {
        self.bytes().subrange(self.pos() as int, self.bytes().len() as int)
    }

    #[verifier::type_invariant]
    spec fn inv(&self) -> bool {
        self.off <= self.buf.len()
    }

    /// A cursor at the start of `buf`.
    pub fn new(buf: Vec<u8>) -> (r: Octets)
        ensures
            r.bytes() == buf@,
            r.pos() == 0,
    {
        Octets { buf, off: 0 }
    }

    /// A cursor at the start of a copy of `s`.
    pub fn from_slice(s: &[u8]) -> (r: Octets)
        ensures
            r.bytes() == s@,
            r.pos() == 0,
    {
        Octets { buf: vstd::slice::slice_to_vec(s), off: 0 }
    }

    /// The number of bytes left after the cursor.
    pub fn cap(&self) -> (r: usize)
        ensures
            r == self.bytes().len() - self.pos(),
    {
        proof {
            use_type_invariant(self);
        }
        self.buf.len() - self.off
    }

    /// The cursor's offset.
    pub fn off(&self) -> (r: usize)
        ensures
            r == self.pos(),
    {
        proof {
            use_type_invariant(self);
        }
        self.off
    }

    /// The whole buffer.
    pub fn buf(&self) -> (r: &Vec<u8>)
        ensures
            r@ == self.bytes(),
    {
        &self.buf
    }

    /// The bytes before the cursor.
    pub fn written(&self) -> (r: Vec<u8>)
        ensures
            r@ == self.bytes().subrange(0, self.pos() as int),
    {
        proof {
            use_type_invariant(self);
        }
        self.copy_out(0, self.off)
    }

    fn copy_out(&self, from: usize, n: usize) -> (r: Vec<u8>)
        requires
            from + n <= self.bytes().len(),
        ensures
            r@ == self.bytes().subrange(from as int, from + n),
    {
        let mut r: Vec<u8> = Vec::with_capacity(n);
        let len = self.buf.len();
        let mut i: usize = 0;
        while i < n
            invariant
                len == self.buf@.len(),
                from + n <= self.buf@.len(),
                i <= n,
                r@ == self.buf@.subrange(from as int, from + i),
            decreases n - i,
        {
            r.push(self.buf[from + i]);
            i += 1;
            assert(r@ =~= self.buf@.subrange(from as int, from + i));
        }
        r
    }

    /// The big-endian integer in the `n` bytes after the cursor.
    fn read_be(&self, n: usize) -> (r: u64)
        requires
            n <= 8,
            self.pos() + n <= self.bytes().len(),
        ensures
            r as nat == be_value(self.rest().subrange(0, n as int)),
    {
        proof {
            use_type_invariant(self);
        }
        let off = self.off;
        let len = self.buf.len();
        let mut acc: u64 = 0;
        let mut i: usize = 0;
        while i < n
            invariant
                len == self.buf@.len(),
                n <= 8,
                off + n <= self.buf@.len(),
                i <= n,
                off == self.off,
                acc as nat == be_value(self.buf@.subrange(off as int, off + i)),
            decreases n - i,
        {
            let ghost s = self.buf@.subrange(off as int, off + i + 1);
            assert(s.drop_last() =~= self.buf@.subrange(off as int, off + i));
            proof {
                lemma_be_value_bound(self.buf@.subrange(off as int, off + i));
                lemma_pow256_values();
                lemma_pow256_mono(i as nat, 7);
            }
            acc = acc * 256 + self.buf[off + i] as u64;
            i += 1;
        }
        assert(self.rest().subrange(0, n as int) =~= self.buf@.subrange(off as int, off + n));
        acc
    }

    /// Reads one byte.
    pub fn get_u8(&mut self) -> (r: Result<u8, Error>)
        ensures
            final(self).bytes() == old(self).bytes(),
            match r {
                Ok(v) => old(self).rest().len() >= 1 && v == old(self).rest()[0]
                    && final(self).pos() == old(self).pos() + 1,
                Err(e) => old(self).rest().len() < 1 && e == Error::BufferTooShort
                    && final(self).pos() == old(self).pos(),
            },
    {
        proof {
            use_type_invariant(&*self);
        }
        if self.buf.len() - self.off < 1 {
            return Err(Error::BufferTooShort);
        }
        let v = self.buf[self.off];
        self.off = self.off + 1;
        Ok(v)
    }

    /// Reads a big-endian integer of `n` bytes, `n` at most 8.
    fn get_be(&mut self, n: usize) -> (r: Result<u64, Error>)
        requires
            n <= 8,
        ensures
            final(self).bytes() == old(self).bytes(),
            match r {
                Ok(v) => old(self).rest().len() >= n
                    && v as nat == be_value(old(self).rest().subrange(0, n as int))
                    && final(self).pos() == old(self).pos() + n,
                Err(e) => old(self).rest().len() < n && e == Error::BufferTooShort
                    && final(self).pos() == old(self).pos(),
            },
    {
        proof {
            use_type_invariant(&*self);
        }
        if self.buf.len() - self.off < n {
            return Err(Error::BufferTooShort);
        }
        let v = self.read_be(n);
        self.off = self.off + n;
        Ok(v)
    }

    /// Reads a big-endian 16-bit integer.
    pub fn get_u16(&mut self) -> (r: Result<u16, Error>)
        ensures
            final(self).bytes() == old(self).bytes(),
            match r {
                Ok(v) => old(self).rest().len() >= 2
                    && v as nat == be_value(old(self).rest().subrange(0, 2))
                    && final(self).pos() == old(self).pos() + 2,
                Err(e) => old(self).rest().len() < 2 && e == Error::BufferTooShort
                    && final(self).pos() == old(self).pos(),
            },
    {
        let r = self.get_be(2);
        match r {
            Ok(v) => {
                proof {
                    lemma_be_value_bound(old(self).rest().subrange(0, 2));
                    lemma_pow256_values();
                }
                Ok(v as u16)
            },
            Err(e) => Err(e),
        }
    }

    /// Reads a big-endian 32-bit integer.
    pub fn get_u32(&mut self) -> (r: Result<u32, Error>)
        ensures
            final(self).bytes() == old(self).bytes(),
            match r {
                Ok(v) => old(self).rest().len() >= 4
                    && v as nat == be_value(old(self).rest().subrange(0, 4))
                    && final(self).pos() == old(self).pos() + 4,
                Err(e) => old(self).rest().len() < 4 && e == Error::BufferTooShort
                    && final(self).pos() == old(self).pos(),
            },
    {
        let r = self.get_be(4);
        match r {
            Ok(v) => {
                proof {
                    lemma_be_value_bound(old(self).rest().subrange(0, 4));
                    lemma_pow256_values();
                }
                Ok(v as u32)
            },
            Err(e) => Err(e),
        }
    }

    /// Reads a variable-length integer.
    pub fn get_varint(&mut self) -> (r: Result<u64, Error>)
        ensures
            final(self).bytes() == old(self).bytes(),
            match r {
                Ok(v) => varint_parse(old(self).rest()) matches Some((x, n))
                    && v as nat == x && final(self).pos() == old(self).pos() + n,
                Err(e) => varint_parse(old(self).rest()) is None && e == Error::BufferTooShort
                    && final(self).pos() == old(self).pos(),
            },
    {
        proof {
            use_type_invariant(&*self);
        }
        if self.buf.len() - self.off < 1 {
            return Err(Error::BufferTooShort);
        }
        let b0 = self.buf[self.off];
        let n: usize = if b0 < 0x40 {
            1
        } else if b0 < 0x80 {
            2
        } else if b0 < 0xc0 {
            4
        } else {
            8
        };
        let tag: u64 = if n == 2 {
            0x4000
        } else if n == 4 {
            0x8000_0000
        } else if n == 8 {
            0xc000_0000_0000_0000
        } else {
            0
        };
        let ghost s = old(self).rest();
        assert(s[0] == b0);
        let r = self.get_be(n);
        match r {
            Ok(v) => {
                proof {
                    let t = s.subrange(0, n as int);
                    lemma_be_value_first(t);
                    assert(t[0] == b0);
                    lemma_pow256_values();
                    assert(b0 as nat * pow256((n - 1) as nat) >= tag) by (nonlinear_arith)
                        requires
                            n == 1 || n == 2 || n == 4 || n == 8,
                            n == 2 ==> b0 >= 0x40 && tag == 0x4000 && pow256(1) == 0x100,
                            n == 4 ==> b0 >= 0x80 && tag == 0x8000_0000 && pow256(3) == 0x100_0000,
                            n == 8 ==> b0 >= 0xc0 && tag == 0xc000_0000_0000_0000
                                && pow256(7) == 0x100_0000_0000_0000,
                            n == 1 ==> tag == 0,
                    ;
                }
                Ok(v - tag)
            },
            Err(e) => Err(e),
        }
    }

    /// Reads `n` bytes.
    pub fn get_bytes(&mut self, n: usize) -> (r: Result<Vec<u8>, Error>)
        ensures
            final(self).bytes() == old(self).bytes(),
            match r {
                Ok(v) => old(self).rest().len() >= n && v@ == old(self).rest().subrange(0, n as int)
                    && final(self).pos() == old(self).pos() + n,
                Err(e) => old(self).rest().len() < n && e == Error::BufferTooShort
                    && final(self).pos() == old(self).pos(),
            },
    {
        proof {
            use_type_invariant(&*self);
        }
        let r = self.peek_bytes(n);
        match r {
            Ok(v) => {
                self.off = self.off + n;
                Ok(v)
            },
            Err(e) => Err(e),
        }
    }

    /// Reads a variable-length integer, then as many bytes as it says.
    pub fn get_bytes_with_varint_length(&mut self) -> (r: Result<Vec<u8>, Error>)
        ensures
            final(self).bytes() == old(self).bytes(),
            match r {
                Ok(v) => varint_parse(old(self).rest()) matches Some((x, k))
                    && old(self).rest().len() >= k + x
                    && v@ == old(self).rest().subrange(k as int, (k + x) as int)
                    && final(self).pos() == old(self).pos() + k + x,
                Err(e) => e == Error::BufferTooShort && match varint_parse(old(self).rest()) {
                    Some((x, k)) => old(self).rest().len() < k + x,
                    None => true,
                },
            },
    {
        let ghost s = old(self).rest();
        let len = self.get_varint()?;
        proof {
            use_type_invariant(&*self);
            assert(self.rest() =~= s.subrange(self.pos() - old(self).pos(), s.len() as int));
        }
        if len > usize::MAX as u64 {
            return Err(Error::BufferTooShort);
        }
        let r = self.get_bytes(len as usize);
        proof {
            if let Ok(ref v) = r {
                assert(v@ =~= s.subrange(
                    (final(self).pos() - old(self).pos() - len) as int,
                    (final(self).pos() - old(self).pos()) as int,
                ));
            }
        }
        r
    }

    /// The `n` bytes after the cursor, which stays where it is.
    pub fn peek_bytes(&self, n: usize) -> (r: Result<Vec<u8>, Error>)
        ensures
            match r {
                Ok(v) => self.rest().len() >= n && v@ == self.rest().subrange(0, n as int),
                Err(e) => self.rest().len() < n && e == Error::BufferTooShort,
            },
    {
        proof {
            use_type_invariant(self);
        }
        if self.buf.len() - self.off < n {
            return Err(Error::BufferTooShort);
        }
        let v = self.copy_out(self.off, n);
        assert(v@ =~= self.rest().subrange(0, n as int));
        Ok(v)
    }

    /// Writes `d` at the cursor, or nothing where it does not fit.
    pub fn put_bytes(&mut self, d: &[u8]) -> (r: Result<(), Error>)
        ensures
            match r {
                Ok(_) => old(self).rest().len() >= d@.len()
                    && final(self).bytes() == overwrite(old(self).bytes(), old(self).pos() as int, d@)
                    && final(self).pos() == old(self).pos() + d@.len(),
                Err(e) => old(self).rest().len() < d@.len() && e == Error::BufferTooShort
                    && final(self).bytes() == old(self).bytes()
                    && final(self).pos() == old(self).pos(),
            },
    {
        proof {
            use_type_invariant(&*self);
        }
        let n = d.len();
        if self.buf.len() - self.off < n {
            return Err(Error::BufferTooShort);
        }
        let off = self.off;
        let ghost b0 = self.buf@;
        let len = self.buf.len();
        let mut i: usize = 0;
        while i < n
            invariant
                len == b0.len(),
                n == d@.len(),
                off + n <= b0.len(),
                i <= n,
                self.off == off,
                self.buf@.len() == b0.len(),
                forall|j: int|
                    0 <= j < b0.len() ==> #[trigger] self.buf@[j] == if off <= j < off + i {
                        d@[j - off]
                    } else {
                        b0[j]
                    },
            decreases n - i,
        {
            self.buf[off + i] = d[i];
            i += 1;
        }
        assert(self.buf@ =~= overwrite(b0, off as int, d@));
        self.off = off + n;
        Ok(())
    }

    /// Writes one byte.
    pub fn put_u8(&mut self, v: u8) -> (r: Result<(), Error>)
        ensures
            match r {
                Ok(_) => old(self).rest().len() >= 1
                    && final(self).bytes() == overwrite(old(self).bytes(), old(self).pos() as int, seq![v])
                    && final(self).pos() == old(self).pos() + 1,
                Err(e) => old(self).rest().len() < 1 && e == Error::BufferTooShort
                    && final(self).bytes() == old(self).bytes()
                    && final(self).pos() == old(self).pos(),
            },
    {
        let a = [v];
        assert(a@ =~= seq![v]);
        self.put_bytes(&a)
    }

    /// Writes the `n` low-order bytes of `v`, most significant first.
    pub fn put_be(&mut self, v: u64, n: usize) -> (r: Result<(), Error>)
        ensures
            match r {
                Ok(_) => old(self).rest().len() >= n
                    && final(self).bytes() == overwrite(
                        old(self).bytes(),
                        old(self).pos() as int,
                        be_bytes(v as nat, n as nat),
                    )
                    && final(self).pos() == old(self).pos() + n,
                Err(e) => old(self).rest().len() < n && e == Error::BufferTooShort
                    && final(self).bytes() == old(self).bytes()
                    && final(self).pos() == old(self).pos(),
            },
    {
        let d = to_be(v, n);
        proof {
            lemma_be_bytes_len(v as nat, n as nat);
        }
        self.put_bytes(d.as_slice())
    }

    /// Writes a big-endian 32-bit integer.
    pub fn put_u32(&mut self, v: u32) -> (r: Result<(), Error>)
        ensures
            match r {
                Ok(_) => old(self).rest().len() >= 4
                    && final(self).bytes() == overwrite(
                        old(self).bytes(),
                        old(self).pos() as int,
                        be_bytes(v as nat, 4),
                    )
                    && final(self).pos() == old(self).pos() + 4,
                Err(e) => old(self).rest().len() < 4 && e == Error::BufferTooShort
                    && final(self).bytes() == old(self).bytes()
                    && final(self).pos() == old(self).pos(),
            },
    {
        self.put_be(v as u64, 4)
    }

    /// Writes `v` as a variable-length integer in its shortest form.
    pub fn put_varint(&mut self, v: u64) -> (r: Result<(), Error>)
        requires
            v < 0x4000_0000_0000_0000,
        ensures
            match r {
                Ok(_) => old(self).rest().len() >= varint_len(v as nat)
                    && final(self).bytes() == overwrite(
                        old(self).bytes(),
                        old(self).pos() as int,
                        varint_bytes(v as nat),
                    )
                    && final(self).pos() == old(self).pos() + varint_len(v as nat),
                Err(e) => old(self).rest().len() < varint_len(v as nat) && e
                    == Error::BufferTooShort && final(self).bytes() == old(self).bytes()
                    && final(self).pos() == old(self).pos(),
            },
    {
        if v < 0x40 {
            self.put_be(v, 1)
        } else if v < 0x4000 {
            self.put_be(v + 0x4000, 2)
        } else if v < 0x4000_0000 {
            self.put_be(v + 0x8000_0000, 4)
        } else {
            self.put_be(v + 0xc000_0000_0000_0000, 8)
        }
    }
}

pub proof fn lemma_pow256_values()
    ensures
        pow256(0) == 1,
        pow256(1) == 0x100,
        pow256(2) == 0x1_0000,
        pow256(3) == 0x100_0000,
        pow256(4) == 0x1_0000_0000,
        pow256(7) == 0x100_0000_0000_0000,
        pow256(8) == 0x1_0000_0000_0000_0000,
{
    reveal_with_fuel(pow256, 9);
}

pub proof fn lemma_pow256_mono(a: nat, b: nat)
    requires
        a <= b,
    ensures
        pow256(a) <= pow256(b),
    decreases b,
{
    if a < b {
        lemma_pow256_mono(a, (b - 1) as nat);
    }
}

/// The `n` low-order bytes of `v`, most significant first.
pub fn to_be(v: u64, n: usize) -> (r: Vec<u8>)
    ensures
        r@ == be_bytes(v as nat, n as nat),
    decreases n,
{
    if n == 0 {
        Vec::new()
    } else {
        let mut r = to_be(v / 256, n - 1);
        r.push((v % 256) as u8);
        r
    }
}

} // verus!

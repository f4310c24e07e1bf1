//! A growable byte buffer with independent read and write cursors and
//! big-endian accessors for the fixed-width integer types.
use vstd::arithmetic::div_mod::{lemma_fundamental_div_mod_converse, lemma_mod_breakdown};
use vstd::prelude::*;

verus! {

/// The only way an accessor of [`Bytes`] can fail: fewer bytes remain to be
/// read than the value being read is wide.
#[derive(Clone, Copy, Debug, PartialEq, Eq, Structural)]
pub enum CursorError {
    UnexpectedEof,
}

/// `256` raised to the power `n`: the number of distinct values of `n` bytes.
pub open spec fn pow256(n: nat) -> nat
    decreases n,
{
    if n == 0 {
        1
    } else {
        256 * pow256((n - 1) as nat)
    }
}

/// The unsigned number that the bytes `s` spell, most significant byte first.
pub open spec fn be_nat(s: Seq<u8>) -> nat
    decreases s.len(),
{
    if s.len() == 0 {
        0
    } else {
        be_nat(s.drop_last()) * 256 + s.last() as nat
    }
}

/// The signed number that the bytes `s` spell in two's complement, most
/// significant byte first.
pub open spec fn be_int(s: Seq<u8>) -> int {
    if 2 * be_nat(s) >= pow256(s.len()) {
        be_nat(s) - pow256(s.len())
    } else {
        be_nat(s) as int
    }
}

/// The `n` low-order bytes of `v`, most significant first.
pub open spec fn be_bytes(v: nat, n: nat) -> Seq<u8>
    decreases n,
{
    if n == 0 {
        Seq::empty()
    } else {
        be_bytes(v / 256, (n - 1) as nat).push((v % 256) as u8)
    }
}

/// The `n`-byte two's complement representation of `v`, as an unsigned number.
pub open spec fn twos_complement(v: int, n: nat) -> nat {
    if v < 0 {
        (v + pow256(n)) as nat
    } else {
        v as nat
    }
}

/// What a [`Bytes`] holds: its contents and its two cursors.
pub ghost struct CursorView {
    pub bytes: Seq<u8>,
    pub read_pos: nat,
    pub write_pos: nat,
}

impl CursorView {
    /// Both cursors lie within the contents.
    pub open spec fn wf(self) -> bool {
        self.read_pos <= self.bytes.len() && self.write_pos <= self.bytes.len()
    }

    pub open spec fn readable(self) -> nat {
        (self.bytes.len() - self.read_pos) as nat
    }

    pub open spec fn writable(self) -> nat {
        (self.bytes.len() - self.write_pos) as nat
    }

    /// The `n` bytes that start at the read cursor.
    pub open spec fn peek(self, n: nat) -> Seq<u8> {
        self.bytes.subrange(self.read_pos as int, (self.read_pos + n) as int)
    }

    /// The read cursor moved on by `n`, but not past the end.
    pub open spec fn skip_read(self, n: nat) -> CursorView {
        CursorView {
            bytes: self.bytes,
            read_pos: self.read_pos + if n <= self.readable() { n } else { self.readable() },
            write_pos: self.write_pos,
        }
    }

    /// The write cursor moved on by `n`, but not past the end.
    pub open spec fn skip_write(self, n: nat) -> CursorView {
        CursorView {
            bytes: self.bytes,
            read_pos: self.read_pos,
            write_pos: self.write_pos + if n <= self.writable() { n } else { self.writable() },
        }
    }

    /// `data` written at the write cursor, which then stands just past it.
    pub open spec fn put(self, data: Seq<u8>) -> CursorView {
        CursorView {
            bytes: splice(self.bytes, self.write_pos, data),
            read_pos: self.read_pos,
            write_pos: self.write_pos + data.len(),
        }
    }
}

/// `bytes` with `data` laid over it from index `pos` on: overwritten where
/// `bytes` reaches, extended where it does not, and unchanged elsewhere.
pub open spec fn splice(bytes: Seq<u8>, pos: nat, data: Seq<u8>) -> Seq<u8> {
    let end = pos + data.len();
    if end <= bytes.len() {
        bytes.subrange(0, pos as int) + data + bytes.subrange(end as int, bytes.len() as int)
    } else {
        bytes.subrange(0, pos as int) + data
    }
}

/// The `n` low-order bytes of `v`, most significant first.
fn be_encode(v: u64, n: usize) -> (r: Vec<u8>)
    ensures
        r@ == be_bytes(v as nat, n as nat),
        r@.len() == n,
    decreases n,
{
    if n == 0 {
        Vec::new()
    } else {
        let mut r = be_encode(v / 256, n - 1);
        r.push((v % 256) as u8);
        r
    }
}

/// `be_bytes(v, n)` is `n` bytes long.
pub proof fn lemma_be_bytes_len(v: nat, n: nat)
    ensures
        #[trigger] be_bytes(v, n).len() == n,
    decreases n,
{
    if n > 0 {
        lemma_be_bytes_len(v / 256, (n - 1) as nat);
    }
}

/// A number spelled by `n` bytes is less than `256` to the `n`.
pub proof fn lemma_be_nat_bound(s: Seq<u8>)
    ensures
        be_nat(s) < pow256(s.len()),
    decreases s.len(),
{
    if s.len() > 0 {
        lemma_be_nat_bound(s.drop_last());
        let p = pow256((s.len() - 1) as nat);
        let h = be_nat(s.drop_last());
        let l = s.last() as nat;
        assert(h * 256 + l < 256 * p) by (nonlinear_arith)
            requires
                h < p,
                l < 256,
        ;
    }
}

/// Encoding a number in `n` bytes and reading them back gives the number
/// modulo `256` to the `n`.
pub proof fn lemma_be_nat_of_bytes(v: nat, n: nat)
    ensures
        be_nat(be_bytes(v, n)) == v % pow256(n),
    decreases n,
{
    if n > 0 {
        let rest = be_bytes(v / 256, (n - 1) as nat);
        lemma_be_nat_of_bytes(v / 256, (n - 1) as nat);
        assert(be_bytes(v, n).drop_last() =~= rest);
        lemma_pow256_monotonic(0, (n - 1) as nat);
        lemma_mod_breakdown(v as int, 256, pow256((n - 1) as nat) as int);
    }
}

/// Reading bytes as a number and encoding it back in as many bytes gives
/// the same bytes.
pub proof fn lemma_bytes_of_be_nat(s: Seq<u8>)
    ensures
        be_bytes(be_nat(s), s.len()) == s,
    decreases s.len(),
{
    if s.len() > 0 {
        let h = be_nat(s.drop_last());
        let l = s.last() as nat;
        lemma_fundamental_div_mod_converse((h * 256 + l) as int, 256, h as int, l as int);
        lemma_bytes_of_be_nat(s.drop_last());
        assert(be_bytes(be_nat(s), s.len()) =~= s);
    }
}

/// The powers of `256` that the integer widths use.
pub proof fn lemma_pow256_values()
    ensures
        pow256(1) == 0x100,
        pow256(2) == 0x1_0000,
        pow256(4) == 0x1_0000_0000,
        pow256(8) == 0x1_0000_0000_0000_0000,
{
    reveal_with_fuel(pow256, 9);
}

proof fn lemma_pow256_monotonic(i: nat, j: nat)
    requires
        i <= j,
    ensures
        pow256(i) <= pow256(j),
    decreases j,
{
    if i < j {
        lemma_pow256_monotonic(i, (j - 1) as nat);
    }
}

proof fn lemma_signed_from_bits_8(v: u64)
    by (bit_vector)
    requires
        v < 0x100,
    ensures
        (v as i8) as int == if v >= 0x80 { v - 0x100 } else { v as int },
{
}

proof fn lemma_signed_to_bits_8(v: i8)
    by (bit_vector)
    ensures
        (v as u8 as u64) as int == if v < 0 { v + 0x100 } else { v as int },
{
}

proof fn lemma_signed_from_bits_16(v: u64)
    by (bit_vector)
    requires
        v < 0x10000,
    ensures
        (v as i16) as int == if v >= 0x8000 { v - 0x10000 } else { v as int },
{
}

proof fn lemma_signed_to_bits_16(v: i16)
    by (bit_vector)
    ensures
        (v as u16 as u64) as int == if v < 0 { v + 0x10000 } else { v as int },
{
}

proof fn lemma_signed_from_bits_32(v: u64)
    by (bit_vector)
    requires
        v < 0x100000000,
    ensures
        (v as i32) as int == if v >= 0x80000000 { v - 0x100000000 } else { v as int },
{
}

proof fn lemma_signed_to_bits_32(v: i32)
    by (bit_vector)
    ensures
        (v as u32 as u64) as int == if v < 0 { v + 0x100000000 } else { v as int },
{
}

proof fn lemma_signed_from_bits_64(v: u64)
    by (bit_vector)
    requires
        v < 0x10000000000000000,
    ensures
        (v as i64) as int == if v >= 0x8000000000000000 { v - 0x10000000000000000 } else { v as int },
{
}

proof fn lemma_signed_to_bits_64(v: i64)
    by (bit_vector)
    ensures
        (v as u64 as u64) as int == if v < 0 { v + 0x10000000000000000 } else { v as int },
{
}

/// The cursor `c` after each of `writes` is written, in order.
pub open spec fn put_all(c: CursorView, writes: Seq<Seq<u8>>) -> CursorView
    decreases writes.len(),
{
    if writes.len() == 0 {
        c
    } else {
        put_all(c, writes.drop_last()).put(writes.last())
    }
}

/// The byte strings of `writes` laid end to end.
pub open spec fn concat(writes: Seq<Seq<u8>>) -> Seq<u8>
    decreases writes.len(),
{
    if writes.len() == 0 {
        Seq::empty()
    } else {
        concat(writes.drop_last()) + writes.last()
    }
}

/// Buffer growth: after any sequence of writes, the bytes before the first
/// write are kept, the written bytes follow them in order, the contents grew
/// just enough to hold them, and the read cursor did not move. On a cursor
/// that starts empty, what is readable is then exactly what was written.
pub proof fn lemma_writes_kept(c: CursorView, writes: Seq<Seq<u8>>)
    requires
        c.wf(),
    ensures
        ({
            let r = put_all(c, writes);
            &&& r.wf()
            &&& r.read_pos == c.read_pos
            &&& r.write_pos == c.write_pos + concat(writes).len()
            &&& r.bytes.len() == if c.bytes.len() <= r.write_pos {
                r.write_pos
            } else {
                c.bytes.len()
            }
            &&& r.bytes.subrange(0, c.write_pos as int) == c.bytes.subrange(0, c.write_pos as int)
            &&& r.bytes.subrange(c.write_pos as int, r.write_pos as int) == concat(writes)
            &&& (c.bytes.len() == 0 ==> r.bytes == concat(writes) && r.readable() == concat(
                writes,
            ).len())
        }),
    decreases writes.len(),
{
    let r = put_all(c, writes);
    if writes.len() == 0 {
        assert(c.bytes.subrange(c.write_pos as int, c.write_pos as int) =~= Seq::<u8>::empty());
        assert(c.bytes.len() == 0 ==> c.bytes =~= Seq::<u8>::empty());
    } else {
        let init = writes.drop_last();
        let p = put_all(c, init);
        let d = writes.last();
        lemma_writes_kept(c, init);
        assert(r.bytes.subrange(0, c.write_pos as int) =~= p.bytes.subrange(0, c.write_pos as int));
        assert(r.bytes.subrange(c.write_pos as int, r.write_pos as int) =~= p.bytes.subrange(
            c.write_pos as int,
            p.write_pos as int,
        ) + d);
        if c.bytes.len() == 0 {
            assert(r.bytes =~= r.bytes.subrange(c.write_pos as int, r.write_pos as int));
        }
    }
}

/// A byte buffer with a read cursor and a write cursor.
pub struct Bytes {
    buffer: Vec<u8>,
    read_pos: usize,
    write_pos: usize,
}

impl View for Bytes {
    type V = CursorView;

    closed spec fn view(&self) -> CursorView {
        CursorView {
            bytes: self.buffer@,
            read_pos: self.read_pos as nat,
            write_pos: self.write_pos as nat,
        }
    }
}

impl Bytes {
    /// Constructs a new byte buffer using the provided vector as the initial contents.
    pub fn new(contents: Vec<u8>) -> (r: Self)
        ensures
            r@ == (CursorView { bytes: contents@, read_pos: 0, write_pos: 0 }),
            r@.wf(),
    {
        Self { buffer: contents, read_pos: 0, write_pos: 0 }
    }

    /// Constructs a new, empty byte buffer with room for `capacity` bytes allocated.
    pub fn with_capacity(capacity: usize) -> (r: Self)
        ensures
            r@ == (CursorView { bytes: Seq::empty(), read_pos: 0, write_pos: 0 }),
            r@.wf(),
    {
        Self { buffer: Vec::with_capacity(capacity), read_pos: 0, write_pos: 0 }
    }

    /// Constructs a new byte buffer of `SIZE` zero bytes.
    pub fn sized<const SIZE: usize>() -> (r: Self)
        ensures
            r@ == (CursorView { bytes: Seq::new(SIZE as nat, |i: int| 0u8), read_pos: 0, write_pos: 0 }),
            r@.wf(),
    {
        let buffer = vec![0u8; SIZE];
        assert(buffer@ =~= Seq::new(SIZE as nat, |i: int| 0u8));
        Self { buffer, read_pos: 0, write_pos: 0 }
    }

    /// Gives up the cursors and returns the whole contents.
    pub fn into_vec(self) -> (r: Vec<u8>)
        ensures
            r@ == self@.bytes,
    {
        self.buffer
    }

    /// The length of the whole contents.
    pub fn len(&self) -> (r: usize)
        ensures
            r == self@.bytes.len(),
    {
        self.buffer.len()
    }

    /// The number of bytes between the read cursor and the end.
    pub fn readable(&self) -> (r: usize)
        requires
            self@.wf(),
        ensures
            r == self@.readable(),
    {
        self.buffer.len() - self.read_pos
    }

    /// The number of bytes between the write cursor and the end.
    pub fn writable(&self) -> (r: usize)
        requires
            self@.wf(),
        ensures
            r == self@.writable(),
    {
        self.buffer.len() - self.write_pos
    }

    /// Moves the read cursor on by `amount`, stopping at the end.
    pub fn advance_read_pos(&mut self, amount: usize)
        requires
            old(self)@.wf(),
        ensures
            final(self)@ == old(self)@.skip_read(amount as nat),
            final(self)@.wf(),
    {
        let readable = self.buffer.len() - self.read_pos;
        let step = if amount <= readable { amount } else { readable };
        self.read_pos = self.read_pos + step;
    }

    /// Moves the write cursor on by `amount`, stopping at the end.
    pub fn advance_write_pos(&mut self, amount: usize)
        requires
            old(self)@.wf(),
        ensures
            final(self)@ == old(self)@.skip_write(amount as nat),
            final(self)@.wf(),
    {
        let writable = self.buffer.len() - self.write_pos;
        let step = if amount <= writable { amount } else { writable };
        self.write_pos = self.write_pos + step;
    }

    /// Reads the `n` bytes at the read cursor as a big-endian number and moves
    /// the cursor past them; leaves everything as it was where fewer remain.
    fn get_be(&mut self, n: usize) -> (r: Result<u64, CursorError>)
        requires
            old(self)@.wf(),
            n <= 8,
        ensures
            final(self)@.wf(),
            match r {
                Ok(v) => {
                    &&& old(self)@.readable() >= n
                    &&& v as nat == be_nat(old(self)@.peek(n as nat))
                    &&& v < pow256(n as nat)
                    &&& final(self)@ == old(self)@.skip_read(n as nat)
                },
                Err(e) => {
                    &&& old(self)@.readable() < n
                    &&& e == CursorError::UnexpectedEof
                    &&& final(self)@ == old(self)@
                },
            },
    {
        let pos = self.read_pos;
        if self.buffer.len() - pos < n {
            return Err(CursorError::UnexpectedEof);
        }
        let mut acc: u64 = 0;
        let mut i: usize = 0;
        while i < n
            invariant
                i <= n <= 8,
                pos + n <= self.buffer.len(),
                acc as nat == be_nat(self.buffer@.subrange(pos as int, pos + i)),
                acc < pow256(i as nat),
            decreases n - i,
        {
            let b = self.buffer[pos + i];
            proof {
                let prefix = self.buffer@.subrange(pos as int, pos + i + 1);
                assert(prefix.drop_last() =~= self.buffer@.subrange(pos as int, pos + i));
                let p = pow256(i as nat);
                assert(acc * 256 + b < 256 * p) by (nonlinear_arith)
                    requires
                        acc < p,
                        b < 256,
                ;
                lemma_pow256_monotonic((i + 1) as nat, 8);
                lemma_pow256_values();
            }
            acc = acc * 256 + b as u64;
            i = i + 1;
        }
        self.read_pos = pos + n;
        Ok(acc)
    }

    /// Writes `data` at the write cursor and moves the cursor past it,
    /// extending the contents where they are too short. Where they must grow,
    /// room is first reserved for at least twice what they hold, so that a
    /// run of writes reallocates only a logarithmic number of times.
    fn put_bytes(&mut self, data: &[u8])
        requires
            old(self)@.wf(),
            old(self)@.write_pos + data@.len() <= usize::MAX,
        ensures
            final(self)@ == old(self)@.put(data@),
            final(self)@.wf(),
    {
        let pos = self.write_pos;
        let len = self.buffer.len();
        let end = pos + data.len();
        if end > len {
            let need = end - len;
            self.buffer.reserve(if len > need { len } else { need });
        }
        let mut j: usize = 0;
        while j < data.len()
            invariant
                j <= data@.len(),
                pos == self.write_pos,
                pos <= len,
                end == pos + data@.len(),
                self.read_pos == old(self).read_pos,
                len == old(self)@.bytes.len(),
                self.buffer@ == splice(old(self)@.bytes, pos as nat, data@.subrange(0, j as int)),
            decreases data.len() - j,
        {
            proof {
                assert(data@.subrange(0, j + 1) =~= data@.subrange(0, j as int).push(data@[j as int]));
            }
            if pos + j < self.buffer.len() {
                self.buffer.set(pos + j, data[j]);
            } else {
                self.buffer.push(data[j]);
            }
            assert(self.buffer@ =~= splice(old(self)@.bytes, pos as nat, data@.subrange(0, j + 1)));
            j = j + 1;
        }
        assert(data@.subrange(0, data@.len() as int) =~= data@);
        self.write_pos = end;
    }

    /// Reads an unsigned byte at the read cursor and moves the cursor on by `1`;
    /// fails and leaves the cursor where it is if no byte remains.
    pub fn get_u8(&mut self) -> (r: Result<u8, CursorError>)
        requires
            old(self)@.wf(),
        ensures
            final(self)@.wf(),
            match r {
                Ok(v) => {
                    &&& old(self)@.readable() >= 1
                    &&& v as nat == be_nat(old(self)@.peek(1))
                    &&& final(self)@ == old(self)@.skip_read(1)
                },
                Err(e) => {
                    &&& old(self)@.readable() < 1
                    &&& e == CursorError::UnexpectedEof
                    &&& final(self)@ == old(self)@
                },
            },
    {
        match self.get_be(1) {
            Ok(v) => {
                proof {
                    lemma_pow256_values();
                }
                Ok(v as u8)
            },
            Err(e) => Err(e),
        }
    }

    /// Reads a signed byte at the read cursor and moves the cursor on by `1`;
    /// fails and leaves the cursor where it is if no byte remains.
    pub fn get_i8(&mut self) -> (r: Result<i8, CursorError>)
        requires
            old(self)@.wf(),
        ensures
            final(self)@.wf(),
            match r {
                Ok(v) => {
                    &&& old(self)@.readable() >= 1
                    &&& v as int == be_int(old(self)@.peek(1))
                    &&& final(self)@ == old(self)@.skip_read(1)
                },
                Err(e) => {
                    &&& old(self)@.readable() < 1
                    &&& e == CursorError::UnexpectedEof
                    &&& final(self)@ == old(self)@
                },
            },
    {
        match self.get_be(1) {
            Ok(v) => {
                proof {
                    lemma_pow256_values();
                    lemma_signed_from_bits_8(v);
                }
                Ok(v as i8)
            },
            Err(e) => Err(e),
        }
    }

    /// Reads a signed short at the read cursor, most significant byte first, and moves
    /// the cursor on by `2`; fails and leaves the cursor where it is if fewer
    /// than `2` bytes remain.
    pub fn get_i16(&mut self) -> (r: Result<i16, CursorError>)
        requires
            old(self)@.wf(),
        ensures
            final(self)@.wf(),
            match r {
                Ok(v) => {
                    &&& old(self)@.readable() >= 2
                    &&& v as int == be_int(old(self)@.peek(2))
                    &&& final(self)@ == old(self)@.skip_read(2)
                },
                Err(e) => {
                    &&& old(self)@.readable() < 2
                    &&& e == CursorError::UnexpectedEof
                    &&& final(self)@ == old(self)@
                },
            },
    {
        match self.get_be(2) {
            Ok(v) => {
                proof {
                    lemma_pow256_values();
                    lemma_signed_from_bits_16(v);
                }
                Ok(v as i16)
            },
            Err(e) => Err(e),
        }
    }

    /// Reads an unsigned short at the read cursor, most significant byte first, and moves
    /// the cursor on by `2`; fails and leaves the cursor where it is if fewer
    /// than `2` bytes remain.
    pub fn get_u16(&mut self) -> (r: Result<u16, CursorError>)
        requires
            old(self)@.wf(),
        ensures
            final(self)@.wf(),
            match r {
                Ok(v) => {
                    &&& old(self)@.readable() >= 2
                    &&& v as nat == be_nat(old(self)@.peek(2))
                    &&& final(self)@ == old(self)@.skip_read(2)
                },
                Err(e) => {
                    &&& old(self)@.readable() < 2
                    &&& e == CursorError::UnexpectedEof
                    &&& final(self)@ == old(self)@
                },
            },
    {
        match self.get_be(2) {
            Ok(v) => {
                proof {
                    lemma_pow256_values();
                }
                Ok(v as u16)
            },
            Err(e) => Err(e),
        }
    }

    /// Reads a signed int at the read cursor, most significant byte first, and moves
    /// the cursor on by `4`; fails and leaves the cursor where it is if fewer
    /// than `4` bytes remain.
    pub fn get_i32(&mut self) -> (r: Result<i32, CursorError>)
        requires
            old(self)@.wf(),
        ensures
            final(self)@.wf(),
            match r {
                Ok(v) => {
                    &&& old(self)@.readable() >= 4
                    &&& v as int == be_int(old(self)@.peek(4))
                    &&& final(self)@ == old(self)@.skip_read(4)
                },
                Err(e) => {
                    &&& old(self)@.readable() < 4
                    &&& e == CursorError::UnexpectedEof
                    &&& final(self)@ == old(self)@
                },
            },
    {
        match self.get_be(4) {
            Ok(v) => {
                proof {
                    lemma_pow256_values();
                    lemma_signed_from_bits_32(v);
                }
                Ok(v as i32)
            },
            Err(e) => Err(e),
        }
    }

    /// Reads an unsigned int at the read cursor, most significant byte first, and moves
    /// the cursor on by `4`; fails and leaves the cursor where it is if fewer
    /// than `4` bytes remain.
    pub fn get_u32(&mut self) -> (r: Result<u32, CursorError>)
        requires
            old(self)@.wf(),
        ensures
            final(self)@.wf(),
            match r {
                Ok(v) => {
                    &&& old(self)@.readable() >= 4
                    &&& v as nat == be_nat(old(self)@.peek(4))
                    &&& final(self)@ == old(self)@.skip_read(4)
                },
                Err(e) => {
                    &&& old(self)@.readable() < 4
                    &&& e == CursorError::UnexpectedEof
                    &&& final(self)@ == old(self)@
                },
            },
    {
        match self.get_be(4) {
            Ok(v) => {
                proof {
                    lemma_pow256_values();
                }
                Ok(v as u32)
            },
            Err(e) => Err(e),
        }
    }

    /// Reads a signed long at the read cursor, most significant byte first, and moves
    /// the cursor on by `8`; fails and leaves the cursor where it is if fewer
    /// than `8` bytes remain.
    pub fn get_i64(&mut self) -> (r: Result<i64, CursorError>)
        requires
            old(self)@.wf(),
        ensures
            final(self)@.wf(),
            match r {
                Ok(v) => {
                    &&& old(self)@.readable() >= 8
                    &&& v as int == be_int(old(self)@.peek(8))
                    &&& final(self)@ == old(self)@.skip_read(8)
                },
                Err(e) => {
                    &&& old(self)@.readable() < 8
                    &&& e == CursorError::UnexpectedEof
                    &&& final(self)@ == old(self)@
                },
            },
    {
        match self.get_be(8) {
            Ok(v) => {
                proof {
                    lemma_pow256_values();
                    lemma_signed_from_bits_64(v);
                }
                Ok(v as i64)
            },
            Err(e) => Err(e),
        }
    }

    /// Reads an unsigned long at the read cursor, most significant byte first, and moves
    /// the cursor on by `8`; fails and leaves the cursor where it is if fewer
    /// than `8` bytes remain.
    pub fn get_u64(&mut self) -> (r: Result<u64, CursorError>)
        requires
            old(self)@.wf(),
        ensures
            final(self)@.wf(),
            match r {
                Ok(v) => {
                    &&& old(self)@.readable() >= 8
                    &&& v as nat == be_nat(old(self)@.peek(8))
                    &&& final(self)@ == old(self)@.skip_read(8)
                },
                Err(e) => {
                    &&& old(self)@.readable() < 8
                    &&& e == CursorError::UnexpectedEof
                    &&& final(self)@ == old(self)@
                },
            },
    {
        match self.get_be(8) {
            Ok(v) => {
                proof {
                    lemma_pow256_values();
                }
                Ok(v as u64)
            },
            Err(e) => Err(e),
        }
    }

    /// Writes an unsigned byte at the write cursor, and
    /// moves the cursor on by `1`, extending the contents where they end.
    pub fn put_u8(&mut self, value: u8)
        requires
            old(self)@.wf(),
            old(self)@.write_pos + 1 <= usize::MAX,
        ensures
            final(self)@ == old(self)@.put(be_bytes(value as nat, 1)),
            final(self)@.wf(),
    {
        let data = be_encode(value as u64, 1);
        self.put_bytes(data.as_slice());
    }

    /// Writes a signed byte at the write cursor, and
    /// moves the cursor on by `1`, extending the contents where they end.
    pub fn put_i8(&mut self, value: i8)
        requires
            old(self)@.wf(),
            old(self)@.write_pos + 1 <= usize::MAX,
        ensures
            final(self)@ == old(self)@.put(be_bytes(twos_complement(value as int, 1), 1)),
            final(self)@.wf(),
    {
        proof {
            lemma_pow256_values();
            lemma_signed_to_bits_8(value);
        }
        let data = be_encode(value as u8 as u64, 1);
        self.put_bytes(data.as_slice());
    }

    /// Writes a signed short at the write cursor, most significant byte first, and
    /// moves the cursor on by `2`, extending the contents where they end.
    pub fn put_i16(&mut self, value: i16)
        requires
            old(self)@.wf(),
            old(self)@.write_pos + 2 <= usize::MAX,
        ensures
            final(self)@ == old(self)@.put(be_bytes(twos_complement(value as int, 2), 2)),
            final(self)@.wf(),
    {
        proof {
            lemma_pow256_values();
            lemma_signed_to_bits_16(value);
        }
        let data = be_encode(value as u16 as u64, 2);
        self.put_bytes(data.as_slice());
    }

    /// Writes an unsigned short at the write cursor, most significant byte first, and
    /// moves the cursor on by `2`, extending the contents where they end.
    pub fn put_u16(&mut self, value: u16)
        requires
            old(self)@.wf(),
            old(self)@.write_pos + 2 <= usize::MAX,
        ensures
            final(self)@ == old(self)@.put(be_bytes(value as nat, 2)),
            final(self)@.wf(),
    {
        let data = be_encode(value as u64, 2);
        self.put_bytes(data.as_slice());
    }

    /// Writes a signed int at the write cursor, most significant byte first, and
    /// moves the cursor on by `4`, extending the contents where they end.
    pub fn put_i32(&mut self, value: i32)
        requires
            old(self)@.wf(),
            old(self)@.write_pos + 4 <= usize::MAX,
        ensures
            final(self)@ == old(self)@.put(be_bytes(twos_complement(value as int, 4), 4)),
            final(self)@.wf(),
    {
        proof {
            lemma_pow256_values();
            lemma_signed_to_bits_32(value);
        }
        let data = be_encode(value as u32 as u64, 4);
        self.put_bytes(data.as_slice());
    }

    /// Writes an unsigned int at the write cursor, most significant byte first, and
    /// moves the cursor on by `4`, extending the contents where they end.
    pub fn put_u32(&mut self, value: u32)
        requires
            old(self)@.wf(),
            old(self)@.write_pos + 4 <= usize::MAX,
        ensures
            final(self)@ == old(self)@.put(be_bytes(value as nat, 4)),
            final(self)@.wf(),
    {
        let data = be_encode(value as u64, 4);
        self.put_bytes(data.as_slice());
    }

    /// Writes an unsigned long at the write cursor, most significant byte first, and
    /// moves the cursor on by `8`, extending the contents where they end.
    pub fn put_u64(&mut self, value: u64)
        requires
            old(self)@.wf(),
            old(self)@.write_pos + 8 <= usize::MAX,
        ensures
            final(self)@ == old(self)@.put(be_bytes(value as nat, 8)),
            final(self)@.wf(),
    {
        let data = be_encode(value as u64, 8);
        self.put_bytes(data.as_slice());
    }
}

impl core::ops::Deref for Bytes {
    type Target = [u8];

    /// The whole contents, whatever the cursors.
    fn deref(&self) -> (r: &[u8])
        ensures
            r@ == self@.bytes,
    {
        self.buffer.as_slice()
    }
}

} // verus!

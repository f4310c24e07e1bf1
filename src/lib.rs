//! The XTEA block cipher over 64-bit blocks, and the byte cursor it reads
//! from and writes to.
use vstd::prelude::*;

pub mod bytes;

use crate::bytes::{
    be_bytes, be_nat, lemma_be_bytes_len, lemma_be_nat_bound, lemma_be_nat_of_bytes,
    lemma_bytes_of_be_nat, lemma_pow256_values, Bytes, CursorError,
};
use vstd::arithmetic::div_mod::{lemma_add_mod_noop, lemma_small_mod};

verus! {

/// The key schedule constant, the integer part of `2^32` divided by the golden ratio.
pub const DELTA: u32 = 0x9E3779B9;

/// The number of rounds applied unless another is chosen.
pub const DEFAULT_ROUNDS: u32 = 32;

/// The value one half of the block contributes to an update of the other.
pub open spec fn mix(v: u32) -> u32 {
    ((v << 4u32) ^ (v >> 5u32)).wrapping_add(v)
}

/// One round of encipherment on the state `(v0, v1, sum)`.
pub open spec fn encipher_round(key: Seq<u32>, s: (u32, u32, u32)) -> (u32, u32, u32) {
    let v0 = s.0.wrapping_add(mix(s.1) ^ s.2.wrapping_add(key[(s.2 & 3u32) as int]));
    let sum = s.2.wrapping_add(DELTA);
    let v1 = s.1.wrapping_add(mix(v0) ^ sum.wrapping_add(key[((sum >> 11u32) & 3u32) as int]));
    (v0, v1, sum)
}

/// One round of decipherment on the state `(v0, v1, sum)`: the steps of
/// [`encipher_round`] undone in reverse order.
pub open spec fn decipher_round(key: Seq<u32>, s: (u32, u32, u32)) -> (u32, u32, u32) {
    let v1 = s.1.wrapping_sub(mix(s.0) ^ s.2.wrapping_add(key[((s.2 >> 11u32) & 3u32) as int]));
    let sum = s.2.wrapping_sub(DELTA);
    let v0 = s.0.wrapping_sub(mix(v1) ^ sum.wrapping_add(key[(sum & 3u32) as int]));
    (v0, v1, sum)
}

/// `n` rounds of encipherment from the state `s`.
pub open spec fn encipher_rounds(key: Seq<u32>, n: nat, s: (u32, u32, u32)) -> (u32, u32, u32)
    decreases n,
{
    if n == 0 {
        s
    } else {
        encipher_round(key, encipher_rounds(key, (n - 1) as nat, s))
    }
}

/// `n` rounds of decipherment from the state `s`.
pub open spec fn decipher_rounds(key: Seq<u32>, n: nat, s: (u32, u32, u32)) -> (u32, u32, u32)
    decreases n,
{
    if n == 0 {
        s
    } else {
        decipher_rounds(key, (n - 1) as nat, decipher_round(key, s))
    }
}

/// The block `(v0, v1)` enciphered in `rounds` rounds, the sum starting at zero.
pub open spec fn encipher_words(key: Seq<u32>, rounds: u32, v0: u32, v1: u32) -> (u32, u32) {
    let s = encipher_rounds(key, rounds as nat, (v0, v1, 0u32));
    (s.0, s.1)
}

/// The block `(v0, v1)` deciphered in `rounds` rounds, the sum starting at
/// `DELTA * rounds`.
pub open spec fn decipher_words(key: Seq<u32>, rounds: u32, v0: u32, v1: u32) -> (u32, u32) {
    let s = decipher_rounds(key, rounds as nat, (v0, v1, DELTA.wrapping_mul(rounds)));
    (s.0, s.1)
}

/// The two words of an 8-byte block, each most significant byte first.
pub open spec fn block_words(b: Seq<u8>) -> (u32, u32) {
    (be_nat(b.subrange(0, 4)) as u32, be_nat(b.subrange(4, 8)) as u32)
}

/// The 8-byte block of two words, each most significant byte first.
pub open spec fn words_block(w: (u32, u32)) -> Seq<u8> {
    be_bytes(w.0 as nat, 4) + be_bytes(w.1 as nat, 4)
}

/// The 8-byte block `b` enciphered, or deciphered where `decrypt` holds.
pub open spec fn transform_block(key: Seq<u32>, rounds: u32, decrypt: bool, b: Seq<u8>) -> Seq<u8> {
    let w = block_words(b);
    words_block(
        if decrypt {
            decipher_words(key, rounds, w.0, w.1)
        } else {
            encipher_words(key, rounds, w.0, w.1)
        },
    )
}

/// The first `n` 8-byte blocks of `input`, each transformed on its own and
/// laid end to end.
pub open spec fn transform_blocks(
    key: Seq<u32>,
    rounds: u32,
    decrypt: bool,
    input: Seq<u8>,
    n: nat,
) -> Seq<u8>
    decreases n,
{
    if n == 0 {
        Seq::empty()
    } else {
        transform_blocks(key, rounds, decrypt, input, (n - 1) as nat) + transform_block(
            key,
            rounds,
            decrypt,
            input.subrange(8 * (n - 1), (8 * n) as int),
        )
    }
}

/// Every whole 8-byte block of `input` enciphered; trailing bytes are left out.
pub open spec fn xtea_encipher(key: Seq<u32>, rounds: u32, input: Seq<u8>) -> Seq<u8> {
    transform_blocks(key, rounds, false, input, input.len() / 8)
}

/// Every whole 8-byte block of `input` deciphered; trailing bytes are left out.
pub open spec fn xtea_decipher(key: Seq<u32>, rounds: u32, input: Seq<u8>) -> Seq<u8> {
    transform_blocks(key, rounds, true, input, input.len() / 8)
}

/// Each transformed block is 8 bytes long.
pub proof fn lemma_transform_blocks_len(
    key: Seq<u32>,
    rounds: u32,
    decrypt: bool,
    input: Seq<u8>,
    n: nat,
)
    ensures
        transform_blocks(key, rounds, decrypt, input, n).len() == 8 * n,
    decreases n,
{
    if n > 0 {
        lemma_transform_blocks_len(key, rounds, decrypt, input, (n - 1) as nat);
        let b = input.subrange(8 * (n - 1), (8 * n) as int);
        let w = block_words(b);
        lemma_be_bytes_len(encipher_words(key, rounds, w.0, w.1).0 as nat, 4);
        lemma_be_bytes_len(encipher_words(key, rounds, w.0, w.1).1 as nat, 4);
        lemma_be_bytes_len(decipher_words(key, rounds, w.0, w.1).0 as nat, 4);
        lemma_be_bytes_len(decipher_words(key, rounds, w.0, w.1).1 as nat, 4);
    }
}

/// A round of decipherment undoes a round of encipherment.
pub proof fn lemma_round_inverse(key: Seq<u32>, s: (u32, u32, u32))
    ensures
        decipher_round(key, encipher_round(key, s)) == s,
{
}

/// `n` rounds of decipherment undo `n` rounds of encipherment.
pub proof fn lemma_rounds_inverse(key: Seq<u32>, n: nat, s: (u32, u32, u32))
    ensures
        decipher_rounds(key, n, encipher_rounds(key, n, s)) == s,
    decreases n,
{
    if n > 0 {
        let prev = encipher_rounds(key, (n - 1) as nat, s);
        lemma_round_inverse(key, prev);
        lemma_rounds_inverse(key, (n - 1) as nat, s);
    }
}

/// After `n` rounds of encipherment from a sum of zero the sum is `DELTA * n`,
/// modulo `2^32`.
pub proof fn lemma_sum_after_rounds(key: Seq<u32>, n: nat, v0: u32, v1: u32)
    ensures
        encipher_rounds(key, n, (v0, v1, 0u32)).2 as nat == (DELTA as nat * n) % 0x1_0000_0000,
    decreases n,
{
    if n > 0 {
        lemma_sum_after_rounds(key, (n - 1) as nat, v0, v1);
        let m: int = 0x1_0000_0000;
        let prev = (DELTA as nat * (n - 1) as nat) as int;
        lemma_add_mod_noop(prev, DELTA as int, m);
        lemma_small_mod(DELTA as nat, m as nat);
        assert(prev + DELTA as int == DELTA as nat * n) by (nonlinear_arith)
            requires
                prev == DELTA as nat * (n - 1) as nat,
                n > 0,
        ;
    }
}

/// Deciphering a block enciphered under the same key and rounds gives it back.
pub proof fn lemma_words_round_trip(key: Seq<u32>, rounds: u32, v0: u32, v1: u32)
    ensures
        ({
            let e = encipher_words(key, rounds, v0, v1);
            decipher_words(key, rounds, e.0, e.1) == (v0, v1)
        }),
{
    let s = encipher_rounds(key, rounds as nat, (v0, v1, 0u32));
    lemma_sum_after_rounds(key, rounds as nat, v0, v1);
    assert(s.2 == DELTA.wrapping_mul(rounds));
    lemma_rounds_inverse(key, rounds as nat, (v0, v1, 0u32));
}

/// Reading the words of a block written from two words gives those words.
proof fn lemma_block_words_of_words(w: (u32, u32))
    ensures
        block_words(words_block(w)) == w,
{
    let b = words_block(w);
    lemma_be_bytes_len(w.0 as nat, 4);
    lemma_be_bytes_len(w.1 as nat, 4);
    assert(b.subrange(0, 4) =~= be_bytes(w.0 as nat, 4));
    assert(b.subrange(4, 8) =~= be_bytes(w.1 as nat, 4));
    lemma_be_nat_of_bytes(w.0 as nat, 4);
    lemma_be_nat_of_bytes(w.1 as nat, 4);
    lemma_pow256_values();
}

/// Writing the words read from an 8-byte block gives the block.
proof fn lemma_words_of_block(b: Seq<u8>)
    requires
        b.len() == 8,
    ensures
        words_block(block_words(b)) == b,
{
    let (h, l) = (b.subrange(0, 4), b.subrange(4, 8));
    lemma_be_nat_bound(h);
    lemma_be_nat_bound(l);
    lemma_pow256_values();
    lemma_bytes_of_be_nat(h);
    lemma_bytes_of_be_nat(l);
    assert(words_block(block_words(b)) =~= b);
}

/// Deciphering an enciphered 8-byte block gives it back.
proof fn lemma_block_round_trip(key: Seq<u32>, rounds: u32, b: Seq<u8>)
    requires
        b.len() == 8,
    ensures
        transform_block(key, rounds, true, transform_block(key, rounds, false, b)) == b,
{
    let w = block_words(b);
    let e = encipher_words(key, rounds, w.0, w.1);
    lemma_block_words_of_words(e);
    lemma_words_round_trip(key, rounds, w.0, w.1);
    lemma_words_of_block(b);
}

/// Block `j` of the result is block `j` of the input, transformed.
pub proof fn lemma_transform_blocks_at(
    key: Seq<u32>,
    rounds: u32,
    decrypt: bool,
    input: Seq<u8>,
    n: nat,
    j: nat,
)
    requires
        j < n,
    ensures
        transform_blocks(key, rounds, decrypt, input, n).subrange(8 * j as int, 8 * j as int + 8)
            == transform_block(key, rounds, decrypt, input.subrange(8 * j as int, 8 * j as int + 8)),
    decreases n,
{
    let prev = transform_blocks(key, rounds, decrypt, input, (n - 1) as nat);
    let all = transform_blocks(key, rounds, decrypt, input, n);
    lemma_transform_blocks_len(key, rounds, decrypt, input, (n - 1) as nat);
    lemma_transform_blocks_len(key, rounds, decrypt, input, n);
    if j == n - 1 {
        assert(all.subrange(8 * j as int, 8 * j as int + 8) =~= transform_block(
            key,
            rounds,
            decrypt,
            input.subrange(8 * j as int, 8 * j as int + 8),
        ));
    } else {
        lemma_transform_blocks_at(key, rounds, decrypt, input, (n - 1) as nat, j);
        assert(all.subrange(8 * j as int, 8 * j as int + 8) =~= prev.subrange(8 * j as int, 8 * j as int + 8));
    }
}

proof fn lemma_decipher_prefix(key: Seq<u32>, rounds: u32, p: Seq<u8>, n: nat, m: nat)
    requires
        m <= n,
        8 * n <= p.len(),
    ensures
        transform_blocks(key, rounds, true, transform_blocks(key, rounds, false, p, n), m)
            == p.subrange(0, 8 * m as int),
    decreases m,
{
    let e = transform_blocks(key, rounds, false, p, n);
    if m == 0 {
        assert(p.subrange(0, 0) =~= Seq::<u8>::empty());
    } else {
        let j = (m - 1) as nat;
        lemma_decipher_prefix(key, rounds, p, n, j);
        lemma_transform_blocks_at(key, rounds, false, p, n, j);
        lemma_block_round_trip(key, rounds, p.subrange(8 * j as int, 8 * j as int + 8));
        assert(p.subrange(0, 8 * m as int) =~= p.subrange(0, 8 * j as int) + p.subrange(8 * j as int, 8 * j as int + 8));
    }
}

/// Round trip: deciphering what was enciphered under the same key and number
/// of rounds gives back a plaintext whose length is a multiple of 8.
pub proof fn lemma_round_trip(key: Seq<u32>, rounds: u32, p: Seq<u8>)
    requires
        p.len() % 8 == 0,
    ensures
        xtea_decipher(key, rounds, xtea_encipher(key, rounds, p)) == p,
{
    let n = p.len() / 8;
    let e = xtea_encipher(key, rounds, p);
    lemma_transform_blocks_len(key, rounds, false, p, n);
    assert(e.len() / 8 == n);
    lemma_decipher_prefix(key, rounds, p, n, n);
    assert(p.subrange(0, 8 * n as int) =~= p);
}

proof fn lemma_key_index(x: u32)
    by (bit_vector)
    ensures
        x & 3u32 < 4u32,
        (x >> 11u32) & 3u32 < 4u32,
{
}

/// What an [`Xtea`] holds: a key of four words and a number of rounds.
pub ghost struct XteaView {
    pub key: Seq<u32>,
    pub rounds: u32,
}

/// The XTEA block cipher under a 128-bit key, applied to data in 64-bit blocks.
#[derive(Debug)]
pub struct Xtea {
    key: [u32; 4],
    rounds: u32,
}

impl View for Xtea {
    type V = XteaView;

    closed spec fn view(&self) -> XteaView {
        XteaView { key: self.key@, rounds: self.rounds }
    }
}

impl Xtea {
    /// A cipher under the key of four words `key`, with the default number of rounds.
    pub fn using_key(key: [u32; 4]) -> (r: Self)
        ensures
            r@ == (XteaView { key: key@, rounds: DEFAULT_ROUNDS }),
            r@.key.len() == 4,
    {
        Self { key, rounds: DEFAULT_ROUNDS }
    }

    /// The same cipher with `rounds` rounds in place of the default.
    pub fn with_rounds(self, rounds: u32) -> (r: Self)
        ensures
            r@ == (XteaView { key: self@.key, rounds }),
            r@.key.len() == 4,
    {
        let mut this = self;
        this.rounds = rounds;
        this
    }

    /// Enciphers every whole 8-byte block of `input`; bytes past the last
    /// whole block are not part of the result.
    pub fn encipher(&self, input: &[u8]) -> (r: Result<Vec<u8>, CursorError>)
        ensures
            match r {
                Ok(out) => out@ == xtea_encipher(self@.key, self@.rounds, input@),
                Err(_) => false,
            },
    {
        self.do_block_cipher(input, false)
    }

    /// Deciphers every whole 8-byte block of `input`; bytes past the last
    /// whole block are not part of the result.
    pub fn decipher(&self, input: &[u8]) -> (r: Result<Vec<u8>, CursorError>)
        ensures
            match r {
                Ok(out) => out@ == xtea_decipher(self@.key, self@.rounds, input@),
                Err(_) => false,
            },
    {
        self.do_block_cipher(input, true)
    }

    fn encipher_block(&self, input: &[u32; 2], output: &mut [u32; 2])
        ensures
            final(output)@ == seq![
                encipher_words(self@.key, self@.rounds, input@[0], input@[1]).0,
                encipher_words(self@.key, self@.rounds, input@[0], input@[1]).1,
            ],
    {
        let mut v0 = input[0];
        let mut v1 = input[1];
        let mut sum: u32 = 0;
        let mut i: u32 = 0;
        while i < self.rounds
            invariant
                i <= self.rounds,
                (v0, v1, sum) == encipher_rounds(self.key@, i as nat, (input@[0], input@[1], 0u32)),
            decreases self.rounds - i,
        {
            proof {
                lemma_key_index(sum);
                lemma_key_index(sum.wrapping_add(DELTA));
            }
            v0 = v0.wrapping_add(
                (((v1 << 4) ^ (v1 >> 5)).wrapping_add(v1)) ^ (sum.wrapping_add(
                    self.key[(sum & 3) as usize],
                )),
            );
            sum = sum.wrapping_add(DELTA);
            v1 = v1.wrapping_add(
                (((v0 << 4) ^ (v0 >> 5)).wrapping_add(v0)) ^ (sum.wrapping_add(
                    self.key[((sum >> 11) & 3) as usize],
                )),
            );
            i = i + 1;
        }
        output[0] = v0;
        output[1] = v1;
        assert(output@ =~= seq![v0, v1]);
    }

    fn decipher_block(&self, input: &[u32; 2], output: &mut [u32; 2])
        ensures
            final(output)@ == seq![
                decipher_words(self@.key, self@.rounds, input@[0], input@[1]).0,
                decipher_words(self@.key, self@.rounds, input@[0], input@[1]).1,
            ],
    {
        let mut v0 = input[0];
        let mut v1 = input[1];
        let mut sum = DELTA.wrapping_mul(self.rounds);
        let ghost start = (v0, v1, sum);
        let mut i: u32 = 0;
        while i < self.rounds
            invariant
                i <= self.rounds,
                decipher_rounds(self.key@, (self.rounds - i) as nat, (v0, v1, sum))
                    == decipher_rounds(self.key@, self.rounds as nat, start),
            decreases self.rounds - i,
        {
            proof {
                lemma_key_index(sum);
                lemma_key_index(sum.wrapping_sub(DELTA));
            }
            v1 = v1.wrapping_sub(
                (((v0 << 4) ^ (v0 >> 5)).wrapping_add(v0)) ^ (sum.wrapping_add(
                    self.key[((sum >> 11) & 3) as usize],
                )),
            );
            sum = sum.wrapping_sub(DELTA);
            v0 = v0.wrapping_sub(
                (((v1 << 4) ^ (v1 >> 5)).wrapping_add(v1)) ^ (sum.wrapping_add(
                    self.key[(sum & 3) as usize],
                )),
            );
            i = i + 1;
        }
        output[0] = v0;
        output[1] = v1;
        assert(output@ =~= seq![v0, v1]);
    }

    fn do_block_cipher(&self, input: &[u8], decrypt: bool) -> (r: Result<Vec<u8>, CursorError>)
        ensures
            match r {
                Ok(out) => out@ == transform_blocks(
                    self@.key,
                    self@.rounds,
                    decrypt,
                    input@,
                    input@.len() / 8,
                ),
                Err(_) => false,
            },
    {
        let mut input_buffer = Bytes::new(vstd::slice::slice_to_vec(input));
        let iterations = input_buffer.readable() / 8;
        let mut output_buffer = Bytes::with_capacity(iterations * 8);
        let mut input_slice = [0u32; 2];
        let mut output_slice = [0u32; 2];
        let mut i: usize = 0;
        while i < iterations
            invariant
                input@.len() <= usize::MAX,
                iterations == input@.len() / 8,
                i <= iterations,
                input_buffer@.wf(),
                input_buffer@.bytes == input@,
                input_buffer@.read_pos == 8 * i,
                output_buffer@.wf(),
                output_buffer@.write_pos == 8 * i,
                output_buffer@.bytes == transform_blocks(self@.key, self@.rounds, decrypt, input@, i as nat),
            decreases iterations - i,
        {
            let ghost block = input@.subrange(8 * i, 8 * i + 8);
            let ghost before = output_buffer@.bytes;
            proof {
                let n = input@.len();
                assert(8 * i + 8 <= n) by (nonlinear_arith)
                    requires
                        i < n / 8,
                ;
                lemma_transform_blocks_len(self@.key, self@.rounds, decrypt, input@, i as nat);
            }
            assert(input_buffer@.peek(4) == block.subrange(0, 4));
            input_slice[0] = match input_buffer.get_u32() {
                Ok(v) => v,
                Err(e) => return Err(e),
            };
            assert(input_buffer@.peek(4) == block.subrange(4, 8));
            input_slice[1] = match input_buffer.get_u32() {
                Ok(v) => v,
                Err(e) => return Err(e),
            };
            if decrypt {
                self.decipher_block(&input_slice, &mut output_slice);
            } else {
                self.encipher_block(&input_slice, &mut output_slice);
            }
            proof {
                lemma_be_bytes_len(output_slice[0] as nat, 4);
            }
            output_buffer.put_u32(output_slice[0]);
            output_buffer.put_u32(output_slice[1]);
            proof {
                let w = seq![output_slice[0], output_slice[1]];
                lemma_be_bytes_len(w[1] as nat, 4);
                assert(block_words(block) == (input_slice[0], input_slice[1]));
                assert(output_buffer@.bytes =~= before + words_block((w[0], w[1])));
                assert(block =~= input@.subrange(8 * (i + 1 - 1), 8 * (i + 1)));
            }
            i = i + 1;
        }
        Ok(output_buffer.into_vec())
    }
}

/// The first `n` blocks depend only on the first `8 * n` bytes.
proof fn lemma_transform_blocks_prefix(
    key: Seq<u32>,
    rounds: u32,
    decrypt: bool,
    x: Seq<u8>,
    y: Seq<u8>,
    n: nat,
)
    requires
        8 * n <= x.len(),
        8 * n <= y.len(),
        x.subrange(0, 8 * n as int) == y.subrange(0, 8 * n as int),
    ensures
        transform_blocks(key, rounds, decrypt, x, n) == transform_blocks(key, rounds, decrypt, y, n),
    decreases n,
{
    if n > 0 {
        let j = (n - 1) as nat;
        assert(x.subrange(0, 8 * j as int) =~= x.subrange(0, 8 * n as int).subrange(0, 8 * j as int));
        assert(y.subrange(0, 8 * j as int) =~= y.subrange(0, 8 * n as int).subrange(0, 8 * j as int));
        lemma_transform_blocks_prefix(key, rounds, decrypt, x, y, j);
        assert(x.subrange(8 * j as int, 8 * n as int) =~= x.subrange(0, 8 * n as int).subrange(
            8 * j as int,
            8 * n as int,
        ));
        assert(y.subrange(8 * j as int, 8 * n as int) =~= y.subrange(0, 8 * n as int).subrange(
            8 * j as int,
            8 * n as int,
        ));
    }
}

proof fn lemma_transform_blocks_concat(
    key: Seq<u32>,
    rounds: u32,
    decrypt: bool,
    a: Seq<u8>,
    b: Seq<u8>,
    m: nat,
)
    requires
        a.len() % 8 == 0,
        8 * m <= b.len(),
    ensures
        transform_blocks(key, rounds, decrypt, a + b, a.len() / 8 + m) == transform_blocks(
            key,
            rounds,
            decrypt,
            a,
            a.len() / 8,
        ) + transform_blocks(key, rounds, decrypt, b, m),
    decreases m,
{
    let na = a.len() / 8;
    if m == 0 {
        assert((a + b).subrange(0, 8 * na as int) =~= a.subrange(0, 8 * na as int));
        lemma_transform_blocks_prefix(key, rounds, decrypt, a + b, a, na);
        assert(transform_blocks(key, rounds, decrypt, b, 0) =~= Seq::<u8>::empty());
    } else {
        let j = (m - 1) as nat;
        lemma_transform_blocks_concat(key, rounds, decrypt, a, b, j);
        assert((a + b).subrange(8 * (na + j) as int, 8 * (na + m) as int) =~= b.subrange(
            8 * j as int,
            8 * m as int,
        ));
        assert(na + m - 1 == na + j);
    }
}

/// Block independence: where `a` is a whole number of blocks, enciphering `a`
/// followed by `b` gives the encipherment of `a` followed by that of `b`;
/// no block depends on another.
pub proof fn lemma_block_independence(key: Seq<u32>, rounds: u32, a: Seq<u8>, b: Seq<u8>)
    requires
        a.len() % 8 == 0,
    ensures
        xtea_encipher(key, rounds, a + b) == xtea_encipher(key, rounds, a) + xtea_encipher(
            key,
            rounds,
            b,
        ),
        xtea_decipher(key, rounds, a + b) == xtea_decipher(key, rounds, a) + xtea_decipher(
            key,
            rounds,
            b,
        ),
{
    let (la, lb) = (a.len() as int, b.len() as int);
    assert((la + lb) / 8 == la / 8 + lb / 8 && 8 * (lb / 8) <= lb) by (nonlinear_arith)
        requires
            la % 8 == 0,
            la >= 0,
            lb >= 0,
    ;
    lemma_transform_blocks_concat(key, rounds, false, a, b, b.len() / 8);
    lemma_transform_blocks_concat(key, rounds, true, a, b, b.len() / 8);
}

/// Determinism: the result of enciphering or deciphering is fixed by the
/// key, the number of rounds and the input.
pub proof fn lemma_deterministic(c: Xtea, d: Xtea, x: Seq<u8>, y: Seq<u8>)
    requires
        c@ == d@,
        x == y,
    ensures
        xtea_encipher(c@.key, c@.rounds, x) == xtea_encipher(d@.key, d@.rounds, y),
        xtea_decipher(c@.key, c@.rounds, x) == xtea_decipher(d@.key, d@.rounds, y),
{
}

} // verus!

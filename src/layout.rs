//! Byte layout of a record inside a block.
//!
//! ```text
//! [ TTL (8 bytes) ][ KeyLen (2 bytes) ][ ValLen (2 bytes) ][ Key ][ Value ]
//! ```
//!
//! All integers are little-endian.
use vstd::prelude::*;

verus! {

/// Size in bytes of every block of a slab.
pub const BLOCK_SIZE: usize = 512;

/// Offset of the TTL field.
pub const TTL_OFFSET: usize = 0;

/// Width of the TTL field.
pub const TTL_SIZE: usize = 8;

/// Offset of the key length field.
pub const KEY_LEN_OFFSET: usize = 8;

/// Offset of the value length field.
pub const VAL_LEN_OFFSET: usize = 10;

/// Size of the header that precedes the key.
pub const HEADER_SIZE: usize = 12;

/// Largest length that a 16-bit length field can hold.
pub const MAX_FIELD_LEN: usize = 65535;

/// `256` to the power `w`.
pub open spec fn pow256(w: nat) -> nat
    decreases w,
{
    if w == 0 {
        1
    } else {
        256 * pow256((w - 1) as nat)
    }
}

/// The `width` low bytes of `n`, least significant first.
pub open spec fn le_bytes(n: nat, width: nat) -> Seq<u8>
    decreases width,
{
    if width == 0 {
        Seq::empty()
    } else {
        seq![(n % 256) as u8] + le_bytes(n / 256, (width - 1) as nat)
    }
}

/// The number that the little-endian bytes `s` stand for.
pub open spec fn le_value(s: Seq<u8>) -> nat
    decreases s.len(),
{
    if s.len() == 0 {
        0
    } else {
        s[0] as nat + 256 * le_value(s.drop_first())
    }
}

/// `n` zero bytes.
pub open spec fn zeros(n: nat) -> Seq<u8> {
    Seq::new(n, |_i: int| 0u8)
}

/// Whether every byte of `s` is zero.
pub open spec fn is_zeroed(s: Seq<u8>) -> bool {
    forall|k: int| 0 <= k < s.len() ==> s[k] == 0
}

/// Whether a key and a value of these lengths can be stored as one record.
pub open spec fn record_fits(key_len: nat, value_len: nat) -> bool {
    &&& key_len <= MAX_FIELD_LEN
    &&& value_len <= MAX_FIELD_LEN
    &&& HEADER_SIZE + key_len + value_len <= BLOCK_SIZE
}

/// The encoded record: TTL, key length, value length, key, value.
pub open spec fn record_bytes(ttl: u64, key: Seq<u8>, value: Seq<u8>) -> Seq<u8> {
    le_bytes(ttl as nat, 8) + le_bytes(key.len(), 2) + le_bytes(value.len(), 2) + key + value
}

/// A block that holds one record: the record, then zeros up to the block's end.
pub open spec fn block_with_record(ttl: u64, key: Seq<u8>, value: Seq<u8>) -> Seq<u8> {
    record_bytes(ttl, key, value) + zeros((BLOCK_SIZE - (HEADER_SIZE + key.len() + value.len())) as nat)
}

/// The TTL field of block `b`.
pub open spec fn stored_ttl(b: Seq<u8>) -> u64 {
    le_value(b.subrange(TTL_OFFSET as int, (TTL_OFFSET + TTL_SIZE) as int)) as u64
}

/// The key length field of block `b`.
pub open spec fn stored_key_len(b: Seq<u8>) -> nat {
    b[KEY_LEN_OFFSET as int] as nat + 256 * b[KEY_LEN_OFFSET + 1] as nat
}

/// The value length field of block `b`.
pub open spec fn stored_value_len(b: Seq<u8>) -> nat {
    b[VAL_LEN_OFFSET as int] as nat + 256 * b[VAL_LEN_OFFSET + 1] as nat
}

/// Where the value of block `b` ends, by its header.
pub open spec fn stored_end(b: Seq<u8>) -> nat {
    (HEADER_SIZE + stored_key_len(b) + stored_value_len(b)) as nat
}

/// The value that block `b` holds, or `None` where its header points past the block.
pub open spec fn decode_value(b: Seq<u8>) -> Option<Seq<u8>> {
    if stored_end(b) <= BLOCK_SIZE {
        Some(b.subrange(HEADER_SIZE + stored_key_len(b), stored_end(b) as int))
    } else {
        None
    }
}

/// TTL, key and value that block `b` holds, or `None` where its header points past the block.
pub open spec fn decode_meta(b: Seq<u8>) -> Option<(u64, Seq<u8>, Seq<u8>)> {
    if stored_end(b) <= BLOCK_SIZE {
        Some(
            (
                stored_ttl(b),
                b.subrange(HEADER_SIZE as int, HEADER_SIZE + stored_key_len(b)),
                b.subrange(HEADER_SIZE + stored_key_len(b), stored_end(b) as int),
            ),
        )
    } else {
        None
    }
}

/// `s` with the bytes from `at` on replaced by `src`.
pub open spec fn splice(s: Seq<u8>, at: int, src: Seq<u8>) -> Seq<u8> {
    s.subrange(0, at) + src + s.subrange(at + src.len(), s.len() as int)
}

/// Bytes written back to back come out as their concatenation.
pub proof fn lemma_splice_twice(s: Seq<u8>, at: int, a: Seq<u8>, b: Seq<u8>)
    requires
        0 <= at,
        at + a.len() + b.len() <= s.len(),
    ensures
        splice(splice(s, at, a), at + a.len(), b) == splice(s, at, a + b),
{
    assert(splice(splice(s, at, a), at + a.len(), b) =~= splice(s, at, a + b));
}

/// `le_bytes` has the width asked for.
pub proof fn lemma_le_bytes_len(n: nat, w: nat)
    ensures
        le_bytes(n, w).len() == w,
    decreases w,
{
    if w > 0 {
        lemma_le_bytes_len(n / 256, (w - 1) as nat);
    }
}

/// Decoding the little-endian bytes of a number that fits gives the number back.
pub proof fn lemma_le_round_trip(n: nat, w: nat)
    requires
        n < pow256(w),
    ensures
        le_value(le_bytes(n, w)) == n,
    decreases w,
{
    lemma_le_bytes_len(n, w);
    if w > 0 {
        let p = pow256((w - 1) as nat);
        assert(n / 256 < p) by (nonlinear_arith)
            requires
                n < 256 * p,
        ;
        lemma_le_round_trip(n / 256, (w - 1) as nat);
        assert(le_bytes(n, w).drop_first() =~= le_bytes(n / 256, (w - 1) as nat));
    }
}

/// Every number below `2^64` fits in eight bytes.
pub proof fn lemma_pow256_8()
    ensures
        pow256(8) == 0x1_0000_0000_0000_0000,
{
    reveal_with_fuel(pow256, 9);
}

/// A block written with a record that fits decodes to that record.
pub proof fn lemma_decode_block_with_record(ttl: u64, key: Seq<u8>, value: Seq<u8>)
    requires
        record_fits(key.len(), value.len()),
    ensures
        block_with_record(ttl, key, value).len() == BLOCK_SIZE,
        decode_meta(block_with_record(ttl, key, value)) == Some((ttl, key, value)),
        decode_value(block_with_record(ttl, key, value)) == Some(value),
{
    let b = block_with_record(ttl, key, value);
    let t = le_bytes(ttl as nat, 8);
    let kl = le_bytes(key.len(), 2);
    let vl = le_bytes(value.len(), 2);
    lemma_le_bytes_len(ttl as nat, 8);
    lemma_le_bytes_len(key.len(), 2);
    lemma_le_bytes_len(value.len(), 2);
    lemma_pow256_8();
    lemma_le_round_trip(ttl as nat, 8);
    assert(b.subrange(0, 8) =~= t);
    reveal_with_fuel(le_bytes, 3);
    assert(b[8] == kl[0] && b[9] == kl[1]);
    assert(b[10] == vl[0] && b[11] == vl[1]);
    assert(stored_key_len(b) == key.len());
    assert(stored_value_len(b) == value.len());
    assert(b.subrange(12, 12 + key.len() as int) =~= key);
    assert(b.subrange(12 + key.len() as int, 12 + key.len() + value.len() as int) =~= value);
}

/// `pow256` grows with its exponent.
pub proof fn lemma_pow256_mono(a: nat, b: nat)
    requires
        a <= b,
    ensures
        pow256(a) <= pow256(b),
    decreases b,
{
    if a < b {
        lemma_pow256_mono(a, (b - 1) as nat);
    }
}

/// Zero bytes stand for zero.
pub proof fn lemma_le_value_zeros(n: nat)
    ensures
        le_value(zeros(n)) == 0,
    decreases n,
{
    if n > 0 {
        lemma_le_value_zeros((n - 1) as nat);
        assert(zeros(n).drop_first() =~= zeros((n - 1) as nat));
    }
}

/// A zeroed block decodes as TTL `0` with an empty key and an empty value.
pub proof fn lemma_decode_zero_block()
    ensures
        decode_value(zeros(BLOCK_SIZE as nat)) == Some(Seq::<u8>::empty()),
        decode_meta(zeros(BLOCK_SIZE as nat)) == Some((0u64, Seq::<u8>::empty(), Seq::<u8>::empty())),
{
    let b = zeros(BLOCK_SIZE as nat);
    lemma_le_value_zeros(8);
    assert(b.subrange(0, 8) =~= zeros(8));
    assert(b.subrange(12, 12) =~= Seq::<u8>::empty());
}

/// Writes the `width` low bytes of `n`, least significant first, into `buf` at `at`.
pub fn write_le(buf: &mut Vec<u8>, at: usize, n: u64, width: usize)
    requires
        at + width <= old(buf)@.len(),
    ensures
        final(buf)@ == splice(old(buf)@, at as int, le_bytes(n as nat, width as nat)),
{
    let ghost whole = le_bytes(n as nat, width as nat);
    let mut t: u64 = n;
    let mut i: usize = 0;
    while i < width
        invariant
            i <= width,
            at + width <= buf.len(),
            buf@.len() == old(buf)@.len(),
            whole == buf@.subrange(at as int, at + i) + le_bytes(t as nat, (width - i) as nat),
            forall|j: int|
                0 <= j < buf@.len() && !(at <= j < at + i) ==> buf@[j] == old(buf)@[j],
        decreases width - i,
    {
        let ghost before = buf@;
        buf[at + i] = (t % 256) as u8;
        assert(buf@.subrange(at as int, at + i + 1) =~= before.subrange(at as int, at + i) + seq![
            (t % 256) as u8,
        ]);
        assert(le_bytes(t as nat, (width - i) as nat) =~= seq![(t % 256) as u8] + le_bytes(
            (t / 256) as nat,
            (width - i - 1) as nat,
        ));
        t = t / 256;
        i = i + 1;
    }
    proof {
        lemma_le_bytes_len(n as nat, width as nat);
        assert(buf@.subrange(at as int, at + width) == whole);
        assert(buf@ =~= splice(old(buf)@, at as int, whole));
    }
}

/// Copies `src` into `buf` at `at`.
pub fn write_bytes(buf: &mut Vec<u8>, at: usize, src: &[u8])
    requires
        at + src@.len() <= old(buf)@.len(),
    ensures
        final(buf)@ == splice(old(buf)@, at as int, src@),
{
    let mut i: usize = 0;
    while i < src.len()
        invariant
            i <= src@.len(),
            at + src@.len() <= buf.len(),
            buf@.len() == old(buf)@.len(),
            buf@.subrange(at as int, at + i) == src@.subrange(0, i as int),
            forall|j: int|
                0 <= j < buf@.len() && !(at <= j < at + i) ==> buf@[j] == old(buf)@[j],
        decreases src@.len() - i,
    {
        let ghost before = buf@;
        buf[at + i] = src[i];
        assert(buf@.subrange(at as int, at + i + 1) =~= src@.subrange(0, i + 1)) by {
            assert(before.subrange(at as int, at + i) =~= buf@.subrange(at as int, at + i));
        }
        i = i + 1;
    }
    proof {
        assert(src@.subrange(0, src@.len() as int) =~= src@);
        assert(buf@ =~= splice(old(buf)@, at as int, src@));
    }
}

/// Sets the `n` bytes of `buf` from `at` on to zero.
pub fn write_zeros(buf: &mut Vec<u8>, at: usize, n: usize)
    requires
        at + n <= old(buf)@.len(),
    ensures
        final(buf)@ == splice(old(buf)@, at as int, zeros(n as nat)),
{
    let mut i: usize = 0;
    while i < n
        invariant
            i <= n,
            at + n <= buf.len(),
            buf@.len() == old(buf)@.len(),
            forall|j: int| at <= j < at + i ==> buf@[j] == 0,
            forall|j: int|
                0 <= j < buf@.len() && !(at <= j < at + i) ==> buf@[j] == old(buf)@[j],
        decreases n - i,
    {
        buf[at + i] = 0;
        i = i + 1;
    }
    assert(buf@ =~= splice(old(buf)@, at as int, zeros(n as nat)));
}

/// Reads the little-endian `u64` at `at`.
pub fn read_u64_le(buf: &[u8], at: usize) -> (r: u64)
    requires
        at + 8 <= buf@.len(),
    ensures
        r as nat == le_value(buf@.subrange(at as int, at + 8)),
{
    let mut acc: u64 = 0;
    let mut i: usize = 8;
    proof {
        assert(buf@.subrange(at + 8, at + 8).len() == 0);
        reveal_with_fuel(pow256, 1);
    }
    while i > 0
        invariant
            i <= 8,
            at + 8 <= buf.len(),
            acc as nat == le_value(buf@.subrange(at + i, at + 8)),
            acc < pow256((8 - i) as nat),
        decreases i,
    {
        let b = buf[at + i - 1];
        proof {
            lemma_pow256_mono((9 - i) as nat, 8);
            lemma_pow256_8();
            assert(buf@.subrange(at + i - 1, at + 8).drop_first() =~= buf@.subrange(
                at + i,
                at + 8,
            ));
        }
        acc = acc * 256 + b as u64;
        i = i - 1;
    }
    acc
}

/// Reads the little-endian `u16` at `at`, widened.
pub fn read_u16_le(buf: &[u8], at: usize) -> (r: usize)
    requires
        at + 2 <= buf@.len(),
    ensures
        r == buf@[at as int] as nat + 256 * buf@[at + 1] as nat,
{
    buf[at] as usize + 256 * (buf[at + 1] as usize)
}

} // verus!

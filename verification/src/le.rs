//! Little-endian integers in byte sequences.

use vstd::prelude::*;

verus! {

/// Byte `k` of a 64-bit word, the least significant byte being byte 0.
pub open spec fn byte_of(x: u64, k: int) -> u8 {
    if k == 0 {
        (x & 0xff) as u8
    } else if k == 1 {
        ((x >> 8) & 0xff) as u8
    } else if k == 2 {
        ((x >> 16) & 0xff) as u8
    } else if k == 3 {
        ((x >> 24) & 0xff) as u8
    } else if k == 4 {
        ((x >> 32) & 0xff) as u8
    } else if k == 5 {
        ((x >> 40) & 0xff) as u8
    } else if k == 6 {
        ((x >> 48) & 0xff) as u8
    } else {
        ((x >> 56) & 0xff) as u8
    }
}

/// The eight bytes of a word, least significant first.
pub open spec fn u64_bytes(x: u64) -> Seq<u8> {
    Seq::new(8, |k: int| byte_of(x, k))
}

/// The four bytes of a 32-bit word, least significant first.
pub open spec fn u32_bytes(x: u32) -> Seq<u8> {
    Seq::new(4, |k: int| byte_of(x as u64, k))
}

/// The word whose bytes stand at `p..p + 8`.
pub open spec fn u64_at(b: Seq<u8>, p: int) -> u64 {
    (b[p] as u64) | ((b[p + 1] as u64) << 8) | ((b[p + 2] as u64) << 16) | ((b[p + 3] as u64) << 24)
        | ((b[p + 4] as u64) << 32) | ((b[p + 5] as u64) << 40) | ((b[p + 6] as u64) << 48) | ((b[p
        + 7] as u64) << 56)
}

/// The 32-bit word whose bytes stand at `p..p + 4`.
pub open spec fn u32_at(b: Seq<u8>, p: int) -> u32 {
    (b[p] as u32) | ((b[p + 1] as u32) << 8) | ((b[p + 2] as u32) << 16) | ((b[p + 3] as u32) << 24)
}

/// A sequence of words laid out byte by byte.
pub open spec fn words_bytes(words: Seq<u64>) -> Seq<u8> {
    Seq::new(words.len() * 8, |i: int| byte_of(words[i / 8], i % 8))
}

/// The words that a byte sequence holds; bytes after the last whole word are
/// left out.
pub open spec fn bytes_words(bytes: Seq<u8>) -> Seq<u64> {
    Seq::new(bytes.len() / 8, |i: int| u64_at(bytes, 8 * i))
}

/// A word is read back from its bytes.
pub proof fn lemma_u64_read_back(x: u64, b: Seq<u8>, p: int)
    requires
        0 <= p,
        p + 8 <= b.len(),
        forall|k: int| 0 <= k < 8 ==> #[trigger] b[p + k] == byte_of(x, k),
    ensures
        u64_at(b, p) == x,
{
    let (b0, b1, b2, b3) = (b[p], b[p + 1], b[p + 2], b[p + 3]);
    let (b4, b5, b6, b7) = (b[p + 4], b[p + 5], b[p + 6], b[p + 7]);
    assert(b[p + 0] == byte_of(x, 0));
    assert(b1 == byte_of(x, 1) && b2 == byte_of(x, 2) && b3 == byte_of(x, 3));
    assert(b4 == byte_of(x, 4) && b5 == byte_of(x, 5) && b6 == byte_of(x, 6));
    assert(b7 == byte_of(x, 7));
    assert((b0 as u64) | ((b1 as u64) << 8) | ((b2 as u64) << 16) | ((b3 as u64) << 24) | ((
    b4 as u64) << 32) | ((b5 as u64) << 40) | ((b6 as u64) << 48) | ((b7 as u64) << 56) == x)
        by (bit_vector)
        requires
            b0 == (x & 0xff) as u8,
            b1 == ((x >> 8) & 0xff) as u8,
            b2 == ((x >> 16) & 0xff) as u8,
            b3 == ((x >> 24) & 0xff) as u8,
            b4 == ((x >> 32) & 0xff) as u8,
            b5 == ((x >> 40) & 0xff) as u8,
            b6 == ((x >> 48) & 0xff) as u8,
            b7 == ((x >> 56) & 0xff) as u8,
    ;
}

/// A 32-bit word is read back from its bytes.
pub proof fn lemma_u32_read_back(x: u32, b: Seq<u8>, p: int)
    requires
        0 <= p,
        p + 4 <= b.len(),
        forall|k: int| 0 <= k < 4 ==> #[trigger] b[p + k] == byte_of(x as u64, k),
    ensures
        u32_at(b, p) == x,
{
    let (b0, b1, b2, b3) = (b[p], b[p + 1], b[p + 2], b[p + 3]);
    assert(b[p + 0] == byte_of(x as u64, 0));
    assert(b1 == byte_of(x as u64, 1) && b2 == byte_of(x as u64, 2) && b3 == byte_of(x as u64, 3));
    assert((b0 as u32) | ((b1 as u32) << 8) | ((b2 as u32) << 16) | ((b3 as u32) << 24) == x)
        by (bit_vector)
        requires
            b0 == ((x as u64) & 0xff) as u8,
            b1 == (((x as u64) >> 8) & 0xff) as u8,
            b2 == (((x as u64) >> 16) & 0xff) as u8,
            b3 == (((x as u64) >> 24) & 0xff) as u8,
    ;
}

/// A sequence of words is read back from its layout.
pub proof fn lemma_words_read_back(words: Seq<u64>)
    ensures
        bytes_words(words_bytes(words)) == words,
        words_bytes(words).len() == 8 * words.len(),
{
    let b = words_bytes(words);
    assert forall|i: int| 0 <= i < words.len() implies u64_at(b, 8 * i) == #[trigger] words[i] by {
        assert forall|k: int| 0 <= k < 8 implies #[trigger] b[8 * i + k] == byte_of(words[i], k) by {
            assert((8 * i + k) / 8 == i);
            assert((8 * i + k) % 8 == k);
        }
        lemma_u64_read_back(words[i], b, 8 * i);
    }
    assert(bytes_words(b) =~= words);
}

/// Appends a word.
pub fn write_u64(out: &mut Vec<u8>, x: u64)
    ensures
        final(out)@ == old(out)@ + u64_bytes(x),
{
    let ghost before = out@;
    out.push((x & 0xff) as u8);
    out.push(((x >> 8) & 0xff) as u8);
    out.push(((x >> 16) & 0xff) as u8);
    out.push(((x >> 24) & 0xff) as u8);
    out.push(((x >> 32) & 0xff) as u8);
    out.push(((x >> 40) & 0xff) as u8);
    out.push(((x >> 48) & 0xff) as u8);
    out.push(((x >> 56) & 0xff) as u8);
    assert(out@ =~= before + u64_bytes(x));
}

/// Appends a 32-bit word.
pub fn write_u32(out: &mut Vec<u8>, x: u32)
    ensures
        final(out)@ == old(out)@ + u32_bytes(x),
{
    let ghost before = out@;
    let w: u64 = x as u64;
    out.push((w & 0xff) as u8);
    out.push(((w >> 8) & 0xff) as u8);
    out.push(((w >> 16) & 0xff) as u8);
    out.push(((w >> 24) & 0xff) as u8);
    assert(out@ =~= before + u32_bytes(x));
}

/// Reads the word at `pos`, if the data reach that far.
pub fn read_u64(data: &[u8], pos: usize) -> (r: Option<u64>)
    ensures
        r == if pos + 8 <= data@.len() {
            Some(u64_at(data@, pos as int))
        } else {
            None
        },
{
    if pos > data.len() || data.len() - pos < 8 {
        return None;
    }
    let x: u64 = (data[pos] as u64) | ((data[pos + 1] as u64) << 8) | ((data[pos + 2] as u64) << 16)
        | ((data[pos + 3] as u64) << 24) | ((data[pos + 4] as u64) << 32) | ((data[pos + 5] as u64)
        << 40) | ((data[pos + 6] as u64) << 48) | ((data[pos + 7] as u64) << 56);
    Some(x)
}

/// Reads the 32-bit word at `pos`, if the data reach that far.
pub fn read_u32(data: &[u8], pos: usize) -> (r: Option<u32>)
    ensures
        r == if pos + 4 <= data@.len() {
            Some(u32_at(data@, pos as int))
        } else {
            None
        },
{
    if pos > data.len() || data.len() - pos < 4 {
        return None;
    }
    let x: u32 = (data[pos] as u32) | ((data[pos + 1] as u32) << 8) | ((data[pos + 2] as u32) << 16)
        | ((data[pos + 3] as u32) << 24);
    Some(x)
}

/// Lays a sequence of words out byte by byte.
pub fn words_to_bytes(words: &[u64]) -> (out: Vec<u8>)
    ensures
        out@ == words_bytes(words@),
{
    let mut out: Vec<u8> = Vec::new();
    let mut i: usize = 0;
    while i < words.len()
        invariant
            i <= words@.len(),
            out@ == words_bytes(words@.take(i as int)),
        decreases words@.len() - i,
    {
        let ghost before = out@;
        write_u64(&mut out, words[i]);
        proof {
            let next = words@.take(i + 1);
            assert(before + u64_bytes(words@[i as int]) =~= words_bytes(next)) by {
                assert forall|j: int| 0 <= j < 8 * (i + 1) implies (before + u64_bytes(
                    words@[i as int],
                ))[j] == words_bytes(next)[j] by {
                    if j < 8 * i {
                        assert(j / 8 < i);
                        assert(words@.take(i as int)[j / 8] == next[j / 8]);
                    } else {
                        assert(j / 8 == i && j % 8 == j - 8 * i);
                    }
                }
            }
        }
        i += 1;
    }
    assert(words@.take(i as int) =~= words@);
    out
}

/// The words that a byte sequence holds.
pub fn bytes_to_words(bytes: &[u8]) -> (out: Vec<u64>)
    ensures
        out@ == bytes_words(bytes@),
{
    let mut out: Vec<u64> = Vec::new();
    let n: usize = bytes.len() / 8;
    let mut i: usize = 0;
    while i < n
        invariant
            i <= n,
            n == bytes@.len() / 8,
            8 * n <= usize::MAX,
            out@ == bytes_words(bytes@).take(i as int),
        decreases n - i,
    {
        match read_u64(bytes, 8 * i) {
            Some(w) => {
                out.push(w);
                assert(out@ =~= bytes_words(bytes@).take(i + 1));
            },
            None => {},
        }
        i += 1;
    }
    assert(out@ =~= bytes_words(bytes@));
    out
}

/// Bytes that hold an integer read as it, wherever they stand.
pub proof fn lemma_u64_in(x: u64, b: Seq<u8>, p: int)
    requires
        0 <= p,
        p + 8 <= b.len(),
        b.subrange(p, p + 8) == u64_bytes(x),
    ensures
        u64_at(b, p) == x,
{
    assert forall|k: int| 0 <= k < 8 implies #[trigger] b[p + k] == byte_of(x, k) by {
        assert(b.subrange(p, p + 8)[k] == u64_bytes(x)[k]);
    }
    lemma_u64_read_back(x, b, p);
}

/// Bytes that hold an integer read as it, wherever they stand.
pub proof fn lemma_u32_in(x: u32, b: Seq<u8>, p: int)
    requires
        0 <= p,
        p + 4 <= b.len(),
        b.subrange(p, p + 4) == u32_bytes(x),
    ensures
        u32_at(b, p) == x,
{
    assert forall|k: int| 0 <= k < 4 implies #[trigger] b[p + k] == byte_of(x as u64, k) by {
        assert(b.subrange(p, p + 4)[k] == u32_bytes(x)[k]);
    }
    lemma_u32_read_back(x, b, p);
}

/// Bytes are little-endian: each byte counts 256 times as much as the one before
/// it.
pub proof fn law_little_endian(b: Seq<u8>, p: int)
    requires
        0 <= p,
    ensures
        p + 8 <= b.len() ==> u64_at(b, p) == b[p] + 0x100 * b[p + 1] + 0x1_0000 * b[p + 2]
            + 0x100_0000 * b[p + 3] + 0x1_0000_0000 * b[p + 4] + 0x100_0000_0000 * b[p + 5]
            + 0x1_0000_0000_0000 * b[p + 6] + 0x100_0000_0000_0000 * b[p + 7],
        p + 4 <= b.len() ==> u32_at(b, p) == b[p] + 0x100 * b[p + 1] + 0x1_0000 * b[p + 2]
            + 0x100_0000 * b[p + 3],
{
    let (b0, b1, b2, b3) = (b[p], b[p + 1], b[p + 2], b[p + 3]);
    let (b4, b5, b6, b7) = (b[p + 4], b[p + 5], b[p + 6], b[p + 7]);
    assert((b0 as u64) | ((b1 as u64) << 8) | ((b2 as u64) << 16) | ((b3 as u64) << 24) | ((
    b4 as u64) << 32) | ((b5 as u64) << 40) | ((b6 as u64) << 48) | ((b7 as u64) << 56) == b0
        + 0x100 * b1 + 0x1_0000 * b2 + 0x100_0000 * b3 + 0x1_0000_0000 * b4 + 0x100_0000_0000 * b5
        + 0x1_0000_0000_0000 * b6 + 0x100_0000_0000_0000 * b7) by (bit_vector);
    assert((b0 as u32) | ((b1 as u32) << 8) | ((b2 as u32) << 16) | ((b3 as u32) << 24) == b0
        + 0x100 * b1 + 0x1_0000 * b2 + 0x100_0000 * b3) by (bit_vector);
}

/// Words are read back from the bytes they are written as, one after the other.
pub proof fn law_words_read_back(x: u64, y: u32, words: Seq<u64>, i: int)
    requires
        0 <= i < words.len(),
    ensures
        u64_bytes(x).len() == 8 && u64_at(u64_bytes(x), 0) == x,
        u32_bytes(y).len() == 4 && u32_at(u32_bytes(y), 0) == y,
        words_bytes(words).len() == 8 * words.len(),
        u64_at(words_bytes(words), 8 * i) == words[i],
        bytes_words(words_bytes(words)) == words,
{
    assert(u64_bytes(x).subrange(0, 8) =~= u64_bytes(x));
    assert(u32_bytes(y).subrange(0, 4) =~= u32_bytes(y));
    lemma_u64_in(x, u64_bytes(x), 0);
    lemma_u32_in(y, u32_bytes(y), 0);
    lemma_words_read_back(words);
    assert(bytes_words(words_bytes(words))[i] == u64_at(words_bytes(words), 8 * i));
}

/// Words are read from whole groups of eight bytes, and bytes after the last
/// whole group are left out.
pub proof fn law_words_of_bytes(bytes: Seq<u8>, i: int)
    requires
        0 <= i < bytes.len() / 8,
    ensures
        bytes_words(bytes).len() == bytes.len() / 8,
        bytes_words(bytes)[i] == u64_at(bytes, 8 * i),
{
}

} // verus!

//! Conversion between rows of 32-bit words and their bytes on disk.

use vstd::prelude::*;
use vstd::slice::slice_subrange;

verus! {

/// The order in which the bytes of a word are laid out.
#[derive(Debug, Clone, Copy, PartialEq, Eq)]
pub enum ByteOrder {
    /// Least significant byte first.
    Little,
    /// Most significant byte first.
    Big,
}

/// The four bytes of a word, the least significant one first.
pub open spec fn low_first(word: u32) -> Seq<u8> {
    seq![
        (word % 256) as u8,
        (word / 256 % 256) as u8,
        (word / 65_536 % 256) as u8,
        (word / 16_777_216) as u8,
    ]
}

/// The word of four bytes, the least significant one first.
pub open spec fn from_low_first(bytes: Seq<u8>) -> u32 {
    (bytes[0] + 256 * bytes[1] + 65_536 * bytes[2] + 16_777_216 * bytes[3]) as u32
}

/// The four bytes of a word.
pub open spec fn word_bytes(order: ByteOrder, word: u32) -> Seq<u8> {
    match order {
        ByteOrder::Little => low_first(word),
        ByteOrder::Big => low_first(word).reverse(),
    }
}

/// The word of four bytes.
pub open spec fn word_of(order: ByteOrder, bytes: Seq<u8>) -> u32 {
    match order {
        ByteOrder::Little => from_low_first(bytes),
        ByteOrder::Big => from_low_first(bytes.reverse()),
    }
}

/// Splitting a word into bytes and joining bytes to a word undo each other.
proof fn lemma_low_first(word: u32, bytes: Seq<u8>)
    requires
        bytes.len() == 4,
    ensures
        from_low_first(low_first(word)) == word,
        low_first(from_low_first(bytes)) == bytes,
{
    let joined = from_low_first(bytes);
    let a = bytes[0] as int;
    let b = bytes[1] as int;
    let c = bytes[2] as int;
    let d = bytes[3] as int;
    assert(joined == a + 256 * b + 65_536 * c + 16_777_216 * d);
    assert(joined / 16_777_216 == d);
    assert(joined / 65_536 == 256 * d + c);
    assert(joined / 256 == 65_536 * d + 256 * c + b);
    assert(low_first(joined) =~= bytes);
    assert(word == word % 256 + 256 * (word / 256 % 256) + 65_536 * (word / 65_536 % 256)
        + 16_777_216 * (word / 16_777_216));
}

/// A word is the word of its bytes, and four bytes are the bytes of their word.
pub proof fn law_word_round_trip(order: ByteOrder)
    ensures
        forall|word: u32|
            {
                &&& (#[trigger] word_bytes(order, word)).len() == 4
                &&& word_of(order, word_bytes(order, word)) == word
            },
        forall|bytes: Seq<u8>|
            bytes.len() == 4 ==> word_bytes(order, #[trigger] word_of(order, bytes)) == bytes,
{
    let any = seq![0u8, 0u8, 0u8, 0u8];
    assert forall|word: u32|
        {
            &&& (#[trigger] word_bytes(order, word)).len() == 4
            &&& word_of(order, word_bytes(order, word)) == word
        } by {
        lemma_low_first(word, any);
        assert(low_first(word).reverse().reverse() =~= low_first(word));
    }
    assert forall|bytes: Seq<u8>| bytes.len() == 4 implies word_bytes(
        order,
        #[trigger] word_of(order, bytes),
    ) == bytes by {
        lemma_low_first(0, bytes);
        lemma_low_first(0, bytes.reverse());
        assert(bytes.reverse().reverse() =~= bytes);
    }
}

/// What a byte order means: with the least significant byte first, a word is its first byte plus
/// 256 times its second one and so on; with the most significant byte first, the other way round.
pub proof fn law_place_values(word: u32)
    ensures
        ({
            let b = word_bytes(ByteOrder::Little, word);
            b.len() == 4 && word == b[0] + 256 * b[1] + 65_536 * b[2] + 16_777_216 * b[3]
        }),
        ({
            let b = word_bytes(ByteOrder::Big, word);
            b.len() == 4 && word == b[3] + 256 * b[2] + 65_536 * b[1] + 16_777_216 * b[0]
        }),
{
    lemma_low_first(word, low_first(word));
}

/// The word of four bytes has the value that their places give them.
pub proof fn law_value_of_bytes(b: Seq<u8>)
    requires
        b.len() == 4,
    ensures
        word_of(ByteOrder::Little, b) == b[0] + 256 * b[1] + 65_536 * b[2] + 16_777_216 * b[3],
        word_of(ByteOrder::Big, b) == b[3] + 256 * b[2] + 65_536 * b[1] + 16_777_216 * b[0],
{
    law_word_round_trip(ByteOrder::Little);
    law_word_round_trip(ByteOrder::Big);
    let low = word_of(ByteOrder::Little, b);
    let high = word_of(ByteOrder::Big, b);
    law_place_values(low);
    law_place_values(high);
    assert(word_bytes(ByteOrder::Little, low) == b);
    assert(word_bytes(ByteOrder::Big, high) == b);
}

/// The word stored in bytes `4 * i .. 4 * i + 4`.
pub open spec fn word_at(order: ByteOrder, bytes: Seq<u8>, i: int) -> u32 {
    word_of(order, bytes.subrange(4 * i, 4 * i + 4))
}

/// All complete words of a byte sequence, in order.
pub open spec fn words_of(order: ByteOrder, bytes: Seq<u8>) -> Seq<u32> {
    Seq::new((bytes.len() / 4) as nat, |i: int| word_at(order, bytes, i))
}

/// The bytes of a sequence of words, four per word.
pub open spec fn bytes_of(order: ByteOrder, words: Seq<u32>) -> Seq<u8> {
    Seq::new(4 * words.len(), |i: int| word_bytes(order, words[i / 4])[i % 4])
}

proof fn lemma_bytes_of_chunk(order: ByteOrder, words: Seq<u32>, i: int)
    requires
        0 <= i < words.len(),
    ensures
        bytes_of(order, words).subrange(4 * i, 4 * i + 4) == word_bytes(order, words[i]),
{
    law_word_round_trip(order);
    let chunk = bytes_of(order, words).subrange(4 * i, 4 * i + 4);
    assert forall|j: int| 0 <= j < 4 implies chunk[j] == word_bytes(order, words[i])[j] by {
        assert((4 * i + j) / 4 == i);
        assert((4 * i + j) % 4 == j);
    }
    assert(chunk =~= word_bytes(order, words[i]));
}

/// A row is stored word by word in its order, four bytes each, and is read in the same way: bytes
/// `4 * i .. 4 * i + 4` belong to word `i`, and to no other.
pub proof fn law_words_in_place(order: ByteOrder, words: Seq<u32>, bytes: Seq<u8>, i: int, j: int)
    requires
        0 <= j < 4,
    ensures
        0 <= i < words.len() ==> bytes_of(order, words)[4 * i + j] == word_bytes(
            order,
            words[i],
        )[j],
        0 <= 4 * i && 4 * i + 4 <= bytes.len() ==> words_of(order, bytes)[i] == word_of(
            order,
            seq![bytes[4 * i], bytes[4 * i + 1], bytes[4 * i + 2], bytes[4 * i + 3]],
        ),
        words_of(order, bytes).len() == bytes.len() / 4,
        bytes_of(order, words).len() == 4 * words.len(),
{
    assert((4 * i + j) / 4 == i);
    assert((4 * i + j) % 4 == j);
    if 0 <= 4 * i && 4 * i + 4 <= bytes.len() {
        assert(bytes.subrange(4 * i, 4 * i + 4) =~= seq![
            bytes[4 * i],
            bytes[4 * i + 1],
            bytes[4 * i + 2],
            bytes[4 * i + 3],
        ]);
    }
}

/// Reading back the bytes of a row gives the row.
pub proof fn law_words_of_bytes_of(order: ByteOrder, words: Seq<u32>)
    ensures
        words_of(order, bytes_of(order, words)) == words,
        bytes_of(order, words).len() == 4 * words.len(),
{
    law_word_round_trip(order);
    assert forall|i: int| 0 <= i < words.len() implies word_at(order, bytes_of(order, words), i) == words[i] by {
        lemma_bytes_of_chunk(order, words, i);
        assert(word_bytes(order, words[i]).len() == 4);
    }
    assert(words_of(order, bytes_of(order, words)) =~= words);
}

/// Whole words written as bytes again give the same bytes.
pub proof fn law_bytes_of_words_of(order: ByteOrder, bytes: Seq<u8>)
    requires
        bytes.len() % 4 == 0,
    ensures
        bytes_of(order, words_of(order, bytes)) == bytes,
{
    law_word_round_trip(order);
    let words = words_of(order, bytes);
    assert forall|k: int| 0 <= k < bytes.len() implies bytes_of(order, words)[k] == bytes[k] by {
        let chunk = bytes.subrange(4 * (k / 4), 4 * (k / 4) + 4);
        assert(words[k / 4] == word_of(order, chunk));
        assert(word_bytes(order, word_of(order, chunk)) == chunk);
        assert(chunk[k % 4] == bytes[k]);
    }
    assert(bytes_of(order, words) =~= bytes);
}

/// Appending the bytes of a row to whole words appends the row, and leaves every earlier word
/// where it was.
pub proof fn law_append_bytes(order: ByteOrder, bytes: Seq<u8>, row: Seq<u32>)
    requires
        bytes.len() % 4 == 0,
    ensures
        words_of(order, bytes + bytes_of(order, row)) == words_of(order, bytes) + row,
{
    law_word_round_trip(order);
    let all = bytes + bytes_of(order, row);
    let n = bytes.len() as int / 4;
    assert forall|i: int| 0 <= i < n + row.len() implies word_at(order, all, i) == (words_of(order, bytes)
        + row)[i] by {
        if i < n {
            assert(all.subrange(4 * i, 4 * i + 4) =~= bytes.subrange(4 * i, 4 * i + 4));
        } else {
            lemma_bytes_of_chunk(order, row, i - n);
            assert(word_bytes(order, row[i - n]).len() == 4);
            assert(all.subrange(4 * i, 4 * i + 4) =~= bytes_of(order, row).subrange(
                4 * (i - n),
                4 * (i - n) + 4,
            ));
        }
    }
    assert(words_of(order, all) =~= words_of(order, bytes) + row);
}

/// Bytes of two rows in a row are the bytes of both rows joined.
pub proof fn law_bytes_of_concat(order: ByteOrder, a: Seq<u32>, b: Seq<u32>)
    ensures
        bytes_of(order, a + b) == bytes_of(order, a) + bytes_of(order, b),
{
    assert forall|k: int| 0 <= k < 4 * (a.len() + b.len()) implies bytes_of(order, a + b)[k] == (
    bytes_of(order, a) + bytes_of(order, b))[k] by {
        if k < 4 * a.len() {
            assert((a + b)[k / 4] == a[k / 4]);
        } else {
            let m = k - 4 * a.len();
            assert(k / 4 == m / 4 + a.len());
            assert(k % 4 == m % 4);
            assert((a + b)[k / 4] == b[m / 4]);
        }
    }
    assert(bytes_of(order, a + b) =~= bytes_of(order, a) + bytes_of(order, b));
}

fn reversed(bytes: &[u8]) -> (r: Vec<u8>)
    requires
        bytes@.len() == 4,
    ensures
        r@ == bytes@.reverse(),
{
    let out: Vec<u8> = vec![bytes[3], bytes[2], bytes[1], bytes[0]];
    assert(out@ =~= bytes@.reverse());
    out
}

fn joined(bytes: &[u8]) -> (r: u32)
    requires
        bytes@.len() == 4,
    ensures
        r == from_low_first(bytes@),
{
    bytes[0] as u32 + 256 * (bytes[1] as u32) + 65_536 * (bytes[2] as u32) + 16_777_216 * (
    bytes[3] as u32)
}

fn word_from_bytes(order: ByteOrder, bytes: &[u8]) -> (r: u32)
    requires
        bytes@.len() == 4,
    ensures
        r == word_of(order, bytes@),
{
    match order {
        ByteOrder::Little => joined(bytes),
        ByteOrder::Big => {
            let low_first = reversed(bytes);
            joined(low_first.as_slice())
        },
    }
}

fn bytes_from_word(order: ByteOrder, word: u32) -> (r: Vec<u8>)
    ensures
        r@ == word_bytes(order, word),
{
    let bytes: Vec<u8> = vec![
        (word % 256) as u8,
        (word / 256 % 256) as u8,
        (word / 65_536 % 256) as u8,
        (word / 16_777_216) as u8,
    ];
    assert(bytes@ =~= low_first(word));
    match order {
        ByteOrder::Little => bytes,
        ByteOrder::Big => reversed(bytes.as_slice()),
    }
}

/// Reads `count` words starting at word `start`.
pub fn read_words(order: ByteOrder, bytes: &[u8], start: usize, count: usize) -> (r: Vec<u32>)
    requires
        start + count <= bytes@.len() / 4,
    ensures
        r@ == words_of(order, bytes@).subrange(start as int, start + count),
{
    let total: usize = bytes.len() / 4;
    let mut out: Vec<u32> = Vec::new();
    let mut i: usize = 0;
    while i < count
        invariant
            i <= count,
            total == bytes.len() / 4,
            start + count <= bytes@.len() / 4,
            out@ == words_of(order, bytes@).subrange(start as int, start + i),
        decreases count - i,
    {
        let at: usize = 4 * (start + i);
        let chunk = slice_subrange(bytes, at, at + 4);
        out.push(word_from_bytes(order, chunk));
        i = i + 1;
        assert(out@ =~= words_of(order, bytes@).subrange(start as int, start + i));
    }
    out
}

/// The bytes of a row as they are stored on disk.
pub fn bytes_from_words(order: ByteOrder, words: &[u32]) -> (r: Vec<u8>)
    ensures
        r@ == bytes_of(order, words@),
{
    let mut out: Vec<u8> = Vec::new();
    let mut i: usize = 0;
    assert(bytes_of(order, words@.take(0)) =~= Seq::<u8>::empty());
    while i < words.len()
        invariant
            i <= words@.len(),
            out@ == bytes_of(order, words@.take(i as int)),
        decreases words@.len() - i,
    {
        let mut chunk = bytes_from_word(order, words[i]);
        proof {
            let one = seq![words@[i as int]];
            law_bytes_of_concat(order, words@.take(i as int), one);
            assert(words@.take(i + 1) =~= words@.take(i as int) + one);
            lemma_bytes_of_chunk(order, one, 0);
            assert(bytes_of(order, one).subrange(0, 4) =~= bytes_of(order, one));
        }
        out.append(&mut chunk);
        i = i + 1;
    }
    assert(words@.take(words@.len() as int) =~= words@);
    out
}

/// The number of bytes that a row takes.
pub fn byte_len(words: &[u32]) -> (r: usize)
    ensures
        r == 4 * words@.len(),
{
    broadcast use vstd::layout::layout_of_slices;
    broadcast use vstd::layout::layout_of_primitives;

    core::mem::size_of_val(words)
}

/// The number of words in a list, told by the memory that it takes: so many leave room to count
/// further.
pub fn word_count(words: &[u32]) -> (r: usize)
    ensures
        r == words@.len(),
        r <= usize::MAX / 4,
{
    byte_len(words) / 4
}

} // verus!

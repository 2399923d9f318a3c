//! Little-endian words in byte strings.

use vstd::prelude::*;

verus! {

/// The 32-bit word at a place, least significant byte first.
pub open spec fn word_at(bytes: Seq<u8>, at: int) -> u32 {
    (bytes[at] + 0x100 * bytes[at + 1] + 0x1_0000 * bytes[at + 2] + 0x100_0000 * bytes[at
        + 3]) as u32
}

/// The 32-bit words that the bytes hold, one after the other. Up to three
/// bytes at the end are left over.
pub open spec fn words_of(bytes: Seq<u8>) -> Seq<u32> {
    Seq::new(bytes.len() / 4, |i: int| word_at(bytes, 4 * i))
}

/// A byte of a 32-bit word, counted from the least significant.
pub open spec fn byte_of(word: u32, k: int) -> u8 {
    if k == 0 {
        (word % 0x100) as u8
    } else if k == 1 {
        (word / 0x100 % 0x100) as u8
    } else if k == 2 {
        (word / 0x1_0000 % 0x100) as u8
    } else {
        (word / 0x100_0000) as u8
    }
}

/// The bytes of the words, one after the other.
pub open spec fn bytes_of(words: Seq<u32>) -> Seq<u8> {
    Seq::new(words.len() * 4, |i: int| byte_of(words[i / 4], i % 4))
}

fn word(bytes: &[u8], at: usize) -> (w: u32)
    requires
        at + 4 <= bytes@.len(),
    ensures
        w == word_at(bytes@, at as int),
{
    bytes[at] as u32 + 0x100 * bytes[at + 1] as u32 + 0x1_0000 * bytes[at + 2] as u32
        + 0x100_0000 * bytes[at + 3] as u32
}

/// Reads the words of a part of a byte string.
pub fn read_words(bytes: &[u8], start: usize, count: usize) -> (words: Vec<u32>)
    requires
        start + 4 * count <= bytes@.len(),
    ensures
        words@ == words_of(bytes@.skip(start as int)).take(count as int),
{
    let total: usize = bytes.len();
    let mut words: Vec<u32> = Vec::new();
    let mut i: usize = 0;
    while i < count
        invariant
            i <= count,
            start + 4 * count <= bytes@.len(),
            total == bytes@.len(),
            words@.len() == i,
            forall|j: int| 0 <= j < i ==> words@[j] == word_at(bytes@.skip(start as int), 4 * j),
        decreases count - i,
    {
        words.push(word(bytes, start + 4 * i));
        i = i + 1;
    }
    assert(words@ =~= words_of(bytes@.skip(start as int)).take(count as int));
    words
}

/// Reading words back gives what was written.
pub proof fn law_words_round_trip(words: Seq<u32>)
    ensures
        words_of(bytes_of(words)) == words,
{
    assert forall|i: int| 0 <= i < words.len() implies words_of(bytes_of(words))[i]
        == words[i] by {
        let w = words[i];
        let bytes = bytes_of(words);
        assert(bytes[4 * i] == byte_of(w, 0));
        assert(bytes[4 * i + 1] == byte_of(w, 1));
        assert(bytes[4 * i + 2] == byte_of(w, 2));
        assert(bytes[4 * i + 3] == byte_of(w, 3));
    }
    assert(words_of(bytes_of(words)) =~= words);
}

proof fn lemma_bytes_of_sum(a: u8, b: u8, c: u8, d: u8)
    ensures
        ({
            let w = (a + 0x100 * b + 0x1_0000 * c + 0x100_0000 * d) as u32;
            &&& byte_of(w, 0) == a
            &&& byte_of(w, 1) == b
            &&& byte_of(w, 2) == c
            &&& byte_of(w, 3) == d
        }),
{
    let w = (a + 0x100 * b + 0x1_0000 * c + 0x100_0000 * d) as u32;
    assert(w == a + 0x100 * b + 0x1_0000 * c + 0x100_0000 * d);
    assert(w / 0x100 == b + 0x100 * c + 0x1_0000 * d);
    assert(w / 0x1_0000 == c + 0x100 * d);
    assert(w / 0x100_0000 == d);
}

/// Writing back what was read gives the bytes, where no byte is left over.
pub proof fn law_bytes_round_trip(bytes: Seq<u8>)
    requires
        bytes.len() % 4 == 0,
    ensures
        bytes_of(words_of(bytes)) == bytes,
{
    assert forall|i: int| 0 <= i < bytes.len() implies bytes_of(words_of(bytes))[i]
        == bytes[i] by {
        let at = 4 * (i / 4);
        lemma_bytes_of_sum(bytes[at], bytes[at + 1], bytes[at + 2], bytes[at + 3]);
        assert(words_of(bytes)[i / 4] == word_at(bytes, at));
        assert(bytes_of(words_of(bytes))[i] == byte_of(word_at(bytes, at), i % 4));
        assert(i == at + i % 4);
    }
    assert(bytes_of(words_of(bytes)) =~= bytes);
}

/// A word has its least significant byte first.
pub proof fn law_words_begin_with_their_least_byte(bytes: Seq<u8>, i: int)
    requires
        0 <= 4 * i,
        4 * i + 4 <= bytes.len(),
    ensures
        words_of(bytes).len() == bytes.len() / 4,
        words_of(bytes)[i] == bytes[4 * i] + 256 * bytes[4 * i + 1] + 65536 * bytes[4 * i + 2]
            + 16777216 * bytes[4 * i + 3],
{
}

} // verus!

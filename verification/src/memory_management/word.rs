//! Little-endian 32-bit machine words inside a byte arena.

use vstd::prelude::*;

verus! {

/// Bytes in one machine word of the target.
pub const WORD_SIZE: usize = 4;

/// The word whose little-endian bytes are `b0`, `b1`, `b2`, `b3`.
pub open spec fn word_of(b0: u8, b1: u8, b2: u8, b3: u8) -> int {
    b0 as int + 256 * (b1 as int) + 65536 * (b2 as int) + 16777216 * (b3 as int)
}

/// Byte `k` (0 is the lowest) of the word `w`.
pub open spec fn byte_of(w: int, k: int) -> u8 {
    if k == 0 {
        (w % 256) as u8
    } else if k == 1 {
        ((w / 256) % 256) as u8
    } else if k == 2 {
        ((w / 65536) % 256) as u8
    } else {
        ((w / 16777216) % 256) as u8
    }
}

/// The word stored in `mem` at byte offset `a`.
#[verifier::opaque]
pub open spec fn word_at(mem: Seq<u8>, a: int) -> int {
    word_of(mem[a], mem[a + 1], mem[a + 2], mem[a + 3])
}

/// `mem` with the word `w` stored at byte offset `a`.
#[verifier::opaque]
pub open spec fn store_word(mem: Seq<u8>, a: int, w: int) -> Seq<u8> {
    mem.update(a, byte_of(w, 0)).update(a + 1, byte_of(w, 1)).update(a + 2, byte_of(w, 2)).update(
        a + 3,
        byte_of(w, 3),
    )
}

/// A word that fits 32 bits is given back by its own bytes.
pub proof fn lemma_word_round_trip(w: int)
    requires
        0 <= w <= u32::MAX,
    ensures
        word_of(byte_of(w, 0), byte_of(w, 1), byte_of(w, 2), byte_of(w, 3)) == w,
{
}

/// Every four bytes make a word that fits 32 bits, and the word determines them.
pub proof fn lemma_word_bytes(b0: u8, b1: u8, b2: u8, b3: u8)
    ensures
        0 <= word_of(b0, b1, b2, b3) <= u32::MAX,
        byte_of(word_of(b0, b1, b2, b3), 0) == b0,
        byte_of(word_of(b0, b1, b2, b3), 1) == b1,
        byte_of(word_of(b0, b1, b2, b3), 2) == b2,
        byte_of(word_of(b0, b1, b2, b3), 3) == b3,
{
}

/// Storing a word changes exactly its four bytes: the word reads back, and
/// every byte and every word that lies clear of it is as before.
pub proof fn lemma_store_word(mem: Seq<u8>, a: int, w: int)
    requires
        0 <= a,
        a + 4 <= mem.len(),
        0 <= w <= u32::MAX,
    ensures
        store_word(mem, a, w).len() == mem.len(),
        word_at(store_word(mem, a, w), a) == w,
        forall|j: int| 0 <= j < 4 ==> #[trigger] store_word(mem, a, w)[a + j] == byte_of(w, j),
        forall|i: int|
            0 <= i < mem.len() && (i < a || i >= a + 4) ==> #[trigger] store_word(mem, a, w)[i]
                == mem[i],
        forall|x: int|
            0 <= x && x + 4 <= mem.len() && (x + 4 <= a || a + 4 <= x) ==> #[trigger] word_at(
                store_word(mem, a, w),
                x,
            ) == word_at(mem, x),
{
    reveal(word_at);
    reveal(store_word);
    lemma_word_round_trip(w);
}

/// A word is made of its four bytes, and fits 32 bits.
pub proof fn lemma_word_at(mem: Seq<u8>, a: int)
    ensures
        word_at(mem, a) == word_of(mem[a], mem[a + 1], mem[a + 2], mem[a + 3]),
        0 <= word_at(mem, a) <= u32::MAX,
{
    reveal(word_at);
}

/// Two byte sequences that agree on four bytes hold the same word there.
pub proof fn lemma_same_word(m0: Seq<u8>, a0: int, m1: Seq<u8>, a1: int)
    requires
        m0[a0] == m1[a1],
        m0[a0 + 1] == m1[a1 + 1],
        m0[a0 + 2] == m1[a1 + 2],
        m0[a0 + 3] == m1[a1 + 3],
    ensures
        word_at(m0, a0) == word_at(m1, a1),
{
    reveal(word_at);
}

/// Reads the word at byte offset `a`.
pub fn load(mem: &Vec<u8>, a: usize) -> (w: u32)
    requires
        a + 4 <= mem.len(),
    ensures
        w as int == word_at(mem@, a as int),
{
    proof {
        reveal(word_at);
    }
    let b0: u32 = mem[a] as u32;
    let b1: u32 = mem[a + 1] as u32;
    let b2: u32 = mem[a + 2] as u32;
    let b3: u32 = mem[a + 3] as u32;
    b0 + 256 * b1 + 65536 * b2 + 16777216 * b3
}

/// Stores the word `w` at byte offset `a`.
pub fn store(mem: &mut Vec<u8>, a: usize, w: u32)
    requires
        a + 4 <= old(mem).len(),
    ensures
        final(mem)@ == store_word(old(mem)@, a as int, w as int),
        final(mem).len() == old(mem).len(),
{
    proof {
        reveal(store_word);
    }
    mem[a] = (w % 256) as u8;
    mem[a + 1] = ((w / 256) % 256) as u8;
    mem[a + 2] = ((w / 65536) % 256) as u8;
    mem[a + 3] = ((w / 16777216) % 256) as u8;
}

} // verus!

//! Little-endian numbers in byte strings.
use vstd::prelude::*;

verus! {

/// The two-byte number at `at`.
pub open spec fn le16(s: Seq<u8>, at: int) -> int {
    s[at] + 0x100 * s[at + 1]
}

/// The four-byte number at `at`.
pub open spec fn le32(s: Seq<u8>, at: int) -> int {
    s[at] + 0x100 * s[at + 1] + 0x1_0000 * s[at + 2] + 0x100_0000 * s[at + 3]
}

/// The eight-byte number at `at`.
pub open spec fn le64(s: Seq<u8>, at: int) -> int {
    le32(s, at) + 0x1_0000_0000 * le32(s, at + 4)
}

/// Reads two bytes.
pub fn read_u16(s: &[u8], at: usize) -> (n: u16)
    requires
        at + 2 <= s@.len(),
    ensures
        n == le16(s@, at as int),
{
    s[at] as u16 + 0x100 * (s[at + 1] as u16)
}

/// Reads four bytes.
pub fn read_u32(s: &[u8], at: usize) -> (n: u32)
    requires
        at + 4 <= s@.len(),
    ensures
        n == le32(s@, at as int),
{
    s[at] as u32 + 0x100 * (s[at + 1] as u32) + 0x1_0000 * (s[at + 2] as u32) + 0x100_0000 * (s[at
        + 3] as u32)
}

/// Reads eight bytes.
pub fn read_u64(s: &[u8], at: usize) -> (n: u64)
    requires
        at + 8 <= s@.len(),
    ensures
        n == le64(s@, at as int),
{
    assert(s.len() <= usize::MAX);
    read_u32(s, at) as u64 + 0x1_0000_0000 * (read_u32(s, at + 4) as u64)
}

/// The four bytes of a number.
pub open spec fn word_bytes(n: u32) -> Seq<u8> {
    seq![
        (n % 0x100) as u8,
        (n / 0x100 % 0x100) as u8,
        (n / 0x1_0000 % 0x100) as u8,
        (n / 0x100_0000) as u8,
    ]
}

/// The bytes of a list of numbers.
pub open spec fn words_bytes(words: Seq<u32>) -> Seq<u8>
    decreases words.len(),
{
    if words.len() == 0 {
        Seq::empty()
    } else {
        words_bytes(words.drop_last()) + word_bytes(words.last())
    }
}

/// A number is read back from its bytes.
pub proof fn lemma_word_read_back(n: u32)
    ensures
        le32(word_bytes(n), 0) == n,
{
    let a = n % 0x100;
    let b = n / 0x100 % 0x100;
    let c = n / 0x1_0000 % 0x100;
    let d = n / 0x100_0000;
    assert(a + 0x100 * b + 0x1_0000 * c + 0x100_0000 * d == n) by (bit_vector)
        requires
            a == n % 0x100,
            b == n / 0x100 % 0x100,
            c == n / 0x1_0000 % 0x100,
            d == n / 0x100_0000,
    ;
}

/// The bytes of a list of numbers: four for each, in order.
pub proof fn lemma_words(words: Seq<u32>)
    ensures
        words_bytes(words).len() == 4 * words.len(),
        forall|i: int|
            0 <= i < words.len() ==> le32(words_bytes(words), 4 * i) == #[trigger] words[i],
    decreases words.len(),
{
    if words.len() > 0 {
        let front = words.drop_last();
        lemma_words(front);
        lemma_word_read_back(words.last());
        let all = words_bytes(words);
        assert forall|i: int| 0 <= i < words.len() implies le32(all, 4 * i) == #[trigger] words[i] by {
            if i < front.len() {
                assert(le32(words_bytes(front), 4 * i) == front[i]);
                assert(all[4 * i] == words_bytes(front)[4 * i]);
                assert(all[4 * i + 1] == words_bytes(front)[4 * i + 1]);
                assert(all[4 * i + 2] == words_bytes(front)[4 * i + 2]);
                assert(all[4 * i + 3] == words_bytes(front)[4 * i + 3]);
            } else {
                let w = word_bytes(words.last());
                assert(all[4 * i] == w[0]);
                assert(all[4 * i + 1] == w[1]);
                assert(all[4 * i + 2] == w[2]);
                assert(all[4 * i + 3] == w[3]);
            }
        }
    }
}

/// Writes four bytes at the end.
pub fn push_u32(out: &mut Vec<u8>, n: u32)
    ensures
        final(out)@ == old(out)@ + word_bytes(n),
{
    out.push((n % 0x100) as u8);
    out.push((n / 0x100 % 0x100) as u8);
    out.push((n / 0x1_0000 % 0x100) as u8);
    out.push((n / 0x100_0000) as u8);
    assert(out@ =~= old(out)@ + word_bytes(n));
}

/// Writes bytes at the end.
pub fn push_bytes(out: &mut Vec<u8>, s: &[u8])
    ensures
        final(out)@ == old(out)@ + s@,
{
    let mut i: usize = 0;
    let ghost before = out@;
    assert(out@ =~= before + s@.take(0));
    while i < s.len()
        invariant
            i <= s@.len(),
            out@ == before + s@.take(i as int),
        decreases s.len() - i,
    {
        out.push(s[i]);
        i = i + 1;
        assert(out@ =~= before + s@.take(i as int));
    }
    assert(s@.take(i as int) =~= s@);
}

/// Numbers stand with their least significant byte first, wherever in a byte string they are.
pub proof fn law_little_endian(before: Seq<u8>, a: u8, b: u8, c: u8, d: u8, rest: Seq<u8>)
    ensures
        ({
            let s = before + seq![a, b, c, d] + rest;
            let at = before.len() as int;
            &&& le16(s, at) == a + 256 * b
            &&& le32(s, at) == a + 256 * b + 65536 * c + 16777216 * d
            &&& le64(s, at) == le32(s, at) + 4294967296 * le32(s, at + 4)
        }),
{
    let s = before + seq![a, b, c, d] + rest;
    let at = before.len() as int;
    assert(s[at] == a && s[at + 1] == b && s[at + 2] == c && s[at + 3] == d);
}

/// A number is written as the four bytes that stand for it, and a list of numbers as the bytes of
/// each, in order.
pub proof fn law_words(words: Seq<u32>, n: u32)
    ensures
        word_bytes(n).len() == 4,
        n == word_bytes(n)[0] + 256 * word_bytes(n)[1] + 65536 * word_bytes(n)[2] + 16777216
            * word_bytes(n)[3],
        words_bytes(Seq::<u32>::empty()) == Seq::<u8>::empty(),
        words_bytes(words.push(n)) == words_bytes(words) + word_bytes(n),
{
    lemma_word_read_back(n);
    assert(words.push(n).drop_last() =~= words);
}

} // verus!

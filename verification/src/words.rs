//! Words as the bytes that a device takes and gives.

use vstd::prelude::*;

verus! {

/// The number with the bytes `a`, `b`, `c` and `d`, lowest first.
pub open spec fn joined(a: u8, b: u8, c: u8, d: u8) -> int {
    a + 0x100 * b + 0x1_0000 * c + 0x100_0000 * d
}

/// `bytes` are those of `word`, lowest first or highest first.
pub open spec fn spells(bytes: Seq<u8>, word: u32) -> bool {
    &&& bytes.len() == 4
    &&& word == joined(bytes[0], bytes[1], bytes[2], bytes[3]) || word == joined(bytes[3], bytes[2], bytes[1], bytes[0])
}

/// Views a word as bytes with `bytemuck::bytes_of`: its four bytes, in the order
/// in which the machine keeps them. Which of the two orders that is depends on
/// the machine and is left open.
#[verifier::external_body]
fn bytes_of_word(word: u32) -> (bytes: Vec<u8>)
    ensures
        spells(bytes@, word),
{
    bytemuck::bytes_of(&word).to_vec()
}

/// `bytes` are those in which the machine keeps `word`.
pub closed spec fn kept_as(word: u32, bytes: Seq<u8>) -> bool {
    exists|v: Vec<u8>| #[trigger] call_ensures(bytes_of_word, (word,), v) && v@ == bytes
}

/// Reads a word with `bytemuck::pod_read_unaligned` out of four bytes, in the
/// order in which the machine keeps them: from the bytes that `bytemuck::bytes_of`
/// gives of a word, it reads that word. Which of the two orders that is depends
/// on the machine and is left open.
#[verifier::external_body]
fn word_of_bytes(a: u8, b: u8, c: u8, d: u8) -> (word: u32)
    ensures
        spells(seq![a, b, c, d], word),
        forall|kept: u32| kept_as(kept, seq![a, b, c, d]) ==> word == kept,
{
    bytemuck::pod_read_unaligned(&[a, b, c, d])
}

/// `word` is the one that the machine keeps in `bytes`.
pub closed spec fn read_as(bytes: Seq<u8>, word: u32) -> bool {
    bytes.len() == 4 && call_ensures(word_of_bytes, (bytes[0], bytes[1], bytes[2], bytes[3]), word)
}

/// `bytes` are those in which the machine keeps `words`, one after another.
pub open spec fn all_kept_as(words: Seq<u32>, bytes: Seq<u8>) -> bool {
    forall|k: int| 0 <= k < words.len() ==> kept_as(#[trigger] words[k], bytes.subrange(4 * k, 4 * k + 4))
}

/// `words` are those that the machine keeps in `bytes`, one after another.
pub open spec fn all_read_as(bytes: Seq<u8>, words: Seq<u32>) -> bool {
    forall|k: int| 0 <= k < words.len() ==> read_as(bytes.subrange(4 * k, 4 * k + 4), #[trigger] words[k])
}

/// `bytes` are those of `words`, one after another.
pub open spec fn spelled(bytes: Seq<u8>, words: Seq<u32>) -> bool {
    &&& bytes.len() == 4 * words.len()
    &&& forall|i: int| 0 <= i < words.len() ==> spells(bytes.subrange(4 * i, 4 * i + 4), #[trigger] words[i])
}

/// The bytes of `words`, each in the order in which the machine keeps it.
pub fn words_to_bytes(words: &Vec<u32>) -> (bytes: Vec<u8>)
    ensures
        spelled(bytes@, words@),
        all_kept_as(words@, bytes@),
{
    let mut bytes: Vec<u8> = Vec::new();
    let mut i: usize = 0;
    while i < words.len()
        invariant
            i <= words@.len(),
            bytes@.len() == 4 * i,
            forall|k: int|
                0 <= k < i ==> spells(bytes@.subrange(4 * k, 4 * k + 4), #[trigger] words@[k]) && kept_as(
                    words@[k],
                    bytes@.subrange(4 * k, 4 * k + 4),
                ),
        decreases words@.len() - i,
    {
        let mut piece = bytes_of_word(words[i]);
        assert(call_ensures(bytes_of_word, (words@[i as int],), piece));
        let ghost (before, new) = (bytes@, piece@);
        assert(kept_as(words@[i as int], new));
        bytes.append(&mut piece);
        proof {
            assert(bytes@ =~= before + new);
            assert forall|k: int| 0 <= k < i + 1 implies spells(bytes@.subrange(4 * k, 4 * k + 4), #[trigger] words@[k]) && kept_as(
                words@[k],
                bytes@.subrange(4 * k, 4 * k + 4),
            ) by {
                if k < i {
                    assert(bytes@.subrange(4 * k, 4 * k + 4) =~= before.subrange(4 * k, 4 * k + 4));
                } else {
                    assert(bytes@.subrange(4 * k, 4 * k + 4) =~= new);
                }
            }
        }
        i = i + 1;
    }
    bytes
}

/// The words that the machine keeps in `bytes`. What is left over of them is
/// passed over.
pub fn bytes_to_words(bytes: &Vec<u8>) -> (words: Vec<u32>)
    ensures
        words@.len() == bytes@.len() / 4,
        spelled(bytes@.take(4 * words@.len() as int), words@),
        all_read_as(bytes@, words@),
{
    let size = bytes.len();
    let n = size / 4;
    let mut words: Vec<u32> = Vec::with_capacity(n);
    let mut i: usize = 0;
    while i < n
        invariant
            i <= n == size / 4,
            size == bytes@.len(),
            words@.len() == i,
            forall|k: int|
                0 <= k < i ==> spells(bytes@.subrange(4 * k, 4 * k + 4), #[trigger] words@[k]) && read_as(
                    bytes@.subrange(4 * k, 4 * k + 4),
                    words@[k],
                ),
        decreases n - i,
    {
        let (a, b, c, d) = (bytes[4 * i], bytes[4 * i + 1], bytes[4 * i + 2], bytes[4 * i + 3]);
        let word = word_of_bytes(a, b, c, d);
        assert(call_ensures(word_of_bytes, (a, b, c, d), word));
        words.push(word);
        assert(seq![a, b, c, d] =~= bytes@.subrange(4 * i, 4 * i + 4));
        i = i + 1;
    }
    proof {
        let head = bytes@.take(4 * words@.len() as int);
        assert forall|k: int| 0 <= k < words@.len() implies spells(head.subrange(4 * k, 4 * k + 4), #[trigger] words@[k]) by {
            assert(head.subrange(4 * k, 4 * k + 4) =~= bytes@.subrange(4 * k, 4 * k + 4));
        }
    }
    words
}

/// Words survive a device that gives back the bytes it is handed.
pub proof fn law_words_survive_the_device(words: Seq<u32>, bytes: Seq<u8>, back: Seq<u32>)
    requires
        all_kept_as(words, bytes),
        bytes.len() == 4 * words.len(),
        all_read_as(bytes, back),
        back.len() == bytes.len() / 4,
    ensures
        back == words,
{
    assert forall|k: int| 0 <= k < words.len() implies back[k] == words[k] by {
        let four = bytes.subrange(4 * k, 4 * k + 4);
        assert(kept_as(words[k], four) && read_as(four, back[k]));
        assert(four =~= seq![four[0], four[1], four[2], four[3]]);
    }
    assert(back =~= words);
}

/// A word for each cell, one where it is lit and zero where it is not.
pub open spec fn flag_words(occ: Seq<bool>) -> Seq<u32> {
    occ.map_values(|lit: bool| if lit { 1u32 } else { 0u32 })
}

/// The lit cells as a device keeps them.
pub fn encode_flags(occ: &Vec<bool>) -> (bytes: Vec<u8>)
    ensures
        spelled(bytes@, flag_words(occ@)),
        all_kept_as(flag_words(occ@), bytes@),
{
    let mut words: Vec<u32> = Vec::with_capacity(occ.len());
    let mut i: usize = 0;
    while i < occ.len()
        invariant
            i <= occ@.len(),
            words@ =~= flag_words(occ@).take(i as int),
        decreases occ@.len() - i,
    {
        words.push(if occ[i] { 1 } else { 0 });
        i = i + 1;
    }
    assert(words@ =~= flag_words(occ@));
    words_to_bytes(&words)
}

/// The lit cells as a device gives them back: those whose word is not zero.
pub fn decode_flags(bytes: &Vec<u8>) -> (occ: Vec<bool>)
    ensures
        occ@.len() == bytes@.len() / 4,
        forall|c: int|
            0 <= c < occ@.len() ==> #[trigger] occ@[c] == (bytes@[4 * c] != 0 || bytes@[4 * c + 1] != 0 || bytes@[4 * c + 2]
                != 0 || bytes@[4 * c + 3] != 0),
{
    let words = bytes_to_words(bytes);
    let ghost head = bytes@.take(4 * words@.len() as int);
    let mut occ: Vec<bool> = Vec::with_capacity(words.len());
    let mut i: usize = 0;
    while i < words.len()
        invariant
            i <= words@.len() == bytes@.len() / 4,
            head == bytes@.take(4 * words@.len() as int),
            spelled(head, words@),
            occ@.len() == i,
            forall|c: int|
                0 <= c < i ==> #[trigger] occ@[c] == (bytes@[4 * c] != 0 || bytes@[4 * c + 1] != 0 || bytes@[4 * c + 2] != 0
                    || bytes@[4 * c + 3] != 0),
        decreases words@.len() - i,
    {
        proof {
            let four = head.subrange(4 * i, 4 * i + 4);
            assert(spells(four, words@[i as int]));
            assert(four[0] == bytes@[4 * i] && four[1] == bytes@[4 * i + 1] && four[2] == bytes@[4 * i + 2] && four[3]
                == bytes@[4 * i + 3]);
        }
        occ.push(words[i] != 0);
        i = i + 1;
    }
    occ
}

/// What a device is handed it gives back: the cells read from the bytes of lit
/// cells are those cells, in whichever order the machine keeps its bytes.
pub proof fn law_flags_survive_the_device(occ: Seq<bool>, bytes: Seq<u8>, back: Seq<bool>)
    requires
        spelled(bytes, flag_words(occ)),
        back.len() == bytes.len() / 4,
        forall|c: int|
            0 <= c < back.len() ==> #[trigger] back[c] == (bytes[4 * c] != 0 || bytes[4 * c + 1] != 0 || bytes[4 * c + 2] != 0
                || bytes[4 * c + 3] != 0),
    ensures
        back == occ,
{
    assert forall|c: int| 0 <= c < occ.len() implies back[c] == occ[c] by {
        let four = bytes.subrange(4 * c, 4 * c + 4);
        assert(spells(four, flag_words(occ)[c]));
        assert(four[0] == bytes[4 * c] && four[1] == bytes[4 * c + 1] && four[2] == bytes[4 * c + 2] && four[3] == bytes[4 * c
            + 3]);
    }
    assert(back =~= occ);
}

/// A device keeps four bytes for a cell, one of which is one where the cell is lit,
/// and all others zero.
pub proof fn law_lit_cells_are_kept_as_ones(occ: Vec<bool>, bytes: Vec<u8>, c: int)
    requires
        call_ensures(encode_flags, (&occ,), bytes),
        0 <= c < occ@.len(),
    ensures
        bytes@.len() == 4 * occ@.len(),
        bytes@[4 * c] + bytes@[4 * c + 1] + bytes@[4 * c + 2] + bytes@[4 * c + 3] == (if occ@[c] {
            1int
        } else {
            0int
        }),
{
    let four = bytes@.subrange(4 * c, 4 * c + 4);
    assert(spells(four, flag_words(occ@)[c]));
    assert(four[0] == bytes@[4 * c] && four[1] == bytes@[4 * c + 1] && four[2] == bytes@[4 * c + 2] && four[3] == bytes@[4 * c
        + 3]);
}

/// What is handed to a device and read back from it is the same: words, lit cells,
/// and lit cells read as words that are not zero.
pub proof fn law_what_is_handed_over_is_read_back(
    words: Vec<u32>,
    kept: Vec<u8>,
    read: Vec<u32>,
    occ: Vec<bool>,
    bytes: Vec<u8>,
    back: Vec<bool>,
    cells: Vec<bool>,
)
    requires
        call_ensures(words_to_bytes, (&words,), kept),
        call_ensures(bytes_to_words, (&kept,), read),
        call_ensures(decode_flags, (&kept,), cells),
        call_ensures(encode_flags, (&occ,), bytes),
        call_ensures(decode_flags, (&bytes,), back),
    ensures
        read@ == words@,
        back@ == occ@,
        cells@.len() == words@.len(),
        forall|c: int| 0 <= c < cells@.len() ==> (#[trigger] cells@[c] <==> words@[c] != 0),
{
    law_words_survive_the_device(words@, kept@, read@);
    law_flags_survive_the_device(occ@, bytes@, back@);
    assert forall|c: int| 0 <= c < cells@.len() implies (#[trigger] cells@[c] <==> words@[c] != 0) by {
        let four = kept@.subrange(4 * c, 4 * c + 4);
        assert(spells(four, words@[c]));
        assert(four[0] == kept@[4 * c] && four[1] == kept@[4 * c + 1] && four[2] == kept@[4 * c + 2] && four[3] == kept@[4 * c
            + 3]);
    }
}

} // verus!

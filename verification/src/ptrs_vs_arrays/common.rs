use vstd::prelude::*;

verus! {

/// Number of letters that a word can be made of.
pub const LETTERS: usize = 26;

/// `c` is a lower-case letter.
pub open spec fn is_letter(c: u8) -> bool {
    0x61 <= c <= 0x7a
}

/// `word` is made of lower-case letters.
pub open spec fn is_word(word: Seq<u8>) -> bool {
    forall|i: int| 0 <= i < word.len() ==> is_letter(#[trigger] word[i])
}

/// The place of a letter in the alphabet, counted from zero.
pub open spec fn index_of(c: u8) -> int {
    c - 0x61
}

/// The place of a letter in the alphabet, counted from zero.
pub fn to_index(c: u8) -> (ix: usize)
    requires
        is_letter(c),
    ensures
        ix == index_of(c),
        ix < LETTERS,
{
    (c - 0x61) as usize
}

/// The rest of a word is a word.
pub proof fn lemma_word_rest(word: Seq<u8>)
    requires
        is_word(word),
        word.len() > 0,
    ensures
        is_word(word.skip(1)),
        is_letter(word[0]),
{
    assert forall|i: int| 0 <= i < word.skip(1).len() implies is_letter(#[trigger] word.skip(1)[i]) by {
        assert(word.skip(1)[i] == word[i + 1]);
    }
}

} // verus!

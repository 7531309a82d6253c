//! Texts as sequences of characters, and their UTF-8 encoding: what
//! splitting a string at a byte offset does to its characters.

use crate::loc::{byte_len, len_utf8, utf8_len};
use vstd::prelude::*;
use vstd::string::*;
use vstd::utf8::*;

verus! {

/// The UTF-8 encoding of a text followed by a character is the encoding of
/// the text followed by that of the character.
pub proof fn lemma_encode_push(s: Seq<char>, c: char)
    ensures
        encode_utf8(s.push(c)) =~= encode_utf8(s) + encode_scalar(c as u32),
    decreases s.len(),
{
    if s.len() == 0 {
        assert(s.push(c).drop_first() =~= s);
        assert(encode_utf8(s) =~= Seq::<u8>::empty());
    } else {
        assert(s.push(c).drop_first() =~= s.drop_first().push(c));
        lemma_encode_push(s.drop_first(), c);
    }
}

/// `byte_len` is the length of the UTF-8 encoding.
pub proof fn lemma_byte_len(s: Seq<char>)
    ensures
        byte_len(s) == encode_utf8(s).len(),
    decreases s.len(),
{
    if s.len() > 0 {
        lemma_byte_len(s.drop_last());
        lemma_encode_push(s.drop_last(), s.last());
        assert(s.drop_last().push(s.last()) =~= s);
    }
}

/// The encoding of two texts joined is their encodings joined, and the
/// encoding of the first ends on a character boundary of the whole.
pub proof fn lemma_encode_concat(a: Seq<char>, b: Seq<char>)
    ensures
        encode_utf8(a + b) =~= encode_utf8(a) + encode_utf8(b),
        is_char_boundary(encode_utf8(a + b), encode_utf8(a).len() as int),
    decreases a.len(),
{
    broadcast use encode_utf8_valid_utf8;

    if a.len() == 0 {
        assert(a + b =~= b);
        assert(encode_utf8(a) =~= Seq::<u8>::empty());
    } else {
        let whole = a + b;
        assert(whole.drop_first() =~= a.drop_first() + b);
        lemma_encode_concat(a.drop_first(), b);
        encode_utf8_first_scalar(whole);
        assert(pop_first_scalar(encode_utf8(whole)) =~= encode_utf8(whole.drop_first()));
        char_is_scalar(a[0]);
    }
}

/// Splitting the encoding of a text after the encoding of its first `k`
/// characters gives the encodings of those characters and of the rest.
pub proof fn lemma_split(s: Seq<char>, k: int)
    requires
        0 <= k <= s.len(),
    ensures
        is_char_boundary(encode_utf8(s), byte_len(s.take(k)) as int),
        byte_len(s.take(k)) <= byte_len(s),
        encode_utf8(s).subrange(0, byte_len(s.take(k)) as int) =~= encode_utf8(s.take(k)),
        encode_utf8(s).subrange(byte_len(s.take(k)) as int, byte_len(s) as int) =~= encode_utf8(
            s.skip(k),
        ),
{
    lemma_byte_len(s);
    lemma_byte_len(s.take(k));
    assert(s.take(k) + s.skip(k) =~= s);
    lemma_encode_concat(s.take(k), s.skip(k));
}

/// Two texts with the same encoding are the same text.
pub proof fn lemma_encode_injective(a: Seq<char>, b: Seq<char>)
    requires
        encode_utf8(a) == encode_utf8(b),
    ensures
        a == b,
{
    encode_utf8_decode_utf8(a);
    encode_utf8_decode_utf8(b);
}

/// The first character of `s` and the text after it, if `s` is not empty.
pub fn split_first<'a>(s: &'a str) -> (parts: Option<(char, &'a str)>)
    ensures
        parts is None <==> s@.len() == 0,
        parts matches Some((c, tail)) ==> c == s@[0] && tail@ == s@.drop_first(),
{
    let mut chars = s.chars();
    match chars.next() {
        None => None,
        Some(c) => {
            let n = len_utf8(c);
            proof {
                assert(s@[0] == c);
                lemma_split(s@, 1);
                assert(s@.take(1) =~= seq![c]);
                assert(seq![c].drop_last() =~= Seq::<char>::empty());
                assert(byte_len(seq![c]) == utf8_len(c)) by {
                    assert(byte_len(Seq::<char>::empty()) == 0);
                    assert(seq![c].last() == c);
                }
            }
            let (_, tail) = s.split_at(n);
            proof {
                lemma_byte_len(s@);
                lemma_encode_injective(tail@, s@.skip(1));
                assert(s@.skip(1) =~= s@.drop_first());
            }
            Some((c, tail))
        },
    }
}

} // verus!

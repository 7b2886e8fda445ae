//! Text of at most `N` bytes, held as UTF-8.
//!
//! Lengths and indices count bytes. An index at which a character is put in
//! or taken out must lie on a character boundary: at the first byte of a
//! character, or at the end of the text.

use crate::encoding::{decode_utf8_char, encode_utf8_char, lemma_first_scalar, utf8_width};
use crate::nul::{bounded_len, is_nul_index, nul_content};
use crate::vec::StaticVec;
use vstd::prelude::*;
use vstd::string::*;
use vstd::utf8::*;

verus! {

/// An insertion was refused: the text would have outgrown its capacity, or
/// the index lay beyond the end of the text. Nothing was changed.
#[derive(Debug, Clone, Copy, PartialEq, Eq, Structural)]
pub struct InsertError;

#[derive(Debug)]
pub struct StaticString<const N: usize> {
    internal: StaticVec<N, u8>,
}

/// `bytes` with `piece` put in at `index`.
pub open spec fn inserted_at(bytes: Seq<u8>, index: int, piece: Seq<u8>) -> Seq<u8> {
    bytes.take(index) + piece + bytes.skip(index)
}

/// `bytes` without the `count` bytes from `index` on.
pub open spec fn removed_at(bytes: Seq<u8>, index: int, count: int) -> Seq<u8> {
    bytes.take(index) + bytes.skip(index + count)
}

/// The encoding of one text followed by another is the encoding of the
/// first followed by the encoding of the second.
pub proof fn lemma_encode_concat(first: Seq<char>, second: Seq<char>)
    ensures
        encode_utf8(first + second) == encode_utf8(first) + encode_utf8(second),
    decreases first.len(),
{
    if first.len() == 0 {
        assert(first + second =~= second);
        assert(encode_utf8(first) + encode_utf8(second) =~= encode_utf8(second));
    } else {
        lemma_encode_concat(first.drop_first(), second);
        assert((first + second).drop_first() =~= first.drop_first() + second);
        assert(encode_utf8(first + second) =~= encode_utf8(first) + encode_utf8(second));
    }
}

/// The encoding of a text of one character is the encoding of that character.
pub proof fn lemma_encode_single(ch: char)
    ensures
        encode_utf8(seq![ch]) == encode_scalar(ch as u32),
        valid_utf8(encode_scalar(ch as u32)),
        decode_utf8(encode_scalar(ch as u32)) == seq![ch],
{
    reveal_with_fuel(encode_utf8, 2);
    assert(seq![ch].drop_first() =~= Seq::<char>::empty());
    assert(encode_utf8(seq![ch]) =~= encode_scalar(ch as u32));
    encode_utf8_valid_utf8(seq![ch]);
    encode_utf8_decode_utf8(seq![ch]);
}

/// Well-formed bytes followed by well-formed bytes are well-formed, and
/// decode to the one text followed by the other.
pub proof fn lemma_decode_concat(first: Seq<u8>, second: Seq<u8>)
    requires
        valid_utf8(first),
        valid_utf8(second),
    ensures
        valid_utf8(first + second),
        decode_utf8(first + second) == decode_utf8(first) + decode_utf8(second),
{
    valid_utf8_concat(first, second);
    decode_utf8_encode_utf8(first);
    decode_utf8_encode_utf8(second);
    lemma_encode_concat(decode_utf8(first), decode_utf8(second));
    encode_utf8_decode_utf8(decode_utf8(first) + decode_utf8(second));
}

/// A character boundary lies within the bytes, and cuts them into two
/// well-formed parts.
pub proof fn lemma_boundary_split(bytes: Seq<u8>, index: int)
    requires
        valid_utf8(bytes),
        is_char_boundary(bytes, index),
    ensures
        0 <= index <= bytes.len(),
        valid_utf8(bytes.take(index)),
        valid_utf8(bytes.skip(index)),
        decode_utf8(bytes) == decode_utf8(bytes.take(index)) + decode_utf8(bytes.skip(index)),
{
    valid_utf8_split(bytes, index);
    decode_utf8_split(bytes, index);
    assert(bytes.take(index) =~= bytes.subrange(0, index));
    assert(bytes.skip(index) =~= bytes.subrange(index, bytes.len() as int));
}

/// Putting well-formed bytes in at a character boundary leaves well-formed
/// bytes, which decode to what stood before the place, what was put in, and
/// what stood behind the place.
pub proof fn lemma_inserted_at(bytes: Seq<u8>, index: int, piece: Seq<u8>)
    requires
        valid_utf8(bytes),
        valid_utf8(piece),
        is_char_boundary(bytes, index),
    ensures
        valid_utf8(inserted_at(bytes, index, piece)),
        decode_utf8(inserted_at(bytes, index, piece)) == decode_utf8(bytes.take(index))
            + decode_utf8(piece) + decode_utf8(bytes.skip(index)),
{
    lemma_boundary_split(bytes, index);
    lemma_decode_concat(bytes.take(index), piece);
    lemma_decode_concat(bytes.take(index) + piece, bytes.skip(index));
}

/// Where well-formed bytes end and further well-formed bytes begin is a
/// character boundary of the two together.
pub proof fn lemma_boundary_between(first: Seq<u8>, second: Seq<u8>)
    requires
        valid_utf8(first),
        valid_utf8(second),
    ensures
        valid_utf8(first + second),
        is_char_boundary(first + second, first.len() as int),
{
    valid_utf8_concat(first, second);
    let both = first + second;
    if second.len() == 0 {
        assert(both =~= first);
        is_char_boundary_start_end_of_seq(both);
    } else {
        assert(valid_first_scalar(second));
        assert(both[first.len() as int] == second[0]);
        is_char_boundary_iff_not_is_continuation_byte(both, first.len() as int);
    }
}

/// The character that begins at a boundary before the end: taking its bytes
/// out leaves well-formed bytes, and the text is what stands before it, the
/// character, and what stands behind it.
pub proof fn lemma_removed_at(bytes: Seq<u8>, index: int)
    requires
        valid_utf8(bytes),
        is_char_boundary(bytes, index),
        index < bytes.len(),
    ensures
        valid_first_scalar(bytes.skip(index)),
        index + length_of_first_scalar(bytes.skip(index)) <= bytes.len(),
        valid_utf8(bytes.take(index)),
        valid_utf8(bytes.skip(index + length_of_first_scalar(bytes.skip(index)))),
        valid_utf8(removed_at(bytes, index, length_of_first_scalar(bytes.skip(index)))),
        decode_utf8(bytes) == decode_utf8(bytes.take(index)).push(
            decode_first_scalar(bytes.skip(index)) as char,
        ) + decode_utf8(bytes.skip(index + length_of_first_scalar(bytes.skip(index)))),
        decode_utf8(removed_at(bytes, index, length_of_first_scalar(bytes.skip(index))))
            == decode_utf8(bytes.take(index)) + decode_utf8(
            bytes.skip(index + length_of_first_scalar(bytes.skip(index))),
        ),
{
    lemma_boundary_split(bytes, index);
    let rest = bytes.skip(index);
    let width = length_of_first_scalar(rest);
    let ch = decode_first_scalar(rest) as char;
    assert(valid_first_scalar(rest));
    lemma_first_scalar(rest);
    assert(pop_first_scalar(rest) =~= bytes.skip(index + width));
    lemma_decode_concat(bytes.take(index), bytes.skip(index + width));
    assert(decode_utf8(rest) == seq![ch] + decode_utf8(bytes.skip(index + width)));
    assert(decode_utf8(bytes.take(index)) + (seq![ch] + decode_utf8(bytes.skip(index + width)))
        =~= decode_utf8(bytes.take(index)).push(ch) + decode_utf8(bytes.skip(index + width)));
}

/// The last character of well-formed bytes begins at the last byte that is
/// no continuation byte.
pub proof fn lemma_last_scalar(bytes: Seq<u8>, start: int)
    requires
        valid_utf8(bytes),
        0 <= start < bytes.len(),
        !is_continuation_byte(bytes[start]),
        forall|k: int| start < k < bytes.len() ==> is_continuation_byte(#[trigger] bytes[k]),
    ensures
        is_char_boundary(bytes, start),
        valid_utf8(bytes.take(start)),
        valid_first_scalar(bytes.skip(start)),
        length_of_first_scalar(bytes.skip(start)) == bytes.len() - start,
        decode_utf8(bytes) == decode_utf8(bytes.take(start)).push(
            decode_first_scalar(bytes.skip(start)) as char,
        ),
{
    is_char_boundary_iff_not_is_continuation_byte(bytes, start);
    lemma_removed_at(bytes, start);
    let rest = bytes.skip(start);
    let width = length_of_first_scalar(rest);
    let tail = bytes.skip(start + width);
    if start + width < bytes.len() {
        assert(valid_first_scalar(tail));
        assert(tail[0] == bytes[start + width]);
        assert(false);
    }
    assert(tail =~= Seq::<u8>::empty());
    assert(decode_utf8(tail) =~= Seq::<char>::empty());
    assert(decode_utf8(bytes.take(start)).push(decode_first_scalar(rest) as char) + decode_utf8(
        tail,
    ) =~= decode_utf8(bytes.take(start)).push(decode_first_scalar(rest) as char));
}

/// A character put in at a boundary and then taken out at the same index
/// is the character that was put in, and the bytes are what they were.
pub proof fn lemma_insert_then_remove(bytes: Seq<u8>, index: int, ch: char)
    requires
        valid_utf8(bytes),
        is_char_boundary(bytes, index),
    ensures
        ({
            let inserted = inserted_at(bytes, index, encode_scalar(ch as u32));
            &&& valid_utf8(inserted)
            &&& is_char_boundary(inserted, index)
            &&& index < inserted.len()
            &&& decode_first_scalar(inserted.skip(index)) as char == ch
            &&& length_of_first_scalar(inserted.skip(index)) == utf8_width(ch)
            &&& removed_at(inserted, index, length_of_first_scalar(inserted.skip(index))) == bytes
        }),
{
    let piece = encode_scalar(ch as u32);
    let inserted = inserted_at(bytes, index, piece);
    lemma_boundary_split(bytes, index);
    lemma_encode_single(ch);
    lemma_inserted_at(bytes, index, piece);
    let head = bytes.take(index);
    let rest = bytes.skip(index);
    lemma_decode_concat(piece, rest);
    lemma_boundary_between(head, piece + rest);
    assert(inserted =~= head + (piece + rest));
    assert(inserted.skip(index) =~= piece + rest);
    let chars = seq![ch] + decode_utf8(rest);
    lemma_encode_concat(seq![ch], decode_utf8(rest));
    decode_utf8_encode_utf8(rest);
    assert(encode_utf8(chars) == piece + rest);
    encode_utf8_first_scalar(chars);
    assert(inserted.take(index) =~= head);
    assert(inserted.skip(index + piece.len()) =~= rest);
    assert(head + rest =~= bytes);
}

/// `str::from_utf8` of the standard library: the text that the bytes hold,
/// with the same bytes, if and only if they are well-formed UTF-8.
#[verifier::external_body]
fn str_from_utf8(bytes: &[u8]) -> (r: Option<&str>)
    ensures
        r is Some <==> valid_utf8(bytes@),
        r matches Some(text) ==> text.spec_bytes() == bytes@,
{
    core::str::from_utf8(bytes).ok()
}

/// A text made from a string holds the bytes of the string, and reading
/// those bytes as a string gives the characters of the string back.
pub proof fn lemma_round_trip(chars: Seq<char>)
    ensures
        valid_utf8(encode_utf8(chars)),
        decode_utf8(encode_utf8(chars)) == chars,
{
    encode_utf8_valid_utf8(chars);
    encode_utf8_decode_utf8(chars);
}

impl<const N: usize> StaticString<N> {
    /// The bytes fit the capacity and are well-formed UTF-8.
    pub closed spec fn wf(&self) -> bool {
        &&& self.internal.wf()
        &&& valid_utf8(self.internal@)
    }

    /// The bytes of the text.
    pub closed spec fn bytes(&self) -> Seq<u8> {
        self.internal@
    }

    /// The characters of the text.
    pub closed spec fn view(&self) -> Seq<char> {
        decode_utf8(self.internal@)
    }

    /// The bytes are the encoding of the characters, and no more than `N`.
    pub proof fn lemma_bytes_of_view(&self)
        requires
            self.wf(),
        ensures
            valid_utf8(self.bytes()),
            self.bytes().len() <= N,
            self@ == decode_utf8(self.bytes()),
            self.bytes() == encode_utf8(self@),
    {
        self.internal.lemma_slots();
        decode_utf8_encode_utf8(self.internal@);
    }

    /// An empty text.
    pub fn new() -> (r: Self)
        ensures
            r.wf(),
            r@ == Seq::<char>::empty(),
            r.bytes() == Seq::<u8>::empty(),
    {
        StaticString { internal: StaticVec::new() }
    }

    /// The bytes of the text.
    pub fn as_bytes(&self) -> (r: &[u8])
        requires
            self.wf(),
        ensures
            r@ == self.bytes(),
            valid_utf8(r@),
    {
        self.internal.as_slice()
    }

    /// The length of the text in bytes.
    pub fn len(&self) -> (r: usize)
        requires
            self.wf(),
        ensures
            r == self.bytes().len(),
            r <= N,
    {
        self.internal.len()
    }

    /// The number of bytes that fit.
    pub fn capacity(&self) -> (r: usize)
        ensures
            r == N,
    {
        N
    }

    pub fn is_empty(&self) -> (r: bool)
        requires
            self.wf(),
        ensures
            r == (self.bytes().len() == 0),
            r == (self@.len() == 0),
    {
        proof {
            self.lemma_bytes_of_view();
            if self@.len() > 0 {
                encode_utf8_first_scalar(self@);
            }
        }
        self.len() == 0
    }

    /// Removes the whole text.
    pub fn clear(&mut self)
        requires
            old(self).wf(),
        ensures
            final(self).wf(),
            final(self)@ == Seq::<char>::empty(),
            final(self).bytes() == Seq::<u8>::empty(),
    {
        self.internal.clear();
    }

    /// Puts `ch` behind the text.
    pub fn push(&mut self, ch: char) -> (r: Result<(), InsertError>)
        requires
            old(self).wf(),
        ensures
            final(self).wf(),
            old(self).bytes().len() + utf8_width(ch) <= N ==> r == Ok::<(), InsertError>(())
                && final(self).bytes() == old(self).bytes() + encode_scalar(ch as u32)
                && final(self)@ == old(self)@.push(ch),
            old(self).bytes().len() + utf8_width(ch) > N ==> r == Err::<(), InsertError>(
                InsertError,
            ) && *final(self) == *old(self),
    {
        let (encoded, width) = encode_utf8_char(ch);
        let piece = vstd::slice::slice_subrange(encoded.as_slice(), 0, width);
        proof {
            lemma_encode_single(ch);
            lemma_decode_concat(self.internal@, piece@);
            assert(decode_utf8(self.internal@) + seq![ch] =~= decode_utf8(self.internal@).push(ch));
        }
        match self.internal.extend_from_slice(piece) {
            Ok(()) => Ok(()),
            Err(_) => Err(InsertError),
        }
    }

    /// Puts `string` behind the text: all of it or nothing.
    pub fn push_str(&mut self, string: &str) -> (r: Result<(), InsertError>)
        requires
            old(self).wf(),
        ensures
            final(self).wf(),
            old(self).bytes().len() + string.spec_bytes().len() <= N ==> r == Ok::<
                (),
                InsertError,
            >(()) && final(self).bytes() == old(self).bytes() + string.spec_bytes() && final(self)@
                == old(self)@ + string@,
            old(self).bytes().len() + string.spec_bytes().len() > N ==> r == Err::<
                (),
                InsertError,
            >(InsertError) && *final(self) == *old(self),
    {
        let piece = string.as_bytes();
        proof {
            encode_utf8_valid_utf8(string@);
            encode_utf8_decode_utf8(string@);
            lemma_decode_concat(self.internal@, piece@);
        }
        match self.internal.extend_from_slice(piece) {
            Ok(()) => Ok(()),
            Err(_) => Err(InsertError),
        }
    }
    /// The text as a string slice.
    pub fn as_str(&self) -> (r: &str)
        requires
            self.wf(),
        ensures
            r@ == self@,
            r.spec_bytes() == self.bytes(),
    {
        match str_from_utf8(self.internal.as_slice()) {
            Some(text) => {
                proof {
                    encode_utf8_decode_utf8(text@);
                }
                text
            },
            None => "",
        }
    }

    /// The bytes of the text, to be overwritten in place. The text is in
    /// order again once the bytes that were written are well-formed UTF-8.
    pub fn as_mut_bytes(&mut self) -> (r: &mut [u8])
        requires
            old(self).wf(),
        ensures
            r@ == old(self).bytes(),
            final(r)@.len() == r@.len() ==> final(self).bytes() == final(r)@,
            final(r)@.len() == r@.len() && valid_utf8(final(r)@) ==> final(self).wf(),
    {
        self.internal.as_mut_slice()
    }

    /// A text that holds `value`, which must fit.
    pub fn from(value: &str) -> (r: Self)
        requires
            value.spec_bytes().len() <= N,
        ensures
            r.wf(),
            r@ == value@,
            r.bytes() == value.spec_bytes(),
    {
        let mut text = Self::new();
        let _ = text.push_str(value);
        assert(value@ =~= Seq::<char>::empty() + value@);
        assert(value.spec_bytes() =~= Seq::<u8>::empty() + value.spec_bytes());
        text
    }

    /// A text that holds `value`, if it fits.
    pub fn try_from_str(value: &str) -> (r: Result<Self, InsertError>)
        ensures
            value.spec_bytes().len() <= N ==> r is Ok && r->Ok_0.wf() && r->Ok_0@ == value@
                && r->Ok_0.bytes() == value.spec_bytes(),
            value.spec_bytes().len() > N ==> r == Err::<Self, InsertError>(InsertError),
    {
        let mut text = Self::new();
        match text.push_str(value) {
            Ok(()) => {
                assert(value@ =~= Seq::<char>::empty() + value@);
                assert(value.spec_bytes() =~= Seq::<u8>::empty() + value.spec_bytes());
                Ok(text)
            },
            Err(e) => Err(e),
        }
    }

    /// Whether the text is, character for character, `other`.
    pub fn eq_str(&self, other: &str) -> (r: bool)
        requires
            self.wf(),
        ensures
            r == (self@ == other@),
    {
        let mine = self.internal.as_slice();
        let theirs = other.as_bytes();
        proof {
            self.lemma_bytes_of_view();
            encode_utf8_decode_utf8(other@);
        }
        if mine.len() != theirs.len() {
            return false;
        }
        let mut i: usize = 0;
        while i < mine.len()
            invariant
                i <= mine@.len(),
                mine@.len() == theirs@.len(),
                mine@ == encode_utf8(self@),
                theirs@ == encode_utf8(other@),
                mine@.take(i as int) == theirs@.take(i as int),
            decreases mine@.len() - i,
        {
            if mine[i] != theirs[i] {
                assert(mine@ != theirs@) by {
                    assert(mine@[i as int] != theirs@[i as int]);
                }
                return false;
            }
            i += 1;
            assert(mine@.take(i as int) =~= mine@.take(i - 1).push(mine@[i - 1]));
            assert(theirs@.take(i as int) =~= theirs@.take(i - 1).push(theirs@[i - 1]));
        }
        assert(mine@ =~= mine@.take(i as int));
        assert(theirs@ =~= theirs@.take(i as int));
        true
    }

    /// Whether `index` lies on a character boundary of the text.
    pub fn is_char_boundary(&self, index: usize) -> (r: bool)
        requires
            self.wf(),
        ensures
            r == is_char_boundary(self.bytes(), index as int),
    {
        let bytes = self.internal.as_slice();
        proof {
            is_char_boundary_start_end_of_seq(bytes@);
            if index < bytes@.len() {
                is_char_boundary_iff_not_is_continuation_byte(bytes@, index as int);
            }
        }
        if index == 0 || index == bytes.len() {
            true
        } else if index > bytes.len() {
            false
        } else {
            let byte = bytes[index];
            !(0x80 <= byte && byte <= 0xBF)
        }
    }

    /// Puts `ch` in at the byte index `index`.
    pub fn insert(&mut self, index: usize, ch: char) -> (r: Result<(), InsertError>)
        requires
            old(self).wf(),
            index <= old(self).bytes().len() ==> is_char_boundary(old(self).bytes(), index as int),
        ensures
            final(self).wf(),
            index <= old(self).bytes().len() && old(self).bytes().len() + utf8_width(ch) <= N
                ==> r == Ok::<(), InsertError>(()) && final(self).bytes() == inserted_at(
                old(self).bytes(),
                index as int,
                encode_scalar(ch as u32),
            ) && final(self)@ == decode_utf8(old(self).bytes().take(index as int)).push(ch)
                + decode_utf8(old(self).bytes().skip(index as int)),
            index > old(self).bytes().len() || old(self).bytes().len() + utf8_width(ch) > N ==> r
                == Err::<(), InsertError>(InsertError) && *final(self) == *old(self),
    {
        let (encoded, width) = encode_utf8_char(ch);
        let piece = vstd::slice::slice_subrange(encoded.as_slice(), 0, width);
        proof {
            lemma_encode_single(ch);
            if index <= self.internal@.len() {
                lemma_boundary_split(self.internal@, index as int);
                lemma_inserted_at(self.internal@, index as int, piece@);
            }
            assert(decode_utf8(self.internal@.take(index as int)) + seq![ch] =~= decode_utf8(
                self.internal@.take(index as int),
            ).push(ch));
        }
        match self.internal.insert_slice(index, piece) {
            Ok(()) => Ok(()),
            Err(_) => Err(InsertError),
        }
    }

    /// Puts `string` in at the byte index `index`: all of it or nothing.
    pub fn insert_str(&mut self, index: usize, string: &str) -> (r: Result<(), InsertError>)
        requires
            old(self).wf(),
            index <= old(self).bytes().len() ==> is_char_boundary(old(self).bytes(), index as int),
        ensures
            final(self).wf(),
            index <= old(self).bytes().len() && old(self).bytes().len() + string.spec_bytes().len()
                <= N ==> r == Ok::<(), InsertError>(()) && final(self).bytes() == inserted_at(
                old(self).bytes(),
                index as int,
                string.spec_bytes(),
            ) && final(self)@ == decode_utf8(old(self).bytes().take(index as int)) + string@
                + decode_utf8(old(self).bytes().skip(index as int)),
            index > old(self).bytes().len() || old(self).bytes().len() + string.spec_bytes().len()
                > N ==> r == Err::<(), InsertError>(InsertError) && *final(self) == *old(self),
    {
        let piece = string.as_bytes();
        proof {
            encode_utf8_valid_utf8(string@);
            encode_utf8_decode_utf8(string@);
            if index <= self.internal@.len() {
                lemma_boundary_split(self.internal@, index as int);
                lemma_inserted_at(self.internal@, index as int, piece@);
            }
        }
        match self.internal.insert_slice(index, piece) {
            Ok(()) => Ok(()),
            Err(_) => Err(InsertError),
        }
    }

    /// Cuts the text off before its first zero byte, if it has one.
    pub fn truncate_to_nul(&mut self)
        requires
            old(self).wf(),
        ensures
            final(self).wf(),
            is_nul_index(old(self).bytes(), final(self).bytes().len() as int),
            final(self).bytes() == nul_content(old(self).bytes()),
    {
        let bytes = self.internal.as_slice();
        let position = bounded_len(bytes, bytes.len());
        proof {
            assert(bytes@.take(bytes@.len() as int) =~= bytes@);
            if position < bytes@.len() {
                is_char_boundary_iff_not_is_continuation_byte(bytes@, position as int);
                lemma_boundary_split(bytes@, position as int);
            }
        }
        self.internal.truncate(position);
    }

    /// Cuts the text off at the byte index `new_len`, which must lie on a
    /// character boundary. Does nothing if the text is shorter.
    pub fn truncate(&mut self, new_len: usize)
        requires
            old(self).wf(),
            new_len <= old(self).bytes().len() ==> is_char_boundary(
                old(self).bytes(),
                new_len as int,
            ),
        ensures
            final(self).wf(),
            new_len <= old(self).bytes().len() ==> final(self).bytes() == old(self).bytes().take(
                new_len as int,
            ) && final(self)@ == decode_utf8(old(self).bytes().take(new_len as int)),
            new_len > old(self).bytes().len() ==> *final(self) == *old(self),
    {
        if new_len <= self.internal.len() {
            proof {
                lemma_boundary_split(self.internal@, new_len as int);
                assert(self.internal@.take(self.internal@.len() as int) =~= self.internal@);
            }
            self.internal.truncate(new_len);
        }
    }

    /// Takes the last character off the text.
    pub fn pop(&mut self) -> (r: Option<char>)
        requires
            old(self).wf(),
        ensures
            final(self).wf(),
            old(self)@.len() == 0 ==> r is None && *final(self) == *old(self),
            old(self)@.len() > 0 ==> r == Some(old(self)@.last()) && final(self)@ == old(
                self,
            )@.drop_last() && final(self).bytes() == old(self).bytes().take(
                old(self).bytes().len() - utf8_width(old(self)@.last()),
            ),
    {
        proof {
            self.lemma_bytes_of_view();
            if self@.len() > 0 {
                encode_utf8_first_scalar(self@);
            }
        }
        let bytes = self.internal.as_slice();
        let len = bytes.len();
        if len == 0 {
            return None;
        }
        let mut start: usize = len - 1;
        while 0x80 <= bytes[start] && bytes[start] <= 0xBF
            invariant
                start < len,
                len == bytes@.len(),
                valid_utf8(bytes@),
                forall|k: int| start < k < len ==> is_continuation_byte(#[trigger] bytes@[k]),
            decreases start,
        {
            proof {
                if start == 0 {
                    is_char_boundary_iff_not_is_continuation_byte(bytes@, 0);
                }
            }
            start -= 1;
        }
        proof {
            lemma_last_scalar(bytes@, start as int);
        }
        let (ch, width) = decode_utf8_char(bytes, start);
        proof {
            let before = decode_utf8(bytes@.take(start as int));
            assert(before.push(ch).last() == ch);
            assert(before.push(ch).drop_last() =~= before);
        }
        self.internal.truncate(start);
        Some(ch)
    }

    /// Takes the character that begins at the byte index `index` out of the text.
    pub fn remove(&mut self, index: usize) -> (r: char)
        requires
            old(self).wf(),
            index < old(self).bytes().len(),
            is_char_boundary(old(self).bytes(), index as int),
        ensures
            final(self).wf(),
            r == decode_first_scalar(old(self).bytes().skip(index as int)) as char,
            final(self).bytes() == removed_at(old(self).bytes(), index as int, utf8_width(r) as int),
            old(self)@ == decode_utf8(old(self).bytes().take(index as int)).push(r) + decode_utf8(
                old(self).bytes().skip(index + utf8_width(r)),
            ),
            final(self)@ == decode_utf8(old(self).bytes().take(index as int)) + decode_utf8(
                old(self).bytes().skip(index + utf8_width(r)),
            ),
    {
        proof {
            lemma_removed_at(self.internal@, index as int);
        }
        let (ch, width) = decode_utf8_char(self.internal.as_slice(), index);
        let _ = self.internal.remove_range(index, width);
        ch
    }
}

impl<const N: usize> Clone for StaticString<N> {
    fn clone(&self) -> (r: Self)
        ensures
            r@ == self@,
            r.bytes() == self.bytes(),
            r.wf() == self.wf(),
    {
        StaticString { internal: self.internal.clone() }
    }
}

impl<const N: usize> Default for StaticString<N> {
    fn default() -> (r: Self)
        ensures
            r.wf(),
            r@ == Seq::<char>::empty(),
    {
        Self::new()
    }
}

/// The text that a formatting has produced, as a text of at most `N` bytes.
/// Fails if the formatted text is longer.
pub fn _static_fmt_str<const N: usize>(formatted: &str) -> (r: Result<StaticString<N>, InsertError>)
    ensures
        formatted.spec_bytes().len() <= N ==> r is Ok && r->Ok_0.wf() && r->Ok_0@ == formatted@
            && r->Ok_0.bytes() == formatted.spec_bytes(),
        formatted.spec_bytes().len() > N ==> r == Err::<StaticString<N>, InsertError>(InsertError),
{
    StaticString::try_from_str(formatted)
}

} // verus!

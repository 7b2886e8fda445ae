//! Text of at most `N` units, held as UTF-16.
//!
//! Lengths and indices count 16-bit units; a character outside the basic
//! plane takes two. A character is written whole or not at all. The two
//! operations that write one character keep one unit of the capacity spare:
//! they succeed only where more units are free than the character takes.
//! The two that write a string may fill the capacity to the last unit.

use crate::encoding::{
    decode_utf16_char,
    decode_utf16_lossy,
    encode_utf16,
    encode_utf16_char,
    encode_utf16_units,
    lemma_utf16_char,
    lemma_utf16_concat,
    lemma_utf16_round_trip,
    string_push,
    utf16_width,
    valid_utf16,
};
use crate::string::InsertError;
use crate::vec::StaticVec;
use vstd::prelude::*;

verus! {

#[derive(Debug)]
pub struct StaticWString<const N: usize> {
    internal: StaticVec<N, u16>,
}

/// The UTF-16 encoding of `string`.
pub fn encode_str(string: &str) -> (r: Vec<u16>)
    ensures
        r@ == encode_utf16(string@),
{
    let mut units: Vec<u16> = Vec::new();
    for ch in iter: string.chars()
        invariant
            iter.seq() == string@,
            units@ == encode_utf16(string@.take(iter.index() as int)),
    {
        assert(string@.take(iter.index() + 1).drop_last() =~= string@.take(iter.index() as int));
        let (encoded, width) = encode_utf16_units(ch);
        units.push(encoded[0]);
        if width == 2 {
            units.push(encoded[1]);
        }
        assert(units@ =~= encode_utf16(string@.take(iter.index() as int)) + encoded@.take(
            width as int,
        ));
    }
    assert(string@.take(string@.len() as int) =~= string@);
    units
}

/// The text that `units` decode to, with the replacement character in the
/// place of every surrogate that has no partner.
pub fn decode_units(units: &[u16]) -> (r: String)
    ensures
        r@ == decode_utf16_lossy(units@),
{
    let mut text = String::new();
    let mut index: usize = 0;
    assert(units@.skip(0) =~= units@);
    assert(text@ + decode_utf16_lossy(units@) =~= decode_utf16_lossy(units@));
    while index < units.len()
        invariant
            index <= units@.len(),
            text@ + decode_utf16_lossy(units@.skip(index as int)) == decode_utf16_lossy(units@),
        decreases units@.len() - index,
    {
        let ghost rest = units@.skip(index as int);
        let ghost before = text@;
        let (ch, step) = decode_utf16_char(units, index);
        string_push(&mut text, ch);
        index += step;
        proof {
            assert(rest.skip(step as int) =~= units@.skip(index as int));
            assert(before.push(ch) + decode_utf16_lossy(units@.skip(index as int)) =~= before + (
            seq![ch] + decode_utf16_lossy(units@.skip(index as int))));
        }
    }
    assert(text@ + Seq::<char>::empty() =~= text@);
    text
}

impl<const N: usize> StaticWString<N> {
    /// The units fit the capacity.
    pub closed spec fn wf(&self) -> bool {
        &&& self.internal.wf()
    }

    /// The units of the text.
    pub closed spec fn units(&self) -> Seq<u16> {
        self.internal@
    }

    /// The characters of the text, as `to_string` shows them.
    pub closed spec fn view(&self) -> Seq<char> {
        decode_utf16_lossy(self.internal@)
    }

    /// The characters are what the units decode to, and the units are no
    /// more than `N`.
    pub proof fn lemma_view_of_units(&self)
        requires
            self.wf(),
        ensures
            self.units().len() <= N,
            self@ == decode_utf16_lossy(self.units()),
    {
        self.internal.lemma_slots();
    }

    /// An empty text.
    pub fn new() -> (r: Self)
        ensures
            r.wf(),
            r.units() == Seq::<u16>::empty(),
            r@ == Seq::<char>::empty(),
    {
        StaticWString { internal: StaticVec::new() }
    }

    /// The length of the text in units.
    pub fn len(&self) -> (r: usize)
        requires
            self.wf(),
        ensures
            r == self.units().len(),
            r <= N,
    {
        self.internal.len()
    }

    /// The number of units that fit.
    pub fn capacity(&self) -> (r: usize)
        ensures
            r == N,
    {
        N
    }

    pub fn is_empty(&self) -> (r: bool)
        requires
            self.wf(),
        ensures
            r == (self.units().len() == 0),
    {
        self.len() == 0
    }

    /// The units of the text.
    pub fn as_slice(&self) -> (r: &[u16])
        requires
            self.wf(),
        ensures
            r@ == self.units(),
    {
        self.internal.as_slice()
    }

    /// The units of the text, to be overwritten in place.
    pub fn as_mut_slice(&mut self) -> (r: &mut [u16])
        requires
            old(self).wf(),
        ensures
            r@ == old(self).units(),
            final(r)@.len() == r@.len() ==> final(self).wf() && final(self).units() == final(r)@,
    {
        self.internal.as_mut_slice()
    }

    /// The unit at `index`, if there is one.
    pub fn get(&self, index: usize) -> (r: Option<u16>)
        requires
            self.wf(),
        ensures
            index < self.units().len() ==> r == Some(self.units()[index as int]),
            index >= self.units().len() ==> r is None,
    {
        let units = self.internal.as_slice();
        if index < units.len() {
            Some(units[index])
        } else {
            None
        }
    }

    /// Puts `ch` behind the text, if more units are free than `ch` takes.
    pub fn push_char(&mut self, ch: char) -> (r: Result<(), InsertError>)
        requires
            old(self).wf(),
        ensures
            final(self).wf(),
            old(self).units().len() + utf16_width(ch) < N ==> r == Ok::<(), InsertError>(())
                && final(self).units() == old(self).units() + encode_utf16_char(ch),
            old(self).units().len() + utf16_width(ch) >= N ==> r == Err::<(), InsertError>(
                InsertError,
            ) && *final(self) == *old(self),
            r is Ok && valid_utf16(old(self).units()) ==> valid_utf16(final(self).units())
                && final(self)@ == old(self)@.push(ch),
    {
        let (encoded, width) = encode_utf16_units(ch);
        if N - self.internal.len() > width {
            let piece = vstd::slice::slice_subrange(encoded.as_slice(), 0, width);
            proof {
                lemma_utf16_char(ch);
                if valid_utf16(self.internal@) {
                    lemma_utf16_concat(self.internal@, piece@);
                    assert(decode_utf16_lossy(self.internal@) + seq![ch] =~= decode_utf16_lossy(
                        self.internal@,
                    ).push(ch));
                }
            }
            let _ = self.internal.extend_from_slice(piece);
            Ok(())
        } else {
            Err(InsertError)
        }
    }

    /// Puts `s` behind the text: all of it or nothing.
    pub fn push_str(&mut self, s: &str) -> (r: Result<(), InsertError>)
        requires
            old(self).wf(),
        ensures
            final(self).wf(),
            old(self).units().len() + encode_utf16(s@).len() <= N ==> r == Ok::<(), InsertError>(
                (),
            ) && final(self).units() == old(self).units() + encode_utf16(s@),
            old(self).units().len() + encode_utf16(s@).len() > N ==> r == Err::<(), InsertError>(
                InsertError,
            ) && *final(self) == *old(self),
            r is Ok && valid_utf16(old(self).units()) ==> valid_utf16(final(self).units())
                && final(self)@ == old(self)@ + s@,
    {
        let staged = encode_str(s);
        proof {
            lemma_utf16_round_trip(s@);
            if valid_utf16(self.internal@) {
                lemma_utf16_concat(self.internal@, staged@);
            }
        }
        match self.internal.extend_from_slice(staged.as_slice()) {
            Ok(()) => Ok(()),
            Err(_) => Err(InsertError),
        }
    }

    /// Puts `ch` in at the unit index `index`, if more units are free than
    /// `ch` takes and the index does not lie beyond the end.
    pub fn insert_char(&mut self, index: usize, ch: char) -> (r: Result<(), InsertError>)
        requires
            old(self).wf(),
        ensures
            final(self).wf(),
            index <= old(self).units().len() && old(self).units().len() + utf16_width(ch) < N
                ==> r == Ok::<(), InsertError>(()) && final(self).units() == old(
                self,
            ).units().take(index as int) + encode_utf16_char(ch) + old(self).units().skip(
                index as int,
            ),
            index > old(self).units().len() || old(self).units().len() + utf16_width(ch) >= N
                ==> r == Err::<(), InsertError>(InsertError) && *final(self) == *old(self),
            r is Ok && valid_utf16(old(self).units().take(index as int)) && valid_utf16(
                old(self).units().skip(index as int),
            ) ==> valid_utf16(final(self).units()) && final(self)@ == decode_utf16_lossy(
                old(self).units().take(index as int),
            ).push(ch) + decode_utf16_lossy(old(self).units().skip(index as int)),
    {
        let (encoded, width) = encode_utf16_units(ch);
        if index <= self.internal.len() && N - self.internal.len() > width {
            let piece = vstd::slice::slice_subrange(encoded.as_slice(), 0, width);
            proof {
                lemma_utf16_char(ch);
                let head = self.internal@.take(index as int);
                let tail = self.internal@.skip(index as int);
                if valid_utf16(head) && valid_utf16(tail) {
                    lemma_utf16_concat(head, piece@);
                    lemma_utf16_concat(piece@, tail);
                    lemma_utf16_concat(head + piece@, tail);
                    assert(decode_utf16_lossy(head) + seq![ch] =~= decode_utf16_lossy(head).push(
                        ch,
                    ));
                }
            }
            let _ = self.internal.insert_slice(index, piece);
            Ok(())
        } else {
            Err(InsertError)
        }
    }

    /// Puts `s` in at the unit index `index`: all of it or nothing.
    pub fn insert_str(&mut self, index: usize, s: &str) -> (r: Result<(), InsertError>)
        requires
            old(self).wf(),
        ensures
            final(self).wf(),
            index <= old(self).units().len() && old(self).units().len() + encode_utf16(s@).len()
                <= N ==> r == Ok::<(), InsertError>(()) && final(self).units() == old(
                self,
            ).units().take(index as int) + encode_utf16(s@) + old(self).units().skip(index as int),
            index > old(self).units().len() || old(self).units().len() + encode_utf16(s@).len() > N
                ==> r == Err::<(), InsertError>(InsertError) && *final(self) == *old(self),
            r is Ok && valid_utf16(old(self).units().take(index as int)) && valid_utf16(
                old(self).units().skip(index as int),
            ) ==> valid_utf16(final(self).units()) && final(self)@ == decode_utf16_lossy(
                old(self).units().take(index as int),
            ) + s@ + decode_utf16_lossy(old(self).units().skip(index as int)),
    {
        let staged = encode_str(s);
        proof {
            lemma_utf16_round_trip(s@);
            let head = self.internal@.take(index as int);
            let tail = self.internal@.skip(index as int);
            if valid_utf16(head) && valid_utf16(tail) {
                lemma_utf16_concat(head, staged@);
                lemma_utf16_concat(staged@, tail);
                lemma_utf16_concat(head + staged@, tail);
            }
        }
        match self.internal.insert_slice(index, staged.as_slice()) {
            Ok(()) => Ok(()),
            Err(_) => Err(InsertError),
        }
    }

    /// A text that holds `value`, which must fit.
    pub fn from(value: &str) -> (r: Self)
        requires
            encode_utf16(value@).len() <= N,
        ensures
            r.wf(),
            r.units() == encode_utf16(value@),
            valid_utf16(r.units()),
            r@ == value@,
    {
        let mut text = Self::new();
        let _ = text.push_str(value);
        proof {
            lemma_utf16_round_trip(value@);
            assert(Seq::<u16>::empty() + encode_utf16(value@) =~= encode_utf16(value@));
        }
        text
    }

    /// A text that holds `value`, if it fits.
    pub fn try_from_str(value: &str) -> (r: Result<Self, InsertError>)
        ensures
            encode_utf16(value@).len() <= N ==> r is Ok && r->Ok_0.wf() && r->Ok_0.units()
                == encode_utf16(value@) && valid_utf16(r->Ok_0.units()) && r->Ok_0@ == value@,
            encode_utf16(value@).len() > N ==> r == Err::<Self, InsertError>(InsertError),
    {
        let mut text = Self::new();
        match text.push_str(value) {
            Ok(()) => {
                proof {
                    lemma_utf16_round_trip(value@);
                    assert(Seq::<u16>::empty() + encode_utf16(value@) =~= encode_utf16(value@));
                }
                Ok(text)
            },
            Err(e) => Err(e),
        }
    }

    /// Whether the units of the text are those of `other`.
    pub fn eq_units(&self, other: &[u16]) -> (r: bool)
        requires
            self.wf(),
        ensures
            r == (self.units() == other@),
    {
        let mine = self.internal.as_slice();
        if mine.len() != other.len() {
            return false;
        }
        let mut i: usize = 0;
        while i < mine.len()
            invariant
                i <= mine@.len(),
                mine@.len() == other@.len(),
                mine@ == self.units(),
                mine@.take(i as int) == other@.take(i as int),
            decreases mine@.len() - i,
        {
            if mine[i] != other[i] {
                assert(mine@[i as int] != other@[i as int]);
                return false;
            }
            i += 1;
            assert(mine@.take(i as int) =~= mine@.take(i - 1).push(mine@[i - 1]));
            assert(other@.take(i as int) =~= other@.take(i - 1).push(other@[i - 1]));
        }
        assert(mine@ =~= mine@.take(i as int));
        assert(other@ =~= other@.take(i as int));
        true
    }

    /// The text as a string. A surrogate without its partner shows as the
    /// replacement character.
    pub fn to_string(&self) -> (r: String)
        requires
            self.wf(),
        ensures
            r@ == self@,
            r@ == decode_utf16_lossy(self.units()),
    {
        decode_units(self.internal.as_slice())
    }
}

impl<const N: usize> Clone for StaticWString<N> {
    fn clone(&self) -> (r: Self)
        ensures
            r@ == self@,
            r.units() == self.units(),
            r.wf() == self.wf(),
    {
        StaticWString { internal: self.internal.clone() }
    }
}

impl<const N: usize> Default for StaticWString<N> {
    fn default() -> (r: Self)
        ensures
            r.wf(),
            r.units() == Seq::<u16>::empty(),
    {
        Self::new()
    }
}

} // verus!

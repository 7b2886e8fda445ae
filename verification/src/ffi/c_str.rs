//! Text in a buffer of `N` bytes that ends at its first zero byte.
//!
//! The buffer always holds a zero byte, so the text is at most `N - 1` bytes
//! long. What stands behind the first zero byte is no part of the text.

use crate::nul::{bounded_len, has_nul, is_nul_index, lemma_nul_length, nul_content, nul_length};
use crate::string::InsertError;
use vstd::prelude::*;
use vstd::slice::slice_subrange;

verus! {

/// The bytes hold no zero byte.
#[derive(Debug, Clone, Copy, PartialEq, Eq, Structural)]
pub struct NotNullTerminatedError;

#[derive(Debug, Clone, Copy)]
pub struct StaticCString<const N: usize> {
    buffer: [u8; N],
}

/// How two texts compare, byte by byte: below zero if `a` comes first, zero
/// if they are the same, above zero if `b` comes first. A text comes before
/// every longer text that begins with it.
pub open spec fn content_order(a: Seq<u8>, b: Seq<u8>) -> int
    decreases a.len(),
{
    if a.len() == 0 {
        if b.len() == 0 {
            0
        } else {
            -1
        }
    } else if b.len() == 0 {
        1
    } else if a[0] < b[0] {
        -1
    } else if a[0] > b[0] {
        1
    } else {
        content_order(a.skip(1), b.skip(1))
    }
}

/// Two texts compare as the same if and only if they are the same.
pub proof fn lemma_order_zero(a: Seq<u8>, b: Seq<u8>)
    ensures
        -1 <= content_order(a, b) <= 1,
        content_order(a, b) == 0 <==> a == b,
    decreases a.len(),
{
    if a.len() == 0 {
        if b.len() == 0 {
            assert(a =~= b);
        }
    } else if b.len() == 0 {
    } else if a[0] == b[0] {
        lemma_order_zero(a.skip(1), b.skip(1));
        if a.skip(1) == b.skip(1) {
            assert(a =~= seq![a[0]] + a.skip(1));
            assert(b =~= seq![b[0]] + b.skip(1));
        }
    }
}

/// Compares two runs of bytes.
fn order_of(a: &[u8], b: &[u8]) -> (r: i8)
    ensures
        r == content_order(a@, b@),
{
    let mut i: usize = 0;
    assert(a@.skip(0) =~= a@ && b@.skip(0) =~= b@);
    while i < a.len() && i < b.len()
        invariant
            i <= a@.len(),
            i <= b@.len(),
            content_order(a@, b@) == content_order(a@.skip(i as int), b@.skip(i as int)),
        decreases a@.len() - i,
    {
        if a[i] < b[i] {
            return -1;
        }
        if a[i] > b[i] {
            return 1;
        }
        assert(a@.skip(i as int).skip(1) =~= a@.skip(i + 1));
        assert(b@.skip(i as int).skip(1) =~= b@.skip(i + 1));
        i += 1;
    }
    if i < b.len() {
        -1
    } else if i < a.len() {
        1
    } else {
        0
    }
}

impl<const N: usize> StaticCString<N> {
    /// The buffer holds a zero byte.
    pub closed spec fn wf(&self) -> bool {
        has_nul(self.buffer@)
    }

    /// The bytes of the text, without the zero byte that ends it.
    pub closed spec fn content(&self) -> Seq<u8> {
        nul_content(self.buffer@)
    }

    /// The text is shorter than the buffer and holds no zero byte.
    pub proof fn lemma_content(&self)
        requires
            self.wf(),
        ensures
            self.content().len() < N,
            forall|k: int| 0 <= k < self.content().len() ==> self.content()[k] != 0,
    {
        lemma_nul_length(self.buffer@);
    }

    /// An empty text.
    pub fn new() -> (r: Self)
        requires
            N > 0,
        ensures
            r.wf(),
            r.content() == Seq::<u8>::empty(),
    {
        let r = StaticCString { buffer: [0u8; N] };
        assert(r.buffer@[0] == 0);
        r
    }

    /// Takes `buffer` over as a text, if it holds a zero byte.
    pub fn from_array(buffer: [u8; N]) -> (r: Result<Self, NotNullTerminatedError>)
        ensures
            has_nul(buffer@) ==> r is Ok && r->Ok_0.wf() && r->Ok_0.content() == nul_content(
                buffer@,
            ),
            !has_nul(buffer@) ==> r == Err::<Self, NotNullTerminatedError>(NotNullTerminatedError),
    {
        let length = bounded_len(buffer.as_slice(), N);
        proof {
            assert(buffer@.take(N as int) =~= buffer@);
            lemma_nul_length(buffer@);
        }
        if length >= N {
            Err(NotNullTerminatedError)
        } else {
            Ok(StaticCString { buffer })
        }
    }

    /// A text that holds the bytes of `value` before its first zero byte,
    /// cut off after `N - 1` bytes if there are more.
    pub fn from_bytes(value: &[u8]) -> (r: Self)
        requires
            N > 0,
        ensures
            r.wf(),
            nul_length(value@) < N ==> r.content() == nul_content(value@),
            nul_length(value@) >= N ==> r.content() == value@.take(N - 1),
    {
        let mut buffer = [0u8; N];
        let limit = if value.len() < N - 1 {
            value.len()
        } else {
            N - 1
        };
        let count = bounded_len(value, limit);
        let mut i: usize = 0;
        while i < count
            invariant
                i <= count <= limit,
                limit <= N - 1,
                limit <= value@.len(),
                is_nul_index(value@.take(limit as int), count as int),
                forall|k: int| 0 <= k < i ==> buffer@[k] == value@[k],
                forall|k: int| i <= k < N ==> buffer@[k] == 0,
            decreases count - i,
        {
            buffer[i] = value[i];
            i += 1;
        }
        proof {
            lemma_nul_length(buffer@);
            lemma_nul_length(value@);
            assert forall|k: int| 0 <= k < count implies buffer@[k] != 0 by {
                assert(value@.take(limit as int)[k] != 0);
            }
            assert(buffer@[count as int] == 0);
            assert(is_nul_index(buffer@, count as int));
            if count < limit {
                assert(value@.take(limit as int)[count as int] == 0);
                assert(is_nul_index(value@, count as int));
            } else if limit == value@.len() {
                assert(value@.take(limit as int) =~= value@);
            } else {
                assert forall|k: int| 0 <= k < N - 1 implies value@[k] != 0 by {
                    assert(value@.take(limit as int)[k] != 0);
                }
                if nul_length(value@) < N - 1 {
                    assert(value@[nul_length(value@)] == 0);
                }
            }
            assert(buffer@.take(count as int) =~= value@.take(count as int));
        }
        StaticCString { buffer }
    }

    /// The length of the text in bytes.
    pub fn len(&self) -> (r: usize)
        requires
            self.wf(),
        ensures
            r == self.content().len(),
            r < N,
    {
        proof {
            assert(self.buffer@.take(N as int) =~= self.buffer@);
            lemma_nul_length(self.buffer@);
        }
        bounded_len(self.buffer.as_slice(), N)
    }

    pub fn is_empty(&self) -> (r: bool)
        requires
            self.wf(),
        ensures
            r == (self.content().len() == 0),
    {
        self.len() == 0
    }

    /// The size of the buffer: one more than the longest text that fits.
    pub fn capacity(&self) -> (r: usize)
        ensures
            r == N,
    {
        N
    }

    /// The bytes of the text, without the zero byte that ends it.
    pub fn as_bytes(&self) -> (r: &[u8])
        requires
            self.wf(),
        ensures
            r@ == self.content(),
    {
        let length = self.len();
        proof {
            lemma_nul_length(self.buffer@);
            assert(self.buffer@.subrange(0, length as int) =~= self.content());
        }
        slice_subrange(self.buffer.as_slice(), 0, length)
    }

    /// The bytes of the text and the zero byte that ends it.
    pub fn as_bytes_with_nul(&self) -> (r: &[u8])
        requires
            self.wf(),
        ensures
            r@ == self.content().push(0u8),
    {
        let length = self.len();
        proof {
            lemma_nul_length(self.buffer@);
            assert(self.buffer@.subrange(0, length + 1) =~= self.content().push(0u8));
        }
        slice_subrange(self.buffer.as_slice(), 0, length + 1)
    }

    /// Whether the two texts are the same.
    pub fn eq<const M: usize>(&self, other: &StaticCString<M>) -> (r: bool)
        requires
            self.wf(),
            other.wf(),
        ensures
            r == (self.content() == other.content()),
    {
        proof {
            lemma_order_zero(self.content(), other.content());
        }
        order_of(self.as_bytes(), other.as_bytes()) == 0
    }

    /// How this text compares with `other`, byte by byte.
    pub fn partial_cmp<const M: usize>(&self, other: &StaticCString<M>) -> (r: Option<
        core::cmp::Ordering,
    >)
        requires
            self.wf(),
            other.wf(),
        ensures
            content_order(self.content(), other.content()) < 0 ==> r == Some(
                core::cmp::Ordering::Less,
            ),
            content_order(self.content(), other.content()) == 0 ==> r == Some(
                core::cmp::Ordering::Equal,
            ),
            content_order(self.content(), other.content()) > 0 ==> r == Some(
                core::cmp::Ordering::Greater,
            ),
    {
        let sign = order_of(self.as_bytes(), other.as_bytes());
        if sign < 0 {
            Some(core::cmp::Ordering::Less)
        } else if sign == 0 {
            Some(core::cmp::Ordering::Equal)
        } else {
            Some(core::cmp::Ordering::Greater)
        }
    }

    /// Puts the text of `rhs` behind this text: all of it or nothing.
    pub fn push_c_str<const M: usize>(&mut self, rhs: &StaticCString<M>) -> (r: Result<
        (),
        InsertError,
    >)
        requires
            old(self).wf(),
            rhs.wf(),
        ensures
            final(self).wf(),
            old(self).content().len() + rhs.content().len() < N ==> r == Ok::<(), InsertError>(())
                && final(self).content() == old(self).content() + rhs.content(),
            old(self).content().len() + rhs.content().len() >= N ==> r == Err::<(), InsertError>(
                InsertError,
            ) && *final(self) == *old(self),
    {
        let start = self.len();
        let added = rhs.as_bytes();
        let count = added.len();
        if count >= N - start {
            return Err(InsertError);
        }
        proof {
            lemma_nul_length(self.buffer@);
            rhs.lemma_content();
        }
        let ghost before = self.buffer@;
        self.buffer[start + count] = 0;
        let mut i: usize = 0;
        while i < count
            invariant
                i <= count,
                count == added@.len(),
                start + count < N,
                forall|k: int| 0 <= k < start ==> self.buffer@[k] == before[k],
                forall|k: int| 0 <= k < i ==> self.buffer@[start + k] == added@[k],
                self.buffer@[start + count] == 0,
            decreases count - i,
        {
            self.buffer[start + i] = added[i];
            i += 1;
        }
        proof {
            let total = start + count;
            assert forall|k: int| 0 <= k < total implies self.buffer@[k] != 0 by {
                if k < start {
                    assert(before[k] != 0);
                } else {
                    assert(self.buffer@[start + (k - start)] == added@[k - start]);
                    assert(rhs.content()[k - start] != 0);
                }
            }
            assert(is_nul_index(self.buffer@, total));
            lemma_nul_length(self.buffer@);
            assert(self.buffer@.take(total) =~= before.take(start as int) + added@) by {
                assert forall|k: int| 0 <= k < total implies self.buffer@.take(total)[k] == (
                before.take(start as int) + added@)[k] by {
                    if k >= start {
                        assert(self.buffer@[start + (k - start)] == added@[k - start]);
                    }
                }
            }
        }
        Ok(())
    }
}

} // verus!

//! A view of `N` bits laid over words that the caller owns.
//!
//! The view holds no data. Every operation is handed the backing region, a
//! slice of 64-bit words in which bit `p` of the view is bit `p % 64` of word
//! `p / 64`. The region may be longer than the view needs; bits at positions
//! `N` and above are never reported and never changed.
//!
//! A search goes through the region a word at a time and finds the bit
//! within a word by a [`BitScan`]. There are two: one counts zeros, which a
//! processor with a bit-scan instruction does in one step, the other loops
//! over the bits. They are proved against one contract, so a search gives
//! the same result with either.

use crate::encoding::string_push;
use vstd::prelude::*;
use vstd::string::*;

verus! {

/// Number of bits in one backing word.
pub const WORD_BITS: usize = 64;

/// Whether bit `index` of `word` is set, for `0 <= index < 64`.
pub open spec fn bit_of_word(word: u64, index: int) -> bool {
    (word >> (index as u64)) & 1 == 1
}

/// `word` with bit `index` forced to `value`, for `0 <= index < 64`.
pub open spec fn word_with_bit(word: u64, index: int, value: bool) -> u64 {
    if value {
        word | (1u64 << (index as u64))
    } else {
        word & !(1u64 << (index as u64))
    }
}

/// Whether the bit at `position` of the region `words` is set.
pub open spec fn bit_at(words: Seq<u64>, position: int) -> bool {
    bit_of_word(words[position / 64], position % 64)
}

/// The region `words` with the bit at `position` forced to `value` and every
/// other bit as it was.
pub open spec fn with_bit(words: Seq<u64>, position: int, value: bool) -> Seq<u64> {
    words.update(position / 64, word_with_bit(words[position / 64], position % 64, value))
}

/// `position` is the lowest position below `limit` whose bit equals `target`.
pub open spec fn is_first_match(words: Seq<u64>, limit: int, target: bool, position: int) -> bool {
    &&& 0 <= position < limit
    &&& bit_at(words, position) == target
    &&& forall|q: int| 0 <= q < position ==> bit_at(words, q) != target
}

/// `position` is the highest position below `limit` whose bit equals `target`.
pub open spec fn is_last_match(words: Seq<u64>, limit: int, target: bool, position: int) -> bool {
    &&& 0 <= position < limit
    &&& bit_at(words, position) == target
    &&& forall|q: int| position < q < limit ==> bit_at(words, q) != target
}

/// No position below `limit` holds a bit equal to `target`.
pub open spec fn no_match(words: Seq<u64>, limit: int, target: bool) -> bool {
    forall|q: int| 0 <= q < limit ==> bit_at(words, q) != target
}

/// `found` is what a search from the first position up owes: the lowest
/// position below `limit` whose bit equals `target`, or `None` where there
/// is no such position.
pub open spec fn is_forward_result(
    words: Seq<u64>,
    limit: int,
    target: bool,
    found: Option<usize>,
) -> bool {
    match found {
        Some(p) => is_first_match(words, limit, target, p as int),
        None => no_match(words, limit, target),
    }
}

/// `found` is what a search from the last position down owes: the highest
/// position below `limit` whose bit equals `target`, or `None` where there
/// is no such position.
pub open spec fn is_backward_result(
    words: Seq<u64>,
    limit: int,
    target: bool,
    found: Option<usize>,
) -> bool {
    match found {
        Some(p) => is_last_match(words, limit, target, p as int),
        None => no_match(words, limit, target),
    }
}

/// There is one result that a search can give: two searches of one region
/// in one direction agree, however each of them scans.
pub proof fn lemma_search_result_unique(
    words: Seq<u64>,
    limit: int,
    target: bool,
    a: Option<usize>,
    b: Option<usize>,
)
    requires
        is_forward_result(words, limit, target, a) && is_forward_result(words, limit, target, b)
            || is_backward_result(words, limit, target, a) && is_backward_result(
            words,
            limit,
            target,
            b,
        ),
    ensures
        a == b,
{
    if a is Some && b is Some {
        let i = a->Some_0 as int;
        let j = b->Some_0 as int;
        assert(bit_at(words, i) == target);
        assert(bit_at(words, j) == target);
    } else if a is Some {
        assert(bit_at(words, a->Some_0 as int) == target);
    } else if b is Some {
        assert(bit_at(words, b->Some_0 as int) == target);
    }
}

/// The character of the decimal digit `digit`, for `0 <= digit < 10`.
pub open spec fn digit_char(digit: nat) -> char {
    (0x30 + digit) as char
}

/// `value` written in decimal digits, without leading zeros.
pub open spec fn decimal(value: nat) -> Seq<char>
    decreases value,
{
    if value < 10 {
        seq![digit_char(value)]
    } else {
        decimal(value / 10).push(digit_char(value % 10))
    }
}

/// Writes `value` in decimal digits behind `text`.
fn push_decimal(text: &mut String, value: usize)
    ensures
        final(text)@ == old(text)@ + decimal(value as nat),
    decreases value,
{
    if value >= 10 {
        push_decimal(text, value / 10);
    }
    let digit = (value % 10) as u8;
    string_push(text, (0x30u8 + digit) as char);
    assert(text@ =~= old(text)@ + decimal(value as nat));
}

/// A position that lies at or beyond the limit of the bitmap it was used on.
#[derive(Debug, Clone, Copy, PartialEq, Eq, Structural)]
pub struct OutOfBitmapError {
    /// The offending position.
    pub position: usize,
    /// The number of bits of the bitmap.
    pub limit: usize,
}

impl OutOfBitmapError {
    pub fn new(position: usize, limit: usize) -> (r: Self)
        ensures
            r == (OutOfBitmapError { position, limit }),
    {
        OutOfBitmapError { position, limit }
    }

    /// The offending position.
    pub fn position(&self) -> (r: usize)
        ensures
            r == self.position,
    {
        self.position
    }

    /// The number of bits of the bitmap.
    pub fn limit(&self) -> (r: usize)
        ensures
            r == self.limit,
    {
        self.limit
    }

    /// What the error says: the position and the limit, in decimal digits.
    pub open spec fn message(&self) -> Seq<char> {
        "bit "@ + decimal(self.position as nat) + " is out of bitmap's limit "@ + decimal(
            self.limit as nat,
        )
    }

    /// The error in words.
    pub fn to_string(&self) -> (r: String)
        ensures
            r@ == self.message(),
    {
        let mut text = String::from_str("bit ");
        push_decimal(&mut text, self.position);
        text.append(" is out of bitmap's limit ");
        push_decimal(&mut text, self.limit);
        text
    }
}

proof fn lemma_bit_after_set(word: u64, i: u64, k: u64)
    by (bit_vector)
    requires
        i < 64,
        k < 64,
    ensures
        (((word | (1u64 << i)) >> k) & 1 == 1) == (k == i || (word >> k) & 1 == 1),
{
}

proof fn lemma_bit_after_reset(word: u64, i: u64, k: u64)
    by (bit_vector)
    requires
        i < 64,
        k < 64,
    ensures
        (((word & !(1u64 << i)) >> k) & 1 == 1) == (k != i && (word >> k) & 1 == 1),
{
}

proof fn lemma_bit_of_inverse(word: u64, k: u64)
    by (bit_vector)
    requires
        k < 64,
    ensures
        (((!word) >> k) & 1 == 1) == !((word >> k) & 1 == 1),
{
}

proof fn lemma_bit_under_mask(word: u64, width: u64, k: u64)
    by (bit_vector)
    requires
        0 < width < 64,
        k < 64,
    ensures
        (((word & !(0xffff_ffff_ffff_ffffu64 << width)) >> k) & 1 == 1) == (k < width && (word
            >> k) & 1 == 1),
{
}

proof fn lemma_bit_is_one_or_zero(word: u64, k: u64)
    by (bit_vector)
    requires
        k < 64,
    ensures
        (word >> k) & 1 != 0 ==> (word >> k) & 1 == 1,
{
}

proof fn lemma_toggle(word: u64, i: u64)
    by (bit_vector)
    requires
        i < 64,
    ensures
        (word >> i) & 1 == 1 ==> word ^ (1u64 << i) == word & !(1u64 << i),
        (word >> i) & 1 != 1 ==> word ^ (1u64 << i) == word | (1u64 << i),
{
}

/// What a single-bit write does to every bit of the word.
pub proof fn lemma_word_with_bit(word: u64, index: int, value: bool, k: int)
    requires
        0 <= index < 64,
        0 <= k < 64,
    ensures
        bit_of_word(word_with_bit(word, index, value), k) == (if k == index {
            value
        } else {
            bit_of_word(word, k)
        }),
{
    if value {
        lemma_bit_after_set(word, index as u64, k as u64);
    } else {
        lemma_bit_after_reset(word, index as u64, k as u64);
    }
}

/// Reading any bit of a region after one bit of it was written: the written
/// position holds the new value, every other position is unchanged.
pub proof fn lemma_with_bit_reads_back(words: Seq<u64>, position: int, value: bool, q: int)
    requires
        0 <= position < words.len() * 64,
        0 <= q < words.len() * 64,
    ensures
        with_bit(words, position, value).len() == words.len(),
        bit_at(with_bit(words, position, value), q) == (if q == position {
            value
        } else {
            bit_at(words, q)
        }),
{
    if q / 64 == position / 64 {
        lemma_word_with_bit(words[position / 64], position % 64, value, q % 64);
    }
}

/// `found` is the index of the lowest set bit of `word`, or `None` where
/// `word` has no set bit.
pub open spec fn is_lowest_set_bit(word: u64, found: Option<usize>) -> bool {
    match found {
        Some(index) => index < 64 && bit_of_word(word, index as int) && forall|k: int|
            0 <= k < index ==> !bit_of_word(word, k),
        None => forall|k: int| 0 <= k < 64 ==> !bit_of_word(word, k),
    }
}

/// `found` is the index of the highest set bit of `word`, or `None` where
/// `word` has no set bit.
pub open spec fn is_highest_set_bit(word: u64, found: Option<usize>) -> bool {
    match found {
        Some(index) => index < 64 && bit_of_word(word, index as int) && forall|k: int|
            index < k < 64 ==> !bit_of_word(word, k),
        None => forall|k: int| 0 <= k < 64 ==> !bit_of_word(word, k),
    }
}

/// Two scans of one word find the same bit.
pub proof fn lemma_scans_agree(word: u64, a: Option<usize>, b: Option<usize>)
    requires
        is_lowest_set_bit(word, a) && is_lowest_set_bit(word, b) || is_highest_set_bit(word, a)
            && is_highest_set_bit(word, b),
    ensures
        a == b,
{
    if a is Some && b is Some {
        let i = a->Some_0 as int;
        let j = b->Some_0 as int;
        if i < j {
            assert(bit_of_word(word, i));
            assert(bit_of_word(word, j));
        } else if j < i {
            assert(bit_of_word(word, i));
            assert(bit_of_word(word, j));
        }
    } else if a is Some {
        assert(bit_of_word(word, a->Some_0 as int));
    } else if b is Some {
        assert(bit_of_word(word, b->Some_0 as int));
    }
}

/// How a search finds the ends of the set bits of one word. The searches
/// give the same results whichever way is chosen.
pub trait BitScan {
    /// The index of the lowest set bit of `word`.
    fn lowest_set_bit(word: u64) -> (r: Option<usize>)
        ensures
            is_lowest_set_bit(word, r),
    ;

    /// The index of the highest set bit of `word`.
    fn highest_set_bit(word: u64) -> (r: Option<usize>)
        ensures
            is_highest_set_bit(word, r),
    ;
}

/// Scans with a count of the trailing or leading zeros, which is a single
/// instruction on the processors that have one.
pub struct CountScan;

/// Scans bit by bit, with shifts and masks alone.
pub struct LoopScan;

impl BitScan for CountScan {
    fn lowest_set_bit(word: u64) -> (r: Option<usize>) {
        if word == 0 {
            assert forall|k: int| 0 <= k < 64 implies !bit_of_word(word, k) by {
                let shift = k as u64;
                assert((0u64 >> shift) & 1 != 1) by (bit_vector);
            }
            None
        } else {
            let index = word.trailing_zeros() as usize;
            proof {
                vstd::std_specs::bits::axiom_u64_trailing_zeros(word);
                assert forall|k: int| 0 <= k < index implies !bit_of_word(word, k) by {
                    let shift = k as u64;
                    assert((word >> shift) & 1u64 == 0u64);
                }
            }
            Some(index)
        }
    }

    fn highest_set_bit(word: u64) -> (r: Option<usize>) {
        if word == 0 {
            assert forall|k: int| 0 <= k < 64 implies !bit_of_word(word, k) by {
                let shift = k as u64;
                assert((0u64 >> shift) & 1 != 1) by (bit_vector);
            }
            None
        } else {
            let index = 63 - word.leading_zeros() as usize;
            proof {
                vstd::std_specs::bits::axiom_u64_leading_zeros(word);
                lemma_bit_is_one_or_zero(word, index as u64);
                assert forall|k: int| index < k < 64 implies !bit_of_word(word, k) by {
                    let shift = k as u64;
                    assert((word >> shift) & 1u64 == 0u64);
                }
            }
            Some(index)
        }
    }
}

impl BitScan for LoopScan {
    fn lowest_set_bit(word: u64) -> (r: Option<usize>) {
        let mut index: usize = 0;
        while index < WORD_BITS
            invariant
                index <= 64,
                forall|k: int| 0 <= k < index ==> !bit_of_word(word, k),
            decreases 64 - index,
        {
            if (word >> index) & 1 == 1 {
                return Some(index);
            }
            index += 1;
        }
        None
    }

    fn highest_set_bit(word: u64) -> (r: Option<usize>) {
        let mut above: usize = WORD_BITS;
        while above > 0
            invariant
                above <= 64,
                forall|k: int| above <= k < 64 ==> !bit_of_word(word, k),
            decreases above,
        {
            let index = above - 1;
            if (word >> index) & 1 == 1 {
                return Some(index);
            }
            above = index;
        }
        None
    }
}

/// A word whose set bits are the bits of `word` that equal `target`.
fn matching_bits(word: u64, target: bool) -> (r: u64)
    ensures
        forall|k: int| 0 <= k < 64 ==> bit_of_word(r, k) == (bit_of_word(word, k) == target),
{
    let r = if target {
        word
    } else {
        !word
    };
    assert forall|k: int| 0 <= k < 64 implies bit_of_word(r, k) == (bit_of_word(word, k)
        == target) by {
        lemma_bit_of_inverse(word, k as u64);
    }
    r
}

/// `word` with every bit from `width` on cleared.
fn low_bits(word: u64, width: usize) -> (r: u64)
    requires
        width > 0,
    ensures
        forall|k: int| 0 <= k < 64 ==> bit_of_word(r, k) == (k < width && bit_of_word(word, k)),
{
    if width < 64 {
        let r = word & !(u64::MAX << width);
        assert forall|k: int| 0 <= k < 64 implies bit_of_word(r, k) == (k < width && bit_of_word(
            word,
            k,
        )) by {
            lemma_bit_under_mask(word, width as u64, k as u64);
        }
        r
    } else {
        word
    }
}

/// The handle of a bitmap of `N` bits. It has no size and no state.
#[derive(Debug, Clone, Copy)]
pub struct RefBitmap<const N: usize>;

impl<const N: usize> RefBitmap<N> {
    /// The region is long enough to back all `N` bits.
    pub open spec fn covers(words: Seq<u64>) -> bool {
        N <= words.len() * 64
    }

    /// The number of words that a region must hold.
    pub open spec fn spec_word_count() -> nat {
        ((N + 63) / 64) as nat
    }

    pub fn new() -> Self {
        RefBitmap
    }

    /// The number of words that a region must hold so that it backs the view.
    pub fn word_count(&self) -> (r: usize)
        ensures
            r == Self::spec_word_count(),
            forall|words: Seq<u64>| Self::covers(words) <==> r <= #[trigger] words.len(),
    {
        let full = N / WORD_BITS;
        if N % WORD_BITS != 0 {
            full + 1
        } else {
            full
        }
    }

    /// Reads the bit at `position`.
    pub fn test(&self, words: &[u64], position: usize) -> (r: Result<bool, OutOfBitmapError>)
        requires
            Self::covers(words@),
        ensures
            position < N ==> r == Ok::<bool, OutOfBitmapError>(bit_at(words@, position as int)),
            position >= N ==> r == Err::<bool, OutOfBitmapError>(
                OutOfBitmapError { position, limit: N },
            ),
    {
        if position < N {
            let word = words[position / WORD_BITS];
            let index = position % WORD_BITS;
            Ok((word >> index) & 1 == 1)
        } else {
            Err(OutOfBitmapError::new(position, N))
        }
    }

    /// Writes `value` to the bit at `position` and returns the bit that was there.
    pub fn assign(&self, words: &mut [u64], position: usize, value: bool) -> (r: Result<
        bool,
        OutOfBitmapError,
    >)
        requires
            Self::covers(old(words)@),
        ensures
            position < N ==> r == Ok::<bool, OutOfBitmapError>(bit_at(old(words)@, position as int))
                && final(words)@ == with_bit(old(words)@, position as int, value),
            position >= N ==> r == Err::<bool, OutOfBitmapError>(
                OutOfBitmapError { position, limit: N },
            ) && final(words)@ == old(words)@,
            final(words)@.len() == old(words)@.len(),
            position < N ==> bit_at(final(words)@, position as int) == value,
            forall|q: int|
                0 <= q < old(words)@.len() * 64 && q != position ==> bit_at(final(words)@, q)
                    == bit_at(old(words)@, q),
    {
        if position < N {
            let slot = position / WORD_BITS;
            let index = position % WORD_BITS;
            let word = words[slot];
            let mask = 1u64 << index;
            let previous = (word >> index) & 1 == 1;
            if value {
                words[slot] = word | mask;
            } else {
                words[slot] = word & !mask;
            }
            proof {
                assert(words@ == with_bit(old(words)@, position as int, value));
                assert forall|q: int| 0 <= q < old(words)@.len() * 64 implies bit_at(words@, q) == (
                if q == position {
                    value
                } else {
                    bit_at(old(words)@, q)
                }) by {
                    lemma_with_bit_reads_back(old(words)@, position as int, value, q);
                }
            }
            Ok(previous)
        } else {
            Err(OutOfBitmapError::new(position, N))
        }
    }
    /// Sets the bit at `position` and returns the bit that was there.
    pub fn set(&self, words: &mut [u64], position: usize) -> (r: Result<bool, OutOfBitmapError>)
        requires
            Self::covers(old(words)@),
        ensures
            position < N ==> r == Ok::<bool, OutOfBitmapError>(bit_at(old(words)@, position as int))
                && final(words)@ == with_bit(old(words)@, position as int, true),
            position >= N ==> r == Err::<bool, OutOfBitmapError>(
                OutOfBitmapError { position, limit: N },
            ) && final(words)@ == old(words)@,
            final(words)@.len() == old(words)@.len(),
            position < N ==> bit_at(final(words)@, position as int),
            forall|q: int|
                0 <= q < old(words)@.len() * 64 && q != position ==> bit_at(final(words)@, q)
                    == bit_at(old(words)@, q),
    {
        self.assign(words, position, true)
    }

    /// Clears the bit at `position` and returns the bit that was there.
    pub fn reset(&self, words: &mut [u64], position: usize) -> (r: Result<bool, OutOfBitmapError>)
        requires
            Self::covers(old(words)@),
        ensures
            position < N ==> r == Ok::<bool, OutOfBitmapError>(bit_at(old(words)@, position as int))
                && final(words)@ == with_bit(old(words)@, position as int, false),
            position >= N ==> r == Err::<bool, OutOfBitmapError>(
                OutOfBitmapError { position, limit: N },
            ) && final(words)@ == old(words)@,
            final(words)@.len() == old(words)@.len(),
            position < N ==> !bit_at(final(words)@, position as int),
            forall|q: int|
                0 <= q < old(words)@.len() * 64 && q != position ==> bit_at(final(words)@, q)
                    == bit_at(old(words)@, q),
    {
        self.assign(words, position, false)
    }

    /// Inverts the bit at `position` and returns the bit that was there.
    pub fn complement(&self, words: &mut [u64], position: usize) -> (r: Result<
        bool,
        OutOfBitmapError,
    >)
        requires
            Self::covers(old(words)@),
        ensures
            position < N ==> r == Ok::<bool, OutOfBitmapError>(bit_at(old(words)@, position as int))
                && final(words)@ == with_bit(
                old(words)@,
                position as int,
                !bit_at(old(words)@, position as int),
            ),
            position >= N ==> r == Err::<bool, OutOfBitmapError>(
                OutOfBitmapError { position, limit: N },
            ) && final(words)@ == old(words)@,
            final(words)@.len() == old(words)@.len(),
            position < N ==> bit_at(final(words)@, position as int) != bit_at(
                old(words)@,
                position as int,
            ),
            forall|q: int|
                0 <= q < old(words)@.len() * 64 && q != position ==> bit_at(final(words)@, q)
                    == bit_at(old(words)@, q),
    {
        if position < N {
            let slot = position / WORD_BITS;
            let index = position % WORD_BITS;
            let word = words[slot];
            let previous = (word >> index) & 1 == 1;
            words[slot] = word ^ (1u64 << index);
            proof {
                lemma_toggle(word, index as u64);
                assert(words@ == with_bit(old(words)@, position as int, !previous));
                assert forall|q: int| 0 <= q < old(words)@.len() * 64 implies bit_at(words@, q) == (
                if q == position {
                    !previous
                } else {
                    bit_at(old(words)@, q)
                }) by {
                    lemma_with_bit_reads_back(old(words)@, position as int, !previous, q);
                }
            }
            Ok(previous)
        } else {
            Err(OutOfBitmapError::new(position, N))
        }
    }

    /// The lowest position, if any, whose bit equals `target`. Words are
    /// scanned from the first one up, each with one scan of the kind `S`.
    pub fn search_forward_with<S: BitScan>(&self, words: &[u64], target: bool) -> (r: Option<
        usize,
    >)
        requires
            Self::covers(words@),
        ensures
            is_forward_result(words@, N as int, target, r),
    {
        let count = self.word_count();
        let mut i: usize = 0;
        while i < count
            invariant
                Self::covers(words@),
                count == Self::spec_word_count(),
                i <= count,
                forall|q: int| 0 <= q < i * 64 && q < N ==> bit_at(words@, q) != target,
            decreases count - i,
        {
            let word = words[i];
            let found = S::lowest_set_bit(matching_bits(word, target));
            proof {
                assert forall|q: int| i * 64 <= q < (i + 1) * 64 implies bit_at(words@, q)
                    == bit_of_word(word, q - i * 64) by {
                    assert(q / 64 == i && q % 64 == q - i * 64);
                }
            }
            match found {
                Some(index) => {
                    // The first match of the whole region; it counts if it
                    // lies below the limit.
                    return if index < N - i * WORD_BITS {
                        Some(i * WORD_BITS + index)
                    } else {
                        None
                    };
                },
                None => {},
            }
            i += 1;
        }
        None
    }

    /// The highest position, if any, whose bit equals `target`. Words are
    /// scanned from the last one down, each with one scan of the kind `S`;
    /// in the last word the bits at `N` and above are masked off first.
    pub fn search_backward_with<S: BitScan>(&self, words: &[u64], target: bool) -> (r: Option<
        usize,
    >)
        requires
            Self::covers(words@),
        ensures
            is_backward_result(words@, N as int, target, r),
    {
        let count = self.word_count();
        let mut i: usize = count;
        while i > 0
            invariant
                Self::covers(words@),
                count == Self::spec_word_count(),
                i <= count,
                forall|q: int| i * 64 <= q < N ==> bit_at(words@, q) != target,
            decreases i,
        {
            let slot = i - 1;
            let word = words[slot];
            let room = N - slot * WORD_BITS;
            let found = S::highest_set_bit(low_bits(matching_bits(word, target), room));
            proof {
                assert forall|q: int| slot * 64 <= q < i * 64 implies bit_at(words@, q)
                    == bit_of_word(word, q - slot * 64) by {
                    assert(q / 64 == slot && q % 64 == q - slot * 64);
                }
            }
            match found {
                Some(index) => {
                    return Some(slot * WORD_BITS + index);
                },
                None => {},
            }
            i = slot;
        }
        None
    }

    /// The lowest position whose bit is set, or `None` if no bit of the view is set.
    pub fn search_set_forward(&self, words: &[u64]) -> (r: Option<usize>)
        requires
            Self::covers(words@),
        ensures
            is_forward_result(words@, N as int, true, r),
            (forall|q: int| 0 <= q < N ==> !bit_at(words@, q)) ==> r is None,
    {
        self.search_forward_with::<CountScan>(words, true)
    }

    /// The lowest position whose bit is clear, or `None` if every bit of the view is set.
    pub fn search_cleared_forward(&self, words: &[u64]) -> (r: Option<usize>)
        requires
            Self::covers(words@),
        ensures
            is_forward_result(words@, N as int, false, r),
            (forall|q: int| 0 <= q < N ==> bit_at(words@, q)) ==> r is None,
    {
        self.search_forward_with::<CountScan>(words, false)
    }

    /// The highest position whose bit is set, or `None` if no bit of the view is set.
    pub fn search_set_backward(&self, words: &[u64]) -> (r: Option<usize>)
        requires
            Self::covers(words@),
        ensures
            is_backward_result(words@, N as int, true, r),
            (forall|q: int| 0 <= q < N ==> !bit_at(words@, q)) ==> r is None,
    {
        self.search_backward_with::<CountScan>(words, true)
    }

    /// The highest position whose bit is clear, or `None` if every bit of the view is set.
    pub fn search_cleared_backward(&self, words: &[u64]) -> (r: Option<usize>)
        requires
            Self::covers(words@),
        ensures
            is_backward_result(words@, N as int, false, r),
            (forall|q: int| 0 <= q < N ==> bit_at(words@, q)) ==> r is None,
    {
        self.search_backward_with::<CountScan>(words, false)
    }
}

} // verus!

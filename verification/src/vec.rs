//! A sequence that holds at most `N` values.
//!
//! The storage is a row of `N` slots, each of them written or not. The first
//! `len()` slots are written and hold the live values; a slot beyond them
//! holds no live value even where something was written to it. Every
//! operation that changes the vector, but the two named `force_*` and the
//! writes through `as_mut_slice`, leaves no written slot beyond the live
//! values.

use vstd::prelude::*;

verus! {

/// Why an operation on a [`StaticVec`] was refused. A refused operation
/// changes nothing.
#[derive(Debug, Clone, Copy, PartialEq, Eq, Structural)]
pub enum StaticVecError {
    /// Every one of the `N` places is taken.
    CapacityExceeded,
    /// The index lies beyond the live values.
    OutOfRange { index: usize, length: usize },
    /// There is no value to take.
    Empty,
}

#[derive(Debug)]
pub struct StaticVec<const N: usize, T> {
    /// The live values.
    live: Vec<T>,
    /// The slots that follow the live values, as far as one of them is
    /// written: the first stands for the slot at `live.len()`.
    spare: Vec<Option<T>>,
}

/// One step of a run of pushes and pops.
pub enum StackOp<T> {
    Push(T),
    Pop,
}

/// The values held after the steps `ops` were applied, in order, to `start`.
/// A push adds its value behind all others; a pop removes the last value.
pub open spec fn run<T>(start: Seq<T>, ops: Seq<StackOp<T>>) -> Seq<T>
    decreases ops.len(),
{
    if ops.len() == 0 {
        start
    } else {
        let before = run(start, ops.drop_last());
        match ops.last() {
            StackOp::Push(v) => before.push(v),
            StackOp::Pop => before.drop_last(),
        }
    }
}

/// No step of `ops` pushes onto `capacity` values or pops from none.
pub open spec fn within_capacity<T>(start: Seq<T>, ops: Seq<StackOp<T>>, capacity: int) -> bool
    decreases ops.len(),
{
    if ops.len() == 0 {
        start.len() <= capacity
    } else {
        let before = run(start, ops.drop_last());
        &&& within_capacity(start, ops.drop_last(), capacity)
        &&& match ops.last() {
            StackOp::Push(_) => before.len() < capacity,
            StackOp::Pop => before.len() > 0,
        }
    }
}

/// The number of pushes among `ops`.
pub open spec fn pushes<T>(ops: Seq<StackOp<T>>) -> int
    decreases ops.len(),
{
    if ops.len() == 0 {
        0
    } else {
        pushes(ops.drop_last()) + if ops.last() is Push {
            1int
        } else {
            0int
        }
    }
}

/// The number of pops among `ops`.
pub open spec fn pops<T>(ops: Seq<StackOp<T>>) -> int
    decreases ops.len(),
{
    if ops.len() == 0 {
        0
    } else {
        pops(ops.drop_last()) + if ops.last() is Pop {
            1int
        } else {
            0int
        }
    }
}

/// After any run of pushes and pops that stays within the capacity, the
/// length is the starting length plus the pushes minus the pops.
pub proof fn lemma_run_length<T>(start: Seq<T>, ops: Seq<StackOp<T>>, capacity: int)
    requires
        within_capacity(start, ops, capacity),
    ensures
        run(start, ops).len() == start.len() + pushes(ops) - pops(ops),
        run(start, ops).len() <= capacity,
    decreases ops.len(),
{
    if ops.len() > 0 {
        lemma_run_length(start, ops.drop_last(), capacity);
    }
}

/// Pushing the values of `values` one after another onto `start` leaves
/// `start` followed by `values`: what was pushed first comes first.
pub proof fn lemma_pushes_keep_order<T>(start: Seq<T>, values: Seq<T>)
    ensures
        run(start, values.map_values(|v: T| StackOp::Push(v))) == start + values,
    decreases values.len(),
{
    let ops = values.map_values(|v: T| StackOp::Push(v));
    if values.len() == 0 {
        assert(start + values =~= start);
    } else {
        lemma_pushes_keep_order(start, values.drop_last());
        assert(ops.drop_last() =~= values.drop_last().map_values(|v: T| StackOp::Push(v)));
        assert(ops.last() == StackOp::Push(values.last()));
        assert((start + values.drop_last()).push(values.last()) =~= start + values);
    }
}

/// The slots of a vector of the given capacity that holds `values` and has
/// no written slot beyond them.
pub open spec fn packed<T>(values: Seq<T>, capacity: nat) -> Seq<Option<T>> {
    Seq::new(
        capacity,
        |i: int|
            if i < values.len() {
                Some(values[i])
            } else {
                None
            },
    )
}

/// What the first `length` of `slots` hold, if each of them is written.
pub open spec fn written_values<T>(slots: Seq<Option<T>>, length: nat) -> Seq<T> {
    Seq::new(length, |i: int| slots[i]->Some_0)
}

impl<const N: usize, T> StaticVec<N, T> {
    /// The live values and the written slots behind them fit the `N` slots.
    pub closed spec fn wf(&self) -> bool {
        self.live@.len() + self.spare@.len() <= N
    }

    /// The live values, in order.
    pub closed spec fn view(&self) -> Seq<T> {
        self.live@
    }

    spec fn slot(&self, i: int) -> Option<T> {
        if i < self.live@.len() {
            Some(self.live@[i])
        } else if i - self.live@.len() < self.spare@.len() {
            self.spare@[i - self.live@.len()]
        } else {
            None
        }
    }

    /// The `N` slots: what each of them holds if it is written, `None` if
    /// it is not. The first slots hold the live values.
    pub closed spec fn slots(&self) -> Seq<Option<T>> {
        Seq::new(N as nat, |i: int| self.slot(i))
    }

    /// No slot but those of the live values is written.
    pub open spec fn is_packed(&self) -> bool {
        self.slots() == packed(self@, N as nat)
    }

    proof fn lemma_packed(&self)
        requires
            self.spare@.len() == 0,
        ensures
            self.is_packed(),
    {
        assert(self.slots() =~= packed(self@, N as nat));
    }

    /// There are `N` slots, of which the first hold the live values.
    pub proof fn lemma_slots(&self)
        requires
            self.wf(),
        ensures
            self@.len() <= N,
            self.slots().len() == N,
            self@ == written_values(self.slots(), self@.len()),
            forall|i: int| 0 <= i < self@.len() ==> self.slots()[i] == Some(self@[i]),
    {
        assert(self@ =~= written_values(self.slots(), self@.len()));
    }

    /// An empty vector. No slot is written.
    pub fn new() -> (r: Self)
        ensures
            r.wf(),
            r@ == Seq::<T>::empty(),
            r.is_packed(),
    {
        let r = StaticVec { live: Vec::new(), spare: Vec::new() };
        proof {
            r.lemma_packed();
        }
        r
    }

    /// The live values as a slice.
    pub fn as_slice(&self) -> (r: &[T])
        requires
            self.wf(),
        ensures
            r@ == self@,
    {
        self.live.as_slice()
    }

    /// The live values as a slice through which they can be overwritten.
    /// A slice keeps its length, so the vector holds afterwards what the
    /// slice holds when the borrow ends.
    pub fn as_mut_slice(&mut self) -> (r: &mut [T])
        requires
            old(self).wf(),
        ensures
            r@ == old(self)@,
            final(r)@.len() == r@.len() ==> final(self).wf() && final(self)@ == final(r)@,
            final(r)@.len() == r@.len() ==> forall|i: int|
                r@.len() <= i < N ==> final(self).slots()[i] == old(self).slots()[i],
    {
        self.live.as_mut_slice()
    }

    /// Puts `v` behind the live values.
    pub fn push(&mut self, v: T) -> (r: Result<(), StaticVecError>)
        requires
            old(self).wf(),
        ensures
            final(self).wf(),
            old(self)@.len() < N ==> r == Ok::<(), StaticVecError>(()) && final(self)@ == old(
                self,
            )@.push(v) && final(self).is_packed(),
            old(self)@.len() >= N ==> r == Err::<(), StaticVecError>(
                StaticVecError::CapacityExceeded,
            ) && *final(self) == *old(self),
    {
        if self.live.len() < N {
            self.spare.clear();
            self.live.push(v);
            proof {
                self.lemma_packed();
            }
            Ok(())
        } else {
            Err(StaticVecError::CapacityExceeded)
        }
    }

    /// Takes the last live value out.
    pub fn pop(&mut self) -> (r: Result<T, StaticVecError>)
        requires
            old(self).wf(),
        ensures
            final(self).wf(),
            old(self)@.len() > 0 ==> r == Ok::<T, StaticVecError>(old(self)@.last())
                && final(self)@ == old(self)@.drop_last() && final(self).is_packed(),
            old(self)@.len() == 0 ==> r == Err::<T, StaticVecError>(StaticVecError::Empty)
                && *final(self) == *old(self),
    {
        if self.live.len() > 0 {
            self.spare.clear();
            let last = self.live.pop();
            proof {
                self.lemma_packed();
            }
            match last {
                Some(v) => Ok(v),
                None => Err(StaticVecError::Empty),
            }
        } else {
            Err(StaticVecError::Empty)
        }
    }

    /// Puts `v` at `index`; the live values from `index` on move up by one.
    pub fn insert(&mut self, index: usize, v: T) -> (r: Result<(), StaticVecError>)
        requires
            old(self).wf(),
        ensures
            final(self).wf(),
            index <= old(self)@.len() < N ==> r == Ok::<(), StaticVecError>(()) && final(self)@
                == old(self)@.insert(index as int, v) && final(self).is_packed(),
            index > old(self)@.len() ==> r == Err::<(), StaticVecError>(
                StaticVecError::OutOfRange { index, length: old(self)@.len() as usize },
            ) && *final(self) == *old(self),
            index <= old(self)@.len() && old(self)@.len() >= N ==> r == Err::<
                (),
                StaticVecError,
            >(StaticVecError::CapacityExceeded) && *final(self) == *old(self),
    {
        let length = self.live.len();
        if index > length {
            Err(StaticVecError::OutOfRange { index, length })
        } else if length >= N {
            Err(StaticVecError::CapacityExceeded)
        } else {
            self.spare.clear();
            self.live.insert(index, v);
            proof {
                self.lemma_packed();
            }
            Ok(())
        }
    }

    /// Takes the live value at `index` out; those behind it move down by one.
    pub fn remove(&mut self, index: usize) -> (r: Result<T, StaticVecError>)
        requires
            old(self).wf(),
        ensures
            final(self).wf(),
            index < old(self)@.len() ==> r == Ok::<T, StaticVecError>(old(self)@[index as int])
                && final(self)@ == old(self)@.remove(index as int) && final(self).is_packed(),
            index >= old(self)@.len() ==> r == Err::<T, StaticVecError>(
                StaticVecError::OutOfRange { index, length: old(self)@.len() as usize },
            ) && *final(self) == *old(self),
    {
        let length = self.live.len();
        if index < length {
            self.spare.clear();
            let taken = self.live.remove(index);
            proof {
                self.lemma_packed();
            }
            Ok(taken)
        } else {
            Err(StaticVecError::OutOfRange { index, length })
        }
    }

    /// Keeps the first `new_len` live values and retires the others. Does
    /// nothing if there are no more than `new_len`.
    pub fn truncate(&mut self, new_len: usize)
        requires
            old(self).wf(),
        ensures
            final(self).wf(),
            new_len < old(self)@.len() ==> final(self)@ == old(self)@.take(new_len as int)
                && final(self).is_packed(),
            new_len >= old(self)@.len() ==> *final(self) == *old(self),
    {
        if new_len < self.live.len() {
            self.spare.clear();
            self.live.truncate(new_len);
            proof {
                self.lemma_packed();
            }
        }
    }

    /// Retires every value.
    pub fn clear(&mut self)
        requires
            old(self).wf(),
        ensures
            final(self).wf(),
            final(self)@ == Seq::<T>::empty(),
            final(self).is_packed(),
    {
        self.spare.clear();
        self.live.clear();
        proof {
            self.lemma_packed();
        }
    }

    pub fn is_empty(&self) -> (r: bool)
        requires
            self.wf(),
        ensures
            r == (self@.len() == 0),
    {
        self.len() == 0
    }

    /// The number of live values.
    pub fn len(&self) -> (r: usize)
        requires
            self.wf(),
        ensures
            r == self@.len(),
            r <= N,
    {
        self.live.len()
    }

    /// The number of values that fit.
    pub fn capacity(&self) -> (r: usize)
        ensures
            r == N,
    {
        N
    }

    /// Whether the slot at `index` is written. The slots below `len()` are.
    pub fn is_written(&self, index: usize) -> (r: bool)
        requires
            self.wf(),
        ensures
            r == (index < N && self.slots()[index as int] is Some),
    {
        let length = self.live.len();
        if index < length {
            true
        } else if index - length < self.spare.len() {
            self.spare[index - length].is_some()
        } else {
            false
        }
    }

    /// Writes `value` to the slot at `index` and leaves the length alone.
    /// The slot may lie beyond the live values, where the value waits for a
    /// `force_resize`.
    pub fn force_assign(&mut self, index: usize, value: T)
        requires
            old(self).wf(),
            index < N,
        ensures
            final(self).wf(),
            final(self).slots() == old(self).slots().update(index as int, Some(value)),
            final(self)@ == (if index < old(self)@.len() {
                old(self)@.update(index as int, value)
            } else {
                old(self)@
            }),
    {
        let length = self.live.len();
        if index < length {
            self.live[index] = value;
            proof {
                assert forall|i: int| 0 <= i < N implies self.slot(i) == (if i == index {
                    Some(value)
                } else {
                    old(self).slot(i)
                }) by {}
                assert(self.slots() =~= old(self).slots().update(index as int, Some(value)));
            }
        } else {
            let offset = index - length;
            while self.spare.len() <= offset
                invariant
                    self.live@ == old(self).live@,
                    length == self.live@.len(),
                    offset + length == index,
                    index < N,
                    old(self).wf(),
                    old(self).spare@.len() <= self.spare@.len(),
                    self.spare@.len() <= offset + 1 || self.spare@.len() == old(self).spare@.len(),
                    forall|k: int|
                        0 <= k < self.spare@.len() ==> self.spare@[k] == (if k < old(
                            self,
                        ).spare@.len() {
                            old(self).spare@[k]
                        } else {
                            None
                        }),
                decreases offset + 1 - self.spare@.len(),
            {
                self.spare.push(None);
            }
            let ghost padded = self.spare@;
            self.spare[offset] = Some(value);
            proof {
                assert forall|i: int| 0 <= i < N implies self.slot(i) == (if i == index {
                    Some(value)
                } else {
                    old(self).slot(i)
                }) by {
                    if i >= length && i != index && i - length < padded.len() {
                        assert(self.spare@[i - length] == padded[i - length]);
                    }
                }
                assert(self.slots() =~= old(self).slots().update(index as int, Some(value)));
            }
        }
    }

    /// Sets the number of live values to `length`. Every slot below `length`
    /// must be written; the slots keep what they hold.
    pub fn force_resize(&mut self, length: usize)
        requires
            old(self).wf(),
            length <= N,
            forall|i: int| 0 <= i < length ==> old(self).slots()[i] is Some,
        ensures
            final(self).wf(),
            final(self).slots() == old(self).slots(),
            final(self)@ == written_values(old(self).slots(), length as nat),
    {
        while self.live.len() > length
            invariant
                self.wf(),
                self.live@.len() >= length || self.live@.len() == old(self).live@.len(),
                self.slots() == old(self).slots(),
            decreases self.live@.len(),
        {
            let ghost before = *self;
            match self.live.pop() {
                Some(v) => {
                    self.spare.insert(0, Some(v));
                },
                None => {},
            }
            proof {
                assert forall|i: int| 0 <= i < N implies self.slot(i) == before.slot(i) by {}
                assert(self.slots() =~= before.slots());
            }
        }
        while self.live.len() < length
            invariant
                self.wf(),
                self.live@.len() <= length <= N,
                self.slots() == old(self).slots(),
                forall|i: int| 0 <= i < length ==> old(self).slots()[i] is Some,
            decreases length - self.live@.len(),
        {
            let ghost before = *self;
            proof {
                let next = self.live@.len() as int;
                assert(before.slots()[next] is Some);
                assert(before.slot(next) is Some);
            }
            match self.spare.remove(0) {
                Some(v) => {
                    self.live.push(v);
                },
                None => {},
            }
            proof {
                assert forall|i: int| 0 <= i < N implies self.slot(i) == before.slot(i) by {}
                assert(self.slots() =~= before.slots());
            }
        }
        assert(self@ =~= written_values(self.slots(), length as nat));
    }
}

/// Taking out at `index` what was put in at `index` leaves what was there.
pub proof fn lemma_insert_then_remove<T>(values: Seq<T>, index: int, v: T)
    requires
        0 <= index <= values.len(),
    ensures
        values.insert(index, v)[index] == v,
        values.insert(index, v).remove(index) == values,
{
    assert(values.insert(index, v).remove(index) =~= values);
}

impl<const N: usize, T> Default for StaticVec<N, T> {
    fn default() -> (r: Self)
        ensures
            r.wf(),
            r@ == Seq::<T>::empty(),
            r.is_packed(),
    {
        Self::new()
    }
}

impl<const N: usize, T: Copy> Clone for StaticVec<N, T> {
    fn clone(&self) -> (r: Self)
        ensures
            r@ == self@,
            r.slots() == self.slots(),
            r.wf() == self.wf(),
    {
        let mut live: Vec<T> = Vec::new();
        let mut i: usize = 0;
        while i < self.live.len()
            invariant
                i <= self.live@.len(),
                live@ == self.live@.take(i as int),
            decreases self.live@.len() - i,
        {
            live.push(self.live[i]);
            i += 1;
            assert(self.live@.take(i as int) =~= self.live@.take(i - 1).push(self.live@[i - 1]));
        }
        assert(self.live@.take(i as int) =~= self.live@);
        let mut spare: Vec<Option<T>> = Vec::new();
        let mut j: usize = 0;
        while j < self.spare.len()
            invariant
                j <= self.spare@.len(),
                spare@ == self.spare@.take(j as int),
            decreases self.spare@.len() - j,
        {
            spare.push(self.spare[j]);
            j += 1;
            assert(self.spare@.take(j as int) =~= self.spare@.take(j - 1).push(
                self.spare@[j - 1],
            ));
        }
        assert(self.spare@.take(j as int) =~= self.spare@);
        StaticVec { live, spare }
    }
}

impl<const N: usize, T: Copy> StaticVec<N, T> {
    /// Puts the values of `src` behind the live values: all of them or none.
    pub fn extend_from_slice(&mut self, src: &[T]) -> (r: Result<(), StaticVecError>)
        requires
            old(self).wf(),
        ensures
            final(self).wf(),
            old(self)@.len() + src@.len() <= N ==> r == Ok::<(), StaticVecError>(()) && final(self)@
                == old(self)@ + src@ && final(self).is_packed(),
            old(self)@.len() + src@.len() > N ==> r == Err::<(), StaticVecError>(
                StaticVecError::CapacityExceeded,
            ) && *final(self) == *old(self),
    {
        let count = src.len();
        let start = self.live.len();
        if count > N - start {
            return Err(StaticVecError::CapacityExceeded);
        }
        self.spare.clear();
        let mut i: usize = 0;
        while i < count
            invariant
                i <= count,
                count == src@.len(),
                start + count <= N,
                self.spare@.len() == 0,
                self.live@ == old(self)@ + src@.take(i as int),
            decreases count - i,
        {
            self.live.push(src[i]);
            i += 1;
            assert(src@.take(i as int) =~= src@.take(i - 1).push(src@[i - 1]));
        }
        proof {
            assert(src@.take(count as int) =~= src@);
            self.lemma_packed();
        }
        Ok(())
    }

    /// Puts the values of `src` at `index`, all of them or none; the live
    /// values from `index` on move up by the length of `src`.
    pub fn insert_slice(&mut self, index: usize, src: &[T]) -> (r: Result<(), StaticVecError>)
        requires
            old(self).wf(),
        ensures
            final(self).wf(),
            index <= old(self)@.len() && old(self)@.len() + src@.len() <= N ==> r == Ok::<
                (),
                StaticVecError,
            >(()) && final(self)@ == old(self)@.take(index as int) + src@ + old(self)@.skip(
                index as int,
            ) && final(self).is_packed(),
            index > old(self)@.len() ==> r == Err::<(), StaticVecError>(
                StaticVecError::OutOfRange { index, length: old(self)@.len() as usize },
            ) && *final(self) == *old(self),
            index <= old(self)@.len() && old(self)@.len() + src@.len() > N ==> r == Err::<
                (),
                StaticVecError,
            >(StaticVecError::CapacityExceeded) && *final(self) == *old(self),
    {
        let count = src.len();
        let end = self.live.len();
        if index > end {
            return Err(StaticVecError::OutOfRange { index, length: end });
        }
        if count > N - end {
            return Err(StaticVecError::CapacityExceeded);
        }
        let ghost before = self@;
        // Grow by the length of `src`; what the new slots hold does not matter yet.
        self.spare.clear();
        let mut i: usize = 0;
        while i < count
            invariant
                i <= count,
                count == src@.len(),
                end + count <= N,
                self.spare@.len() == 0,
                self.live@.len() == end + i,
                self.live@.take(end as int) == before,
            decreases count - i,
        {
            self.live.push(src[i]);
            i += 1;
            assert(self.live@.take(end as int) =~= before);
        }
        // Move the tail up, last value first.
        let mut j: usize = end;
        while j > index
            invariant
                index <= j <= end,
                count == src@.len(),
                end + count <= N,
                before.len() == end,
                self.spare@.len() == 0,
                self.live@.len() == end + count,
                self.live@.take(j as int) == before.take(j as int),
                forall|k: int| j <= k < end ==> self.live@[k + count] == before[k],
            decreases j,
        {
            j -= 1;
            let moved = self.live[j];
            assert(moved == before[j as int]) by {
                assert(self.live@.take(j + 1)[j as int] == before.take(j + 1)[j as int]);
            }
            let ghost shifted = self.live@;
            self.live[j + count] = moved;
            assert(self.live@.take(j as int) =~= before.take(j as int)) by {
                assert(shifted.take(j + 1).take(j as int) =~= shifted.take(j as int));
                assert(before.take(j + 1).take(j as int) =~= before.take(j as int));
            }
            assert forall|k: int| j <= k < end implies self.live@[k + count] == before[k] by {
                if k > j {
                    assert(shifted[k + count] == before[k]);
                }
            }
        }
        // Fill the gap.
        let mut i: usize = 0;
        while i < count
            invariant
                i <= count,
                count == src@.len(),
                index <= end,
                end + count <= N,
                before.len() == end,
                self.spare@.len() == 0,
                self.live@.len() == end + count,
                self.live@.take(index as int) == before.take(index as int),
                forall|k: int| 0 <= k < i ==> self.live@[index + k] == src@[k],
                forall|k: int| index <= k < end ==> self.live@[k + count] == before[k],
            decreases count - i,
        {
            self.live[index + i] = src[i];
            i += 1;
            assert(self.live@.take(index as int) =~= before.take(index as int));
        }
        assert(self.live@ =~= before.take(index as int) + src@ + before.skip(index as int)) by {
            assert forall|k: int| 0 <= k < end + count implies self.live@[k] == (before.take(
                index as int,
            ) + src@ + before.skip(index as int))[k] by {
                if k < index {
                    assert(self.live@.take(index as int)[k] == before.take(index as int)[k]);
                } else if k < index + count {
                    assert(self.live@[index + (k - index)] == src@[k - index]);
                } else {
                    assert(self.live@[(k - count) + count] == before[k - count]);
                }
            }
        }
        proof {
            self.lemma_packed();
        }
        Ok(())
    }

    /// Takes `count` live values out, from `index` on; those behind them move
    /// down by `count`.
    pub fn remove_range(&mut self, index: usize, count: usize) -> (r: Result<(), StaticVecError>)
        requires
            old(self).wf(),
        ensures
            final(self).wf(),
            index + count <= old(self)@.len() ==> r == Ok::<(), StaticVecError>(()) && final(self)@
                == old(self)@.take(index as int) + old(self)@.skip(index + count)
                && final(self).is_packed(),
            index + count > old(self)@.len() ==> r == Err::<(), StaticVecError>(
                StaticVecError::OutOfRange { index, length: old(self)@.len() as usize },
            ) && *final(self) == *old(self),
    {
        let end = self.live.len();
        if index > end || count > end - index {
            return Err(StaticVecError::OutOfRange { index, length: end });
        }
        let ghost before = self@;
        self.spare.clear();
        let stop = end - count;
        let mut j: usize = index;
        while j < stop
            invariant
                index <= j <= stop,
                stop + count == end,
                before.len() == end,
                self.spare@.len() == 0,
                self.live@.len() == end,
                self.live@.take(index as int) == before.take(index as int),
                forall|k: int| index <= k < j ==> self.live@[k] == before[k + count],
                forall|k: int| j + count <= k < end ==> self.live@[k] == before[k],
            decreases stop - j,
        {
            let moved = self.live[j + count];
            self.live[j] = moved;
            j += 1;
            assert(self.live@.take(index as int) =~= before.take(index as int));
        }
        self.live.truncate(stop);
        assert(self.live@ =~= before.take(index as int) + before.skip(index + count)) by {
            assert forall|k: int| 0 <= k < stop implies self.live@[k] == (before.take(index as int)
                + before.skip(index + count))[k] by {
                if k < index {
                    assert(self.live@.take(index as int)[k] == before.take(index as int)[k]);
                }
            }
        }
        proof {
            self.lemma_packed();
        }
        Ok(())
    }
}

} // verus!

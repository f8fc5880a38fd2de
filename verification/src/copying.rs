//! A queue implemented using a contiguous buffer with separate indices for
//! reading and writing. Elements are copied in to and out from the buffer.
//!
//! The head index is the next location to be written. It is incremented when
//! items are added and wraps to zero when it reaches the end of the linear
//! buffer. The tail index is the next location to be read. It is incremented
//! when items are removed and wraps identically.
//!
//! When the head index equals the tail index the buffer is empty, and when
//! the head index is one slot behind the tail index the buffer is full, so
//! one slot is always left unused and at most `len - 1` elements are held.
//! Reading does not clear a slot: the old value stays in the storage until
//! it is overwritten.

use vstd::math::min;
use vstd::prelude::*;

use crate::capacity::is_valid_capacity;
use crate::capacity::lemma_mask_wraps_once;
use crate::capacity::lemma_wrap_index_injective;
use crate::capacity::lemma_wrap_index_twice;
use crate::capacity::wrap_index;
use crate::capacity::InvalidCapacity;
use crate::capacity::power_of_2;

verus! {

/// A fixed-capacity circular buffer that copies its elements.
///
/// Abstractly, a `CircBuf` is the sequence of elements written but not yet
/// read, in first-in first-out order; the sequence is its view (`self@`).
pub struct CircBuf<T: Copy + Default> {
    /// The next location in the linear buffer to be written
    head: usize,
    /// The next location in the linear buffer to be read
    tail: usize,
    /// The linear buffer
    buf: Vec<T>,
}

impl<T: Copy + Default> View for CircBuf<T> {
    type V = Seq<T>;

    /// The elements currently held, oldest first: the slots from `tail`
    /// (inclusive) to `head` (exclusive), going around the ring.
    closed spec fn view(&self) -> Seq<T> {
        Seq::new(
            self.spec_count() as nat,
            |i: int| self.buf[wrap_index(self.spec_tail(), i, self.spec_len())],
        )
    }
}

impl<T: Copy + Default> CircBuf<T> {
    /// Length of the linear buffer; one more than the usable capacity.
    pub closed spec fn spec_len(self) -> int {
        self.buf.len() as int
    }

    /// The next slot to be written.
    pub closed spec fn spec_head(self) -> int {
        self.head as int
    }

    /// The next slot to be read.
    pub closed spec fn spec_tail(self) -> int {
        self.tail as int
    }

    /// The storage length is a valid capacity and both indices are in range.
    pub closed spec fn well_formed(self) -> bool {
        &&& is_valid_capacity(self.buf.len())
        &&& self.spec_head() < self.spec_len()
        &&& self.spec_tail() < self.spec_len()
    }

    /// Number of elements held: how far `head` is ahead of `tail` on the ring.
    pub open spec fn spec_count(self) -> int {
        if self.spec_head() >= self.spec_tail() {
            self.spec_head() - self.spec_tail()
        } else {
            self.spec_head() + self.spec_len() - self.spec_tail()
        }
    }

    /// Number of elements that can still be pushed before the buffer is full.
    pub open spec fn spec_space(self) -> int {
        self.spec_len() - 1 - self.spec_count()
    }

    /// Number of elements that would be counted were the read index at
    /// `from`: how far `head` is ahead of `from` on the ring.
    pub open spec fn spec_count_from(self, from: int) -> int {
        if self.spec_head() >= from {
            self.spec_head() - from
        } else {
            self.spec_head() + self.spec_len() - from
        }
    }

    /// A read position advanced `ret` slots into the held elements sees the
    /// remaining `spec_count() - ret` of them ahead of it.
    proof fn lemma_count_from_advanced(self, ret: int)
        requires
            self.well_formed(),
            0 <= ret <= self.spec_count(),
        ensures
            self.spec_count_from(wrap_index(self.spec_tail(), ret, self.spec_len()))
                == self.spec_count() - ret,
    {
    }

    /// Calculate the space until the end of the linear buffer: the largest
    /// contiguous run of free slots starting at `head`.
    fn space_to_end(&self) -> (r: usize)
        requires
            self.well_formed(),
        ensures
            r == min(self.spec_len() - self.spec_head(), self.spec_space()),
    {
        let linear = self.buf.len() - self.head;
        let s = self.space();
        if linear < s {
            linear
        } else {
            s
        }
    }

    /// Calculate the count until the end of the linear buffer given a
    /// specific tail value: the largest contiguous run of held elements
    /// starting there.
    fn count_to_end_from(&self, from_tail: usize) -> (r: usize)
        requires
            self.well_formed(),
            from_tail < self.spec_len(),
        ensures
            r == min(self.spec_len() - from_tail, self.spec_count_from(from_tail as int)),
    {
        let c = self.buf.len();
        let linear = c - from_tail;
        let cnt = if self.head >= from_tail {
            self.head - from_tail
        } else {
            self.head + (c - from_tail)
        };
        if cnt < linear {
            cnt
        } else {
            linear
        }
    }

    /// Calculate the count until the end of the linear buffer
    fn count_to_end(&self) -> (r: usize)
        requires
            self.well_formed(),
        ensures
            r == min(self.spec_len() - self.spec_tail(), self.spec_count()),
    {
        self.count_to_end_from(self.tail)
    }

    /// Initialise a new circular buffer of `l` slots, all holding the element
    /// type's default value. Construction fails exactly when `l` is below 2
    /// or not a power of two.
    pub fn new(l: usize) -> (r: Result<CircBuf<T>, InvalidCapacity>)
        ensures
            r is Ok <==> is_valid_capacity(l),
            r matches Ok(b) ==> {
                &&& b.well_formed()
                &&& b.spec_len() == l
                &&& b.spec_head() == 0
                &&& b.spec_tail() == 0
                &&& b.spec_count() == 0
                &&& b.spec_space() == l - 1
                &&& b@ == Seq::<T>::empty()
            },
    {
        if !power_of_2(l) {
            return Err(InvalidCapacity);
        }
        let mut vec: Vec<T> = Vec::new();
        for _i in 0..l
            invariant
                vec.len() == _i,
        {
            vec.push(T::default());
        }
        let b = CircBuf { head: 0, tail: 0, buf: vec };
        proof {
            assert(b@ =~= Seq::<T>::empty());
        }
        Ok(b)
    }

    /// Get the head index
    pub fn head(&self) -> (r: usize)
        ensures
            r == self.spec_head(),
    {
        self.head
    }

    /// Get the tail index
    pub fn tail(&self) -> (r: usize)
        ensures
            r == self.spec_tail(),
    {
        self.tail
    }

    /// Get the length of the linear buffer
    pub fn len(&self) -> (r: usize)
        ensures
            r == self.spec_len(),
    {
        self.buf.len()
    }

    /// Calculate the count of the circular buffer: the number of elements
    /// currently held, which is also the length of its view.
    pub fn count(&self) -> (r: usize)
        requires
            self.well_formed(),
        ensures
            r == self.spec_count(),
            r == self@.len(),
    {
        if self.head >= self.tail {
            self.head - self.tail
        } else {
            self.head + (self.buf.len() - self.tail)
        }
    }

    /// Calculate the space in the circular buffer: the number of elements
    /// that can still be pushed.
    pub fn space(&self) -> (r: usize)
        requires
            self.well_formed(),
        ensures
            r == self.spec_space(),
    {
        let cnt = self.count();
        self.buf.len() - 1 - cnt
    }

    /// Put an element at the head of the circular buffer. Fails, changing
    /// nothing, exactly when the buffer is full.
    pub fn push(&mut self, val: T) -> (r: bool)
        requires
            old(self).well_formed(),
        ensures
            final(self).well_formed(),
            final(self).spec_len() == old(self).spec_len(),
            old(self).spec_space() == 0 ==> r == false && *final(self) == *old(self),
            old(self).spec_space() > 0 ==> {
                &&& r == true
                &&& final(self)@ == old(self)@.push(val)
                &&& final(self).spec_tail() == old(self).spec_tail()
                &&& final(self).spec_head() == wrap_index(
                    old(self).spec_head(),
                    1,
                    old(self).spec_len(),
                )
            },
    {
        if self.space() == 0 {
            return false;
        }
        let h = self.head;
        self.buf.set(h, val);
        self.head = (h + 1) & (self.buf.len() - 1);
        proof {
            lemma_mask_wraps_once((h + 1) as usize, self.buf.len());
            assert(self@ =~= old(self)@.push(val));
        }
        true
    }

    /// Get an element from the tail of the circular buffer: the oldest one
    /// held. Yields nothing, changing nothing, exactly when the buffer is
    /// empty. The slot that was read keeps its old value until overwritten.
    pub fn pop(&mut self) -> (r: Option<T>)
        requires
            old(self).well_formed(),
        ensures
            final(self).well_formed(),
            final(self).spec_len() == old(self).spec_len(),
            old(self)@.len() == 0 ==> r is None && *final(self) == *old(self),
            old(self)@.len() > 0 ==> {
                &&& r == Some(old(self)@[0])
                &&& final(self)@ == old(self)@.drop_first()
                &&& final(self).spec_head() == old(self).spec_head()
                &&& final(self).spec_tail() == wrap_index(
                    old(self).spec_tail(),
                    1,
                    old(self).spec_len(),
                )
            },
    {
        if self.count() == 0 {
            return None;
        }
        let t = self.tail;
        let val = self.buf[t];
        self.tail = (t + 1) & (self.buf.len() - 1);
        proof {
            lemma_mask_wraps_once((t + 1) as usize, self.buf.len());
            assert(self@ =~= old(self)@.drop_first());
        }
        Some(val)
    }

    /// Get contiguous elements from the tail of the circular buffer: as many
    /// leading slots of `data` as the buffer holds elements are overwritten
    /// with the oldest elements, in order; the rest of `data` is untouched.
    /// Returns the count actually filled, the smaller of `data.len()` and
    /// `count()`; running short is not an error.
    #[verifier::loop_isolation(false)]
    pub fn read(&mut self, data: &mut Vec<T>) -> (ret: usize)
        requires
            old(self).well_formed(),
        ensures
            final(self).well_formed(),
            final(self).spec_len() == old(self).spec_len(),
            ret == min(old(data)@.len() as int, old(self)@.len() as int),
            final(data)@ == old(self)@.subrange(0, ret as int) + old(data)@.subrange(
                ret as int,
                old(data)@.len() as int,
            ),
            final(self)@ == old(self)@.subrange(ret as int, old(self)@.len() as int),
            final(self).spec_head() == old(self).spec_head(),
            final(self).spec_tail() == wrap_index(
                old(self).spec_tail(),
                ret as int,
                old(self).spec_len(),
            ),
    {
        let ghost orig = *self;
        let ghost dorig = *data;
        let ghost c = orig.spec_len();
        let mut index: usize = 0;
        let mut len: usize = data.len();
        let mut num: usize;
        let mut ret: usize = 0;
        loop
            invariant
                self.well_formed(),
                self.buf == orig.buf,
                self.head == orig.head,
                data@.len() == dorig@.len(),
                index == ret,
                ret + len == dorig@.len(),
                ret <= orig@.len(),
                self@ == orig@.subrange(ret as int, orig@.len() as int),
                self.spec_tail() == wrap_index(orig.spec_tail(), ret as int, c),
                data@ == orig@.subrange(0, ret as int) + dorig@.subrange(
                    ret as int,
                    dorig@.len() as int,
                ),
            decreases len,
        {
            num = self.count_to_end();
            if len < num {
                num = len;
            }
            if num == 0 {
                proof {
                    assert(self@.len() == orig@.len() - ret);
                    if len == 0 {
                        assert(ret == dorig@.len());
                    } else {
                        assert(self.spec_count() == 0);
                        assert(ret == orig@.len());
                    }
                }
                return ret;
            }
            let t = self.tail;
            let ghost dpre = *data;
            let mut i: usize = 0;
            while i < num
                invariant
                    i <= num,
                    data@.len() == dpre@.len(),
                    forall|k: int|
                        0 <= k < data@.len() && !(index <= k < index + i) ==> data@[k]
                            == dpre@[k],
                    forall|j: int| 0 <= j < i ==> #[trigger] data@[index + j] == self.buf@[t + j],
                decreases num - i,
            {
                let v = self.buf[t + i];
                data.set(index + i, v);
                i += 1;
            }
            proof {
                let target = orig@.subrange(0, ret + num) + dorig@.subrange(
                    ret + num,
                    dorig@.len() as int,
                );
                assert forall|k: int| 0 <= k < data@.len() implies data@[k] == target[k] by {
                    if index <= k < index + num {
                        let j = k - index;
                        lemma_wrap_index_twice(orig.spec_tail(), ret as int, j, c);
                        assert(data@[index + j] == self.buf@[t + j]);
                        assert(orig@[ret + j] == orig.buf@[wrap_index(orig.spec_tail(), ret + j, c)]);
                    } else {
                        assert(data@[k] == dpre@[k]);
                    }
                }
                assert(data@ =~= target);
            }
            self.tail = (t + num) & (self.buf.len() - 1);
            proof {
                lemma_mask_wraps_once((t + num) as usize, self.buf.len());
                lemma_wrap_index_twice(orig.spec_tail(), ret as int, num as int, c);
                assert forall|m: int| 0 <= m < orig@.len() - ret - num implies self.buf@[wrap_index(
                    self.spec_tail(),
                    m,
                    c,
                )] == orig@[ret + num + m] by {
                    lemma_wrap_index_twice(orig.spec_tail(), (ret + num) as int, m, c);
                }
                assert(self@ =~= orig@.subrange(ret + num, orig@.len() as int));
            }
            index += num;
            len -= num;
            ret += num;
        }
    }

    /// Put contiguous elements at the head of the circular buffer: as many
    /// leading elements of `data` as fit in the available space are copied
    /// in, in order. Returns the count actually transferred, the smaller of
    /// `data.len()` and `space()`; running short is not an error.
    #[verifier::loop_isolation(false)]
    pub fn write(&mut self, data: &Vec<T>) -> (ret: usize)
        requires
            old(self).well_formed(),
        ensures
            final(self).well_formed(),
            final(self).spec_len() == old(self).spec_len(),
            ret == min(data@.len() as int, old(self).spec_space()),
            final(self)@ == old(self)@ + data@.subrange(0, ret as int),
            final(self).spec_tail() == old(self).spec_tail(),
            final(self).spec_head() == wrap_index(
                old(self).spec_head(),
                ret as int,
                old(self).spec_len(),
            ),
    {
        let ghost orig = *self;
        let ghost c = orig.spec_len();
        let mut index: usize = 0;
        let mut len: usize = data.len();
        let mut num: usize;
        let mut ret: usize = 0;
        loop
            invariant
                self.well_formed(),
                self.spec_len() == c,
                self.tail == orig.tail,
                index == ret,
                ret + len == data@.len(),
                ret <= orig.spec_space(),
                self@ == orig@ + data@.subrange(0, ret as int),
                self.spec_head() == wrap_index(orig.spec_head(), ret as int, c),
            decreases len,
        {
            num = self.space_to_end();
            if len < num {
                num = len;
            }
            if num == 0 {
                proof {
                    assert(self@.len() == orig@.len() + ret);
                    if len == 0 {
                        assert(ret == data@.len());
                    } else {
                        assert(self.spec_space() == 0);
                        assert(ret == orig.spec_space());
                    }
                }
                return ret;
            }
            let h = self.head;
            let ghost pre = *self;
            let mut i: usize = 0;
            while i < num
                invariant
                    i <= num,
                    self.head == pre.head,
                    self.tail == pre.tail,
                    self.buf@.len() == pre.buf@.len(),
                    forall|k: int|
                        0 <= k < self.buf@.len() && !(h <= k < h + i) ==> self.buf@[k]
                            == pre.buf@[k],
                    forall|j: int|
                        0 <= j < i ==> #[trigger] self.buf@[h + j] == data@[index + j],
                decreases num - i,
            {
                let v = data[index + i];
                self.buf.set(h + i, v);
                i += 1;
            }
            proof {
                assert(self.spec_head() == pre.spec_head());
                let target = orig@ + data@.subrange(0, ret + num);
                let t0 = orig.spec_tail();
                let filled = orig@.len() + ret;
                assert(orig.spec_head() == wrap_index(t0, orig@.len() as int, c));
                lemma_wrap_index_twice(t0, orig@.len() as int, ret as int, c);
                assert(h == wrap_index(t0, filled, c));
                assert forall|m: int| 0 <= m < filled + num implies self.buf@[wrap_index(
                    t0,
                    m,
                    c,
                )] == target[m] by {
                    let p = wrap_index(t0, m, c);
                    if m < filled {
                        assert(pre@[m] == pre.buf@[p]);
                        if h <= p < h + num {
                            let j = p - h;
                            lemma_wrap_index_twice(t0, filled, j, c);
                            lemma_wrap_index_injective(t0, m, filled + j, c);
                        }
                        assert(self.buf@[p] == pre.buf@[p]);
                    } else {
                        let j = m - filled;
                        lemma_wrap_index_twice(t0, filled, j, c);
                        assert(self.buf@[h + j] == data@[index + j]);
                    }
                }
            }
            self.head = (h + num) & (self.buf.len() - 1);
            proof {
                lemma_mask_wraps_once((h + num) as usize, self.buf.len());
                lemma_wrap_index_twice(orig.spec_head(), ret as int, num as int, c);
                assert(self@ =~= orig@ + data@.subrange(0, ret + num));
            }
            index += num;
            len -= num;
            ret += num;
        }
    }

    /// Get contiguous elements from the tail of the circular buffer without
    /// changing the buffer: as many leading slots of `data` as the buffer
    /// holds elements are overwritten with the oldest elements, in order,
    /// while the buffer itself stays exactly as it was. Returns the count
    /// actually filled, the smaller of `data.len()` and `count()`; the same
    /// request repeated yields the same result.
    #[verifier::loop_isolation(false)]
    pub fn peek(&mut self, data: &mut Vec<T>) -> (ret: usize)
        requires
            old(self).well_formed(),
        ensures
            *final(self) == *old(self),
            ret == min(old(data)@.len() as int, old(self)@.len() as int),
            final(data)@ == old(self)@.subrange(0, ret as int) + old(data)@.subrange(
                ret as int,
                old(data)@.len() as int,
            ),
    {
        let ghost dorig = *data;
        let ghost c = self.spec_len();
        let mut index: usize = 0;
        let mut tail: usize = self.tail;
        let mut len: usize = data.len();
        let mut num: usize;
        let mut ret: usize = 0;
        loop
            invariant
                index == ret,
                ret + len == dorig@.len(),
                ret <= self@.len(),
                tail < c,
                tail == wrap_index(self.spec_tail(), ret as int, c),
                data@.len() == dorig@.len(),
                data@ == self@.subrange(0, ret as int) + dorig@.subrange(
                    ret as int,
                    dorig@.len() as int,
                ),
            decreases len,
        {
            num = self.count_to_end_from(tail);
            if len < num {
                num = len;
            }
            proof {
                self.lemma_count_from_advanced(ret as int);
            }
            if num == 0 {
                proof {
                    if len != 0 {
                        assert(self.spec_count_from(tail as int) == 0);
                    }
                }
                return ret;
            }
            let ghost dpre = *data;
            let mut i: usize = 0;
            while i < num
                invariant
                    i <= num,
                    data@.len() == dpre@.len(),
                    forall|k: int|
                        0 <= k < data@.len() && !(index <= k < index + i) ==> data@[k]
                            == dpre@[k],
                    forall|j: int| 0 <= j < i ==> #[trigger] data@[index + j] == self.buf@[tail + j],
                decreases num - i,
            {
                let v = self.buf[tail + i];
                data.set(index + i, v);
                i += 1;
            }
            proof {
                let target = self@.subrange(0, ret + num) + dorig@.subrange(
                    ret + num,
                    dorig@.len() as int,
                );
                assert forall|k: int| 0 <= k < data@.len() implies data@[k] == target[k] by {
                    if index <= k < index + num {
                        let j = k - index;
                        lemma_wrap_index_twice(self.spec_tail(), ret as int, j, c);
                        assert(data@[index + j] == self.buf@[tail + j]);
                        assert(self@[ret + j] == self.buf@[wrap_index(self.spec_tail(), ret + j, c)]);
                    } else {
                        assert(data@[k] == dpre@[k]);
                    }
                }
                assert(data@ =~= target);
                lemma_mask_wraps_once((tail + num) as usize, self.buf.len());
                lemma_wrap_index_twice(self.spec_tail(), ret as int, num as int, c);
            }
            tail = (tail + num) & (self.buf.len() - 1);
            index += num;
            len -= num;
            ret += num;
        }
    }

    /// Remove contiguous elements from the tail of the circular buffer
    /// without copying them out: the read index advances over as many of the
    /// oldest elements as `data` has slots, discarding them. Only the length
    /// of `data` matters; its contents are not touched. Returns the count
    /// actually consumed, the smaller of `data.len()` and `count()`.
    #[verifier::loop_isolation(false)]
    pub fn consume(&mut self, data: &Vec<T>) -> (ret: usize)
        requires
            old(self).well_formed(),
        ensures
            final(self).well_formed(),
            final(self).spec_len() == old(self).spec_len(),
            ret == min(data@.len() as int, old(self)@.len() as int),
            final(self)@ == old(self)@.subrange(ret as int, old(self)@.len() as int),
            final(self).spec_head() == old(self).spec_head(),
            final(self).spec_tail() == wrap_index(
                old(self).spec_tail(),
                ret as int,
                old(self).spec_len(),
            ),
    {
        let ghost orig = *self;
        let ghost c = orig.spec_len();
        let mut len: usize = data.len();
        let mut num: usize;
        let mut ret: usize = 0;
        loop
            invariant
                self.well_formed(),
                self.buf == orig.buf,
                self.head == orig.head,
                ret + len == data@.len(),
                ret <= orig@.len(),
                self@ == orig@.subrange(ret as int, orig@.len() as int),
                self.spec_tail() == wrap_index(orig.spec_tail(), ret as int, c),
            decreases len,
        {
            num = self.count_to_end();
            if len < num {
                num = len;
            }
            if num == 0 {
                proof {
                    assert(self@.len() == orig@.len() - ret);
                    if len != 0 {
                        assert(self.spec_count() == 0);
                    }
                }
                return ret;
            }
            let t = self.tail;
            self.tail = (t + num) & (self.buf.len() - 1);
            proof {
                lemma_mask_wraps_once((t + num) as usize, self.buf.len());
                lemma_wrap_index_twice(orig.spec_tail(), ret as int, num as int, c);
                assert forall|m: int| 0 <= m < orig@.len() - ret - num implies self.buf@[wrap_index(
                    self.spec_tail(),
                    m,
                    c,
                )] == orig@[ret + num + m] by {
                    lemma_wrap_index_twice(orig.spec_tail(), (ret + num) as int, m, c);
                }
                assert(self@ =~= orig@.subrange(ret + num, orig@.len() as int));
            }
            len -= num;
            ret += num;
        }
    }

    /// Law: in every well-formed state, however it was reached, the count
    /// and the space add up to one less than the length of the linear
    /// buffer, and the count stays within those bounds.
    pub proof fn law_count_plus_space(self)
        requires
            self.well_formed(),
        ensures
            self.spec_count() + self.spec_space() == self.spec_len() - 1,
            0 <= self.spec_count() <= self.spec_len() - 1,
            self@.len() == self.spec_count(),
    {
    }

    /// Law: first-in first-out ordering. Two accepted pushes, of `x` and
    /// then of `y`, keep every element already held in place and append `x`
    /// and `y` behind them in that order; since `pop` and `read` always
    /// yield the view from the front, elements come out in exactly the
    /// order they went in.
    pub proof fn law_fifo(b0: Self, b1: Self, b2: Self, x: T, y: T)
        requires
            b1@ == b0@.push(x),
            b2@ == b1@.push(y),
        ensures
            forall|k: int| 0 <= k < b0@.len() ==> b2@[k] == b0@[k],
            b2@[b0@.len() as int] == x,
            b2@[b0@.len() as int + 1] == y,
    {
    }

    /// Law: round trip. Writing `d` into an empty buffer with space for all
    /// of it and then reading `d.len()` elements yields exactly `d`. The
    /// `requires` restate what the contracts of `write` and `read` give for
    /// those two calls: `written` is the view after the write, `out` the
    /// data a full read of the same length then returns.
    pub proof fn law_write_read_round_trip(b0: Self, d: Seq<T>, written: Seq<T>, out: Seq<T>)
        requires
            b0@.len() == 0,
            d.len() <= b0.spec_space(),
            written == b0@ + d,
            out == written.subrange(0, d.len() as int),
        ensures
            out == d,
    {
        assert(out =~= d);
    }

    /// Law: peek is pure. The data a peek returns is a function of the
    /// buffer's view and the destination alone — the contract of `peek`
    /// fixes the result as this prefix-plus-remainder expression and leaves
    /// the buffer untouched — so repeating the same request yields the same
    /// output every time.
    pub proof fn law_peek_idempotent(b: Self, dest: Seq<T>, out1: Seq<T>, out2: Seq<T>)
        requires
            out1 == b@.subrange(0, min(dest.len() as int, b@.len() as int)) + dest.subrange(
                min(dest.len() as int, b@.len() as int),
                dest.len() as int,
            ),
            out2 == b@.subrange(0, min(dest.len() as int, b@.len() as int)) + dest.subrange(
                min(dest.len() as int, b@.len() as int),
                dest.len() as int,
            ),
        ensures
            out1 == out2,
    {
    }

    /// Law: a consume after a peek of the same length discards exactly the
    /// peeked elements: the peeked prefix followed by the view left after
    /// the consume reassembles the view the peek saw.
    pub proof fn law_peek_then_consume(b0: Self, b1: Self, n: int, peeked: Seq<T>)
        requires
            0 <= n,
            peeked == b0@.subrange(0, min(n, b0@.len() as int)),
            b1@ == b0@.subrange(min(n, b0@.len() as int), b0@.len() as int),
        ensures
            peeked + b1@ == b0@,
    {
        assert(peeked + b1@ =~= b0@);
    }
}

} // verus!

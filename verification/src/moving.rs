//! A queue implemented using a contiguous buffer with separate indices for
//! reading and writing. Elements are moved in to and out of the buffer.
//!
//! Every element lives in an `Option` holder. Pushing and writing take the
//! value out of the caller's holder, leaving `None` behind; popping and
//! reading take the value out of the buffer's slot, leaving the slot empty.
//! A holder that already held `None` is transferred like any other, so the
//! buffer can hold empty holders among its counted elements.
//!
//! The head index is the next location to be written. It is incremented when
//! items are added and wraps to zero when it reaches the end of the linear
//! buffer. The tail index is the next location to be read. It is incremented
//! when items are removed and wraps identically.
//!
//! When the head index equals the tail index the buffer is empty, and when
//! the head index is one slot behind the tail index the buffer is full, so
//! one slot is always left unused and at most `len - 1` elements are held.

use vstd::math::min;
use vstd::prelude::*;

use crate::capacity::is_valid_capacity;
use crate::capacity::lemma_mask_wraps_once;
use crate::capacity::lemma_wrap_index_injective;
use crate::capacity::lemma_wrap_index_twice;
use crate::capacity::wrap_index;
use crate::capacity::InvalidCapacity;
use crate::capacity::power_of_2;

verus! {

/// A fixed-capacity circular buffer that takes ownership of its elements.
///
/// Abstractly, a `CircBuf` is the sequence of holders written but not yet
/// read, in first-in first-out order; the sequence is its view (`self@`).
pub struct CircBuf<T> {
    /// The next location in the linear buffer to be written
    head: usize,
    /// The next location in the linear buffer to be read
    tail: usize,
    /// The linear buffer
    buf: Vec<Option<T>>,
}

impl<T> View for CircBuf<T> {
    type V = Seq<Option<T>>;

    /// The holders currently held, oldest first: the slots from `tail`
    /// (inclusive) to `head` (exclusive), going around the ring.
    closed spec fn view(&self) -> Seq<Option<T>> {
        Seq::new(
            self.spec_count() as nat,
            |i: int| self.buf[wrap_index(self.spec_tail(), i, self.spec_len())],
        )
    }
}

impl<T> CircBuf<T> {
    /// Length of the linear buffer; one more than the usable capacity.
    pub closed spec fn spec_len(self) -> int {
        self.buf.len() as int
    }

    /// The next slot to be written.
    pub closed spec fn spec_head(self) -> int {
        self.head as int
    }

    /// The next slot to be read.
    pub closed spec fn spec_tail(self) -> int {
        self.tail as int
    }

    /// The storage length is a valid capacity and both indices are in range.
    pub closed spec fn well_formed(self) -> bool {
        &&& is_valid_capacity(self.buf.len())
        &&& self.spec_head() < self.spec_len()
        &&& self.spec_tail() < self.spec_len()
    }

    /// Number of elements held: how far `head` is ahead of `tail` on the ring.
    pub open spec fn spec_count(self) -> int {
        if self.spec_head() >= self.spec_tail() {
            self.spec_head() - self.spec_tail()
        } else {
            self.spec_head() + self.spec_len() - self.spec_tail()
        }
    }

    /// Number of elements that can still be pushed before the buffer is full.
    pub open spec fn spec_space(self) -> int {
        self.spec_len() - 1 - self.spec_count()
    }

    /// Initialise a new circular buffer of `l` slots, all empty.
    /// Construction fails exactly when `l` is below 2 or not a power of two.
    pub fn new(l: usize) -> (r: Result<CircBuf<T>, InvalidCapacity>)
        ensures
            r is Ok <==> is_valid_capacity(l),
            r matches Ok(b) ==> {
                &&& b.well_formed()
                &&& b.spec_len() == l
                &&& b.spec_head() == 0
                &&& b.spec_tail() == 0
                &&& b.spec_count() == 0
                &&& b.spec_space() == l - 1
                &&& b@ == Seq::<Option<T>>::empty()
            },
    {
        if !power_of_2(l) {
            return Err(InvalidCapacity);
        }
        let mut vec: Vec<Option<T>> = Vec::new();
        for _i in 0..l
            invariant
                vec.len() == _i,
        {
            vec.push(None);
        }
        let b = CircBuf { head: 0, tail: 0, buf: vec };
        proof {
            assert(b@ =~= Seq::<Option<T>>::empty());
        }
        Ok(b)
    }

    /// Get the head index
    pub fn head(&self) -> (r: usize)
        ensures
            r == self.spec_head(),
    {
        self.head
    }

    /// Get the tail index
    pub fn tail(&self) -> (r: usize)
        ensures
            r == self.spec_tail(),
    {
        self.tail
    }

    /// Get the length of the linear buffer
    pub fn len(&self) -> (r: usize)
        ensures
            r == self.spec_len(),
    {
        self.buf.len()
    }

    /// Calculate the count of the circular buffer: the number of elements
    /// currently held, which is also the length of its view.
    pub fn count(&self) -> (r: usize)
        requires
            self.well_formed(),
        ensures
            r == self.spec_count(),
            r == self@.len(),
    {
        if self.head >= self.tail {
            self.head - self.tail
        } else {
            self.head + (self.buf.len() - self.tail)
        }
    }

    /// Calculate the space in the circular buffer: the number of elements
    /// that can still be pushed.
    pub fn space(&self) -> (r: usize)
        requires
            self.well_formed(),
        ensures
            r == self.spec_space(),
    {
        let cnt = self.count();
        self.buf.len() - 1 - cnt
    }

    /// Calculate the space until the end of the linear buffer: the largest
    /// contiguous run of free slots starting at `head`.
    fn space_to_end(&self) -> (r: usize)
        requires
            self.well_formed(),
        ensures
            r == min(self.spec_len() - self.spec_head(), self.spec_space()),
    {
        let linear = self.buf.len() - self.head;
        let s = self.space();
        if linear < s {
            linear
        } else {
            s
        }
    }

    /// Calculate the count until the end of the linear buffer: the largest
    /// contiguous run of held elements starting at `tail`.
    fn count_to_end(&self) -> (r: usize)
        requires
            self.well_formed(),
        ensures
            r == min(self.spec_len() - self.spec_tail(), self.spec_count()),
    {
        let c = self.buf.len();
        let linear = c - self.tail;
        let cnt = self.count();
        if cnt < linear {
            cnt
        } else {
            linear
        }
    }

    /// Get an element from the tail of the circular buffer: the oldest
    /// holder's value, leaving the slot empty. Yields nothing, changing
    /// nothing, exactly when the buffer is empty; note that popping a holder
    /// that was pushed empty also yields `None`, but advances the buffer.
    pub fn pop(&mut self) -> (r: Option<T>)
        requires
            old(self).well_formed(),
        ensures
            final(self).well_formed(),
            final(self).spec_len() == old(self).spec_len(),
            old(self)@.len() == 0 ==> r is None && *final(self) == *old(self),
            old(self)@.len() > 0 ==> {
                &&& r == old(self)@[0]
                &&& final(self)@ == old(self)@.drop_first()
                &&& final(self).spec_head() == old(self).spec_head()
                &&& final(self).spec_tail() == wrap_index(
                    old(self).spec_tail(),
                    1,
                    old(self).spec_len(),
                )
            },
    {
        if self.count() == 0 {
            return None;
        }
        let t = self.tail;
        let val = self.buf[t].take();
        self.tail = (t + 1) & (self.buf.len() - 1);
        proof {
            lemma_mask_wraps_once((t + 1) as usize, self.buf.len());
            assert(self@ =~= old(self)@.drop_first());
        }
        val
    }

    /// Put an element at the head of the circular buffer, taking it out of
    /// the caller's holder and leaving `None` there. Fails exactly when the
    /// buffer is full; the holder then keeps its value unchanged.
    pub fn push(&mut self, val: &mut Option<T>) -> (r: bool)
        requires
            old(self).well_formed(),
        ensures
            final(self).well_formed(),
            final(self).spec_len() == old(self).spec_len(),
            old(self).spec_space() == 0 ==> r == false && *final(self) == *old(self) && *final(val)
                == *old(val),
            old(self).spec_space() > 0 ==> {
                &&& r == true
                &&& *final(val) is None
                &&& final(self)@ == old(self)@.push(*old(val))
                &&& final(self).spec_tail() == old(self).spec_tail()
                &&& final(self).spec_head() == wrap_index(
                    old(self).spec_head(),
                    1,
                    old(self).spec_len(),
                )
            },
    {
        if self.space() == 0 {
            return false;
        }
        let h = self.head;
        let v = val.take();
        self.buf.set(h, v);
        self.head = (h + 1) & (self.buf.len() - 1);
        proof {
            lemma_mask_wraps_once((h + 1) as usize, self.buf.len());
            assert(self@ =~= old(self)@.push(*old(val)));
        }
        true
    }

    /// Get contiguous elements from the tail of the circular buffer: as many
    /// leading slots of `data` as the buffer holds elements receive the
    /// oldest holders, in order, and the buffer slots they came from are
    /// left empty; the rest of `data` is untouched. Returns the count
    /// actually filled, the smaller of `data.len()` and `count()`; running
    /// short is not an error.
    #[verifier::loop_isolation(false)]
    pub fn read(&mut self, data: &mut Vec<Option<T>>) -> (ret: usize)
        requires
            old(self).well_formed(),
        ensures
            final(self).well_formed(),
            final(self).spec_len() == old(self).spec_len(),
            ret == min(old(data)@.len() as int, old(self)@.len() as int),
            final(data)@ == old(self)@.subrange(0, ret as int) + old(data)@.subrange(
                ret as int,
                old(data)@.len() as int,
            ),
            final(self)@ == old(self)@.subrange(ret as int, old(self)@.len() as int),
            final(self).spec_head() == old(self).spec_head(),
            final(self).spec_tail() == wrap_index(
                old(self).spec_tail(),
                ret as int,
                old(self).spec_len(),
            ),
    {
        let ghost orig = *self;
        let ghost dorig = *data;
        let ghost c = orig.spec_len();
        let mut index: usize = 0;
        let mut len: usize = data.len();
        let mut num: usize;
        let mut ret: usize = 0;
        loop
            invariant
                self.well_formed(),
                self.spec_len() == c,
                self.head == orig.head,
                data@.len() == dorig@.len(),
                index == ret,
                ret + len == dorig@.len(),
                ret <= orig@.len(),
                self@ == orig@.subrange(ret as int, orig@.len() as int),
                self.spec_tail() == wrap_index(orig.spec_tail(), ret as int, c),
                data@ == orig@.subrange(0, ret as int) + dorig@.subrange(
                    ret as int,
                    dorig@.len() as int,
                ),
            decreases len,
        {
            num = self.count_to_end();
            if len < num {
                num = len;
            }
            if num == 0 {
                proof {
                    assert(self@.len() == orig@.len() - ret);
                    if len == 0 {
                        assert(ret == dorig@.len());
                    } else {
                        assert(self.spec_count() == 0);
                        assert(ret == orig@.len());
                    }
                }
                return ret;
            }
            let t = self.tail;
            let ghost pre = *self;
            let ghost dpre = *data;
            let mut i: usize = 0;
            while i < num
                invariant
                    i <= num,
                    self.head == pre.head,
                    self.tail == pre.tail,
                    self.buf@.len() == pre.buf@.len(),
                    forall|k: int|
                        0 <= k < self.buf@.len() && !(t <= k < t + i) ==> self.buf@[k]
                            == pre.buf@[k],
                    data@.len() == dpre@.len(),
                    forall|k: int|
                        0 <= k < data@.len() && !(index <= k < index + i) ==> data@[k]
                            == dpre@[k],
                    forall|j: int| 0 <= j < i ==> #[trigger] data@[index + j] == pre.buf@[t + j],
                decreases num - i,
            {
                let v = self.buf[t + i].take();
                data.set(index + i, v);
                i += 1;
            }
            proof {
                let target = orig@.subrange(0, ret + num) + dorig@.subrange(
                    ret + num,
                    dorig@.len() as int,
                );
                assert forall|k: int| 0 <= k < data@.len() implies data@[k] == target[k] by {
                    if index <= k < index + num {
                        let j = k - index;
                        lemma_wrap_index_twice(orig.spec_tail(), ret as int, j, c);
                        assert(data@[index + j] == pre.buf@[t + j]);
                        assert(pre@[ret - ret + j] == pre.buf@[wrap_index(pre.spec_tail(), j, c)]);
                        assert(orig@[ret + j] == orig@.subrange(ret as int, orig@.len() as int)[j]);
                    } else {
                        assert(data@[k] == dpre@[k]);
                    }
                }
                assert(data@ =~= target);
            }
            self.tail = (t + num) & (self.buf.len() - 1);
            proof {
                lemma_mask_wraps_once((t + num) as usize, self.buf.len());
                lemma_wrap_index_twice(orig.spec_tail(), ret as int, num as int, c);
                let t0 = orig.spec_tail();
                assert forall|m: int| 0 <= m < orig@.len() - ret - num implies self.buf@[wrap_index(
                    self.spec_tail(),
                    m,
                    c,
                )] == orig@[ret + num + m] by {
                    lemma_wrap_index_twice(t0, (ret + num) as int, m, c);
                    let p = wrap_index(t0, ret + num + m, c);
                    if t <= p < t + num {
                        let j = p - t;
                        lemma_wrap_index_twice(t0, ret as int, j, c);
                        lemma_wrap_index_injective(t0, ret + num + m, ret + j, c);
                    }
                    assert(self.buf@[p] == pre.buf@[p]);
                    lemma_wrap_index_twice(t0, ret as int, (num + m) as int, c);
                    assert(pre@[num + m] == pre.buf@[wrap_index(pre.spec_tail(), num + m, c)]);
                }
                assert(self@ =~= orig@.subrange(ret + num, orig@.len() as int));
            }
            index += num;
            len -= num;
            ret += num;
        }
    }

    /// Put contiguous elements at the head of the circular buffer: as many
    /// leading holders of `data` as fit in the available space are taken
    /// into the buffer, in order, leaving `None` behind in each transferred
    /// slot of `data`; the rest of `data` is untouched. Returns the count
    /// actually transferred, the smaller of `data.len()` and `space()`;
    /// running short is not an error.
    #[verifier::loop_isolation(false)]
    pub fn write(&mut self, data: &mut Vec<Option<T>>) -> (ret: usize)
        requires
            old(self).well_formed(),
        ensures
            final(self).well_formed(),
            final(self).spec_len() == old(self).spec_len(),
            ret == min(old(data)@.len() as int, old(self).spec_space()),
            final(self)@ == old(self)@ + old(data)@.subrange(0, ret as int),
            final(data)@.len() == old(data)@.len(),
            forall|j: int| 0 <= j < ret ==> #[trigger] final(data)@[j] is None,
            forall|j: int|
                ret <= j < old(data)@.len() ==> #[trigger] final(data)@[j] == old(data)@[j],
            final(self).spec_tail() == old(self).spec_tail(),
            final(self).spec_head() == wrap_index(
                old(self).spec_head(),
                ret as int,
                old(self).spec_len(),
            ),
    {
        let ghost orig = *self;
        let ghost dorig = *data;
        let ghost c = orig.spec_len();
        let mut index: usize = 0;
        let mut len: usize = data.len();
        let mut num: usize;
        let mut ret: usize = 0;
        loop
            invariant
                self.well_formed(),
                self.spec_len() == c,
                self.tail == orig.tail,
                data@.len() == dorig@.len(),
                index == ret,
                ret + len == dorig@.len(),
                ret <= orig.spec_space(),
                self@ == orig@ + dorig@.subrange(0, ret as int),
                self.spec_head() == wrap_index(orig.spec_head(), ret as int, c),
                forall|j: int| 0 <= j < ret ==> #[trigger] data@[j] is None,
                forall|j: int| ret <= j < dorig@.len() ==> #[trigger] data@[j] == dorig@[j],
            decreases len,
        {
            num = self.space_to_end();
            if len < num {
                num = len;
            }
            if num == 0 {
                proof {
                    assert(self@.len() == orig@.len() + ret);
                    if len == 0 {
                        assert(ret == dorig@.len());
                    } else {
                        assert(self.spec_space() == 0);
                        assert(ret == orig.spec_space());
                    }
                }
                return ret;
            }
            let h = self.head;
            let ghost pre = *self;
            let ghost dpre = *data;
            let mut i: usize = 0;
            while i < num
                invariant
                    i <= num,
                    self.head == pre.head,
                    self.tail == pre.tail,
                    self.buf@.len() == pre.buf@.len(),
                    forall|k: int|
                        0 <= k < self.buf@.len() && !(h <= k < h + i) ==> self.buf@[k]
                            == pre.buf@[k],
                    forall|j: int| 0 <= j < i ==> #[trigger] self.buf@[h + j] == dpre@[index + j],
                    data@.len() == dpre@.len(),
                    forall|k: int|
                        0 <= k < data@.len() && !(index <= k < index + i) ==> data@[k]
                            == dpre@[k],
                    forall|j: int| 0 <= j < i ==> #[trigger] data@[index + j] is None,
                decreases num - i,
            {
                let v = data[index + i].take();
                self.buf.set(h + i, v);
                i += 1;
            }
            proof {
                assert(self.spec_head() == pre.spec_head());
                let target = orig@ + dorig@.subrange(0, ret + num);
                let t0 = orig.spec_tail();
                let filled = orig@.len() + ret;
                assert(orig.spec_head() == wrap_index(t0, orig@.len() as int, c));
                lemma_wrap_index_twice(t0, orig@.len() as int, ret as int, c);
                assert(h == wrap_index(t0, filled, c));
                assert forall|m: int| 0 <= m < filled + num implies self.buf@[wrap_index(
                    t0,
                    m,
                    c,
                )] == target[m] by {
                    let p = wrap_index(t0, m, c);
                    if m < filled {
                        assert(pre@[m] == pre.buf@[p]);
                        if h <= p < h + num {
                            let j = p - h;
                            lemma_wrap_index_twice(t0, filled, j, c);
                            lemma_wrap_index_injective(t0, m, filled + j, c);
                        }
                        assert(self.buf@[p] == pre.buf@[p]);
                    } else {
                        let j = m - filled;
                        lemma_wrap_index_twice(t0, filled, j, c);
                        assert(self.buf@[h + j] == dpre@[index + j]);
                    }
                }
            }
            self.head = (h + num) & (self.buf.len() - 1);
            proof {
                lemma_mask_wraps_once((h + num) as usize, self.buf.len());
                lemma_wrap_index_twice(orig.spec_head(), ret as int, num as int, c);
                assert(self@ =~= orig@ + dorig@.subrange(0, ret + num));
                assert forall|j: int| 0 <= j < ret + num implies #[trigger] data@[j] is None by {
                    if j < ret {
                        assert(data@[j] == dpre@[j]);
                    } else {
                        assert(data@[index + (j - index)] is None);
                    }
                }
                assert forall|j: int|
                    ret + num <= j < dorig@.len() implies #[trigger] data@[j] == dorig@[j] by {
                    assert(data@[j] == dpre@[j]);
                }
            }
            index += num;
            len -= num;
            ret += num;
        }
    }

    /// Law: in every well-formed state, however it was reached, the count
    /// and the space add up to one less than the length of the linear
    /// buffer, and the count stays within those bounds.
    pub proof fn law_count_plus_space(self)
        requires
            self.well_formed(),
        ensures
            self.spec_count() + self.spec_space() == self.spec_len() - 1,
            0 <= self.spec_count() <= self.spec_len() - 1,
            self@.len() == self.spec_count(),
    {
    }

    /// Law: first-in first-out ordering. Two accepted pushes, of holders
    /// `x` and then `y`, keep every holder already held in place and append
    /// `x` and `y` behind them in that order; since `pop` and `read` always
    /// yield the view from the front, holders come out in exactly the order
    /// they went in.
    pub proof fn law_fifo(b0: Self, b1: Self, b2: Self, x: Option<T>, y: Option<T>)
        requires
            b1@ == b0@.push(x),
            b2@ == b1@.push(y),
        ensures
            forall|k: int| 0 <= k < b0@.len() ==> b2@[k] == b0@[k],
            b2@[b0@.len() as int] == x,
            b2@[b0@.len() as int + 1] == y,
    {
    }

    /// Law: round trip. Writing `d` into an empty buffer with space for all
    /// of it and then reading `d.len()` elements yields exactly `d`. The
    /// `requires` restate what the contracts of `write` and `read` give for
    /// those two calls: `written` is the view after the write, `out` the
    /// data a full read of the same length then returns.
    pub proof fn law_write_read_round_trip(
        b0: Self,
        d: Seq<Option<T>>,
        written: Seq<Option<T>>,
        out: Seq<Option<T>>,
    )
        requires
            b0@.len() == 0,
            d.len() <= b0.spec_space(),
            written == b0@ + d,
            out == written.subrange(0, d.len() as int),
        ensures
            out == d,
    {
        assert(out =~= d);
    }
}

} // verus!

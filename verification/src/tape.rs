//! A growable, cursor-addressed buffer.
//!
//! One abstraction serves the data tape, the auxiliary stack and the
//! compiled bytecode.  A tape owns a sequence of fixed-width elements
//! and a cursor.  Moving the cursor below zero is never valid; moving
//! it past the right bound grows the tape (zero-filled) for the data
//! tape, and is an error for the bytecode tape, which never grows
//! implicitly.

use vstd::arithmetic::div_mod::lemma_fundamental_div_mod;
use vstd::prelude::*;

verus! {

/// 256 raised to `n`: the number of values a big-endian field of `n`
/// bytes can hold.
pub open spec fn pow256(n: nat) -> nat
    decreases n,
{
    if n == 0 {
        1
    } else {
        256 * pow256((n - 1) as nat)
    }
}

/// The unsigned value of a byte sequence read big-endian.
pub open spec fn be_value(s: Seq<u8>) -> nat
    decreases s.len(),
{
    if s.len() == 0 {
        0
    } else {
        be_value(s.drop_last()) * 256 + s.last() as nat
    }
}

/// The low `n` bytes of `v`, big-endian.
pub open spec fn be_bytes(v: nat, n: nat) -> Seq<u8>
    decreases n,
{
    if n == 0 {
        Seq::empty()
    } else {
        be_bytes(v / 256, (n - 1) as nat).push((v % 256) as u8)
    }
}

pub proof fn lemma_be_bytes_len(v: nat, n: nat)
    ensures
        be_bytes(v, n).len() == n,
    decreases n,
{
    if n > 0 {
        lemma_be_bytes_len(v / 256, (n - 1) as nat);
    }
}

/// A big-endian value is bounded by the width of its field.
pub proof fn lemma_be_value_bound(s: Seq<u8>)
    ensures
        be_value(s) < pow256(s.len()),
    decreases s.len(),
{
    if s.len() > 0 {
        lemma_be_value_bound(s.drop_last());
    }
}

/// Encoding a value that fits the field and reading it back is the
/// identity.
pub proof fn lemma_be_roundtrip(v: nat, n: nat)
    requires
        v < pow256(n),
    ensures
        be_value(be_bytes(v, n)) == v,
    decreases n,
{
    if n > 0 {
        let rest = be_bytes(v / 256, (n - 1) as nat);
        lemma_be_bytes_len(v / 256, (n - 1) as nat);
        assert(rest.push((v % 256) as u8).drop_last() =~= rest);
        lemma_fundamental_div_mod(v as int, 256);
        assert(v / 256 < pow256((n - 1) as nat)) by {
            if v / 256 >= pow256((n - 1) as nat) {
                assert(v >= 256 * pow256((n - 1) as nat)) by {
                    lemma_fundamental_div_mod(v as int, 256);
                }
            }
        }
        lemma_be_roundtrip(v / 256, (n - 1) as nat);
    }
}

/// Buffer-level failures.  The virtual machine wraps these into its
/// own error type.
#[derive(Debug, Clone, Copy, PartialEq, Eq, Structural)]
pub enum TapeError {
    /// A read ran past the end of the buffer.
    Eof,
    /// An index was outside the buffer.
    OutOfBounds,
    /// A byte-width argument was outside 1..=4.
    InvalidArgument,
}

/// The mathematical model of a tape: its contents and its cursor.
pub ghost struct TapeModel<T> {
    pub data: Seq<T>,
    pub cursor: nat,
}

/// A growable sequence of elements plus a cursor index.
#[derive(Debug, Clone)]
pub struct Tape<T> {
    data: Vec<T>,
    cursor: usize,
}

impl<T> View for Tape<T> {
    type V = TapeModel<T>;

    closed spec fn view(&self) -> TapeModel<T> {
        TapeModel { data: self.data@, cursor: self.cursor as nat }
    }
}

impl<T: Copy> Tape<T> {
    /// The cursor never strays past the length boundary.
    pub open spec fn wf(self) -> bool {
        self@.cursor <= self@.data.len()
    }

    pub fn new(data: Vec<T>) -> (t: Tape<T>)
        ensures
            t@.data == data@,
            t@.cursor == 0,
            t.wf(),
    {
        Tape { data, cursor: 0 }
    }

    pub fn get_cursor(&self) -> (c: usize)
        ensures
            c == self@.cursor,
    {
        self.cursor
    }

    pub fn len(&self) -> (l: usize)
        ensures
            l == self@.data.len(),
    {
        self.data.len()
    }

    /// Absolute cursor set.  The target must be a valid existing
    /// index: no tape grows implicitly on a jump.
    pub fn jump(&mut self, target: usize)
        requires
            target < old(self)@.data.len(),
        ensures
            final(self)@.data == old(self)@.data,
            final(self)@.cursor == target,
            final(self).wf(),
    {
        self.cursor = target;
    }

    /// Relative cursor set, with the same bounds rule as `jump`.
    pub fn jump_relative(&mut self, target: isize)
        requires
            0 <= old(self)@.cursor + target < old(self)@.data.len(),
    ensures
            final(self)@.data == old(self)@.data,
            final(self)@.cursor == old(self)@.cursor + target,
            final(self).wf(),
    {
        let c = self.cursor;
        let l = self.data.len();
        if target >= 0 {
            // the requires puts the target below the length, so the
            // sum fits
            let t = c + target as usize;
            assert(t < l);
            self.jump(t);
        } else {
            let back = (-(target + 1)) as usize + 1;
            self.jump(c - back);
        }
    }

    /// Read the element under the cursor without advancing.
    pub fn peek(&self) -> (v: T)
        requires
            self@.cursor < self@.data.len(),
        ensures
            v == self@.data[self@.cursor as int],
    {
        self.data[self.cursor]
    }

    /// Read at an absolute index; an index past the end is reported,
    /// never a panic.
    pub fn peek_at(&self, index: usize) -> (r: Result<T, TapeError>)
        ensures
            index < self@.data.len() ==> r == Ok::<T, TapeError>(self@.data[index as int]),
            index >= self@.data.len() ==> r == Err::<T, TapeError>(TapeError::OutOfBounds),
    {
        if index < self.data.len() {
            Ok(self.data[index])
        } else {
            Err(TapeError::OutOfBounds)
        }
    }

    /// Read the element under the cursor, then attempt to advance.
    /// The flag says whether the cursor moved; it stops at the length
    /// boundary.
    pub fn read_inc(&mut self) -> (r: (T, bool))
        requires
            old(self)@.cursor < old(self)@.data.len(),
        ensures
            r.0 == old(self)@.data[old(self)@.cursor as int],
            r.1 == true,
            final(self)@.data == old(self)@.data,
            final(self)@.cursor == old(self)@.cursor + 1,
            final(self).wf(),
    {
        let n = self.peek();
        (n, self.inc_cursor())
    }

    /// Advance the cursor by one, stopping at the length boundary.
    /// Returns whether the cursor moved.
    pub fn inc_cursor(&mut self) -> (b: bool)
        requires
            old(self).wf(),
        ensures
            final(self)@.data == old(self)@.data,
            b == (old(self)@.cursor < old(self)@.data.len()),
            b ==> final(self)@.cursor == old(self)@.cursor + 1,
            !b ==> final(self)@.cursor == old(self)@.cursor,
            final(self).wf(),
    {
        if self.cursor == self.data.len() {
            return false;
        }
        self.cursor += 1;
        true
    }

    /// Read at an offset from the cursor; the target must be inside
    /// the buffer.
    pub fn peek_relative(&mut self, offset: isize) -> (v: T)
        requires
            0 <= old(self)@.cursor + offset < old(self)@.data.len(),
        ensures
            v == old(self)@.data[old(self)@.cursor + offset],
            *final(self) == *old(self),
    {
        let c = self.cursor;
        let l = self.data.len();
        let target: usize = if offset >= 0 {
            let t = c + offset as usize;
            assert(t < l);
            t
        } else {
            c - ((-(offset + 1)) as usize + 1)
        };
        self.data[target]
    }

    /// Overwrite the element at an absolute index.
    pub fn write_at(&mut self, index: usize, value: T)
        requires
            index < old(self)@.data.len(),
        ensures
            final(self)@.data == old(self)@.data.update(index as int, value),
            final(self)@.cursor == old(self)@.cursor,
    {
        self.data[index] = value;
    }

    /// Overwrite the element under the cursor.
    pub fn write(&mut self, value: T)
        requires
            old(self)@.cursor < old(self)@.data.len(),
        ensures
            final(self)@.data == old(self)@.data.update(old(self)@.cursor as int, value),
            final(self)@.cursor == old(self)@.cursor,
    {
        let index = self.cursor;
        self.data[index] = value;
    }

    /// Append at the tail.
    pub fn push(&mut self, n: T)
        ensures
            final(self)@.data == old(self)@.data.push(n),
            final(self)@.cursor == old(self)@.cursor,
    {
        self.data.push(n);
    }

    /// Remove from the tail — unless that would leave the tape with
    /// fewer elements than the cursor guards.  When the tape has been
    /// reduced to the element under the cursor, the call reports
    /// underflow and returns that element's current value without
    /// removing it, so a defined value always remains.
    pub fn pop(&mut self) -> (r: (T, bool))
        requires
            old(self)@.cursor < old(self)@.data.len(),
        ensures
            final(self)@.cursor == old(self)@.cursor,
            r.1 == (old(self)@.cursor == old(self)@.data.len() - 1),
            r.1 ==> final(self)@.data == old(self)@.data
                && r.0 == old(self)@.data[old(self)@.cursor as int],
            !r.1 ==> final(self)@.data == old(self)@.data.drop_last()
                && r.0 == old(self)@.data.last(),
            (final(self)@, r.0, r.1) == pop_spec(old(self)@),
            final(self).wf(),
    {
        if self.cursor == self.data.len() - 1 {
            (self.peek(), true)
        } else {
            let v = self.data.pop();
            match v {
                Some(x) => (x, false),
                None => unreached(),
            }
        }
    }

    /// A copy of the whole contents, in order.
    pub fn iter(&self) -> (v: Vec<T>)
        ensures
            v@ == self@.data,
    {
        let mut out: Vec<T> = Vec::new();
        let mut i: usize = 0;
        while i < self.data.len()
            invariant
                i <= self@.data.len(),
                out@ == self@.data.subrange(0, i as int),
            decreases self@.data.len() - i,
        {
            out.push(self.data[i]);
            i += 1;
        }
        proof {
            assert(out@ =~= self@.data);
        }
        out
    }
}

/// What one `pop` does to a tape model: report underflow and keep the
/// tape whole when only the guarded element remains, remove the last
/// element otherwise.  Returns the new model, the value handed out,
/// and the underflow flag.
pub open spec fn pop_spec<T>(m: TapeModel<T>) -> (TapeModel<T>, T, bool)
    recommends
        m.cursor < m.data.len(),
{
    if m.cursor == m.data.len() - 1 {
        (m, m.data[m.cursor as int], true)
    } else {
        (TapeModel { data: m.data.drop_last(), cursor: m.cursor }, m.data.last(), false)
    }
}

/// The model after `k` consecutive `pop` calls.
pub open spec fn pops<T>(m: TapeModel<T>, k: nat) -> TapeModel<T>
    decreases k,
{
    if k == 0 {
        m
    } else {
        pops(pop_spec(m).0, (k - 1) as nat)
    }
}

/// The stack discipline: starting from a stack whose cursor guards
/// the bottom element, any sequence of `pop` calls leaves the stack
/// non-empty — the pops remove elements one at a time until only the
/// guarded element remains, and every later call reports underflow
/// without removing it.  Underflow is reported exactly on the calls
/// that would otherwise remove that last element.
pub proof fn theorem_pop_never_empties<T>(m: TapeModel<T>, k: nat)
    requires
        m.cursor == 0,
        m.data.len() >= 1,
    ensures
        pops(m, k).cursor == 0,
        pops(m, k).data.len() >= 1,
        pops(m, k).data.len() == if k < m.data.len() {
            m.data.len() - k
        } else {
            1int
        },
        pops(m, k).data[0] == m.data[0],
        pop_spec(pops(m, k)).2 == (k + 1 >= m.data.len()),
        pop_spec(pops(m, k)).2 ==> pop_spec(pops(m, k)).0 == pops(m, k),
    decreases k,
{
    if k > 0 {
        theorem_pop_never_empties(pop_spec(m).0, (k - 1) as nat);
    }
}

/// Reduction of an integer into the signed 8-bit range, discarding
/// whole multiples of 256.  Defined for one step of wraparound, which
/// covers every sum or difference of two cells.
pub open spec fn wrap_i8(x: int) -> i8
    recommends
        -256 <= x < 256,
{
    if x > 127 {
        (x - 256) as i8
    } else if x < -128 {
        (x + 256) as i8
    } else {
        x as i8
    }
}

impl Tape<i8> {
    /// Relative cursor move.  A negative target index is never valid;
    /// a target past the right bound grows the tape with zero-filled
    /// cells.  Returns whether the move landed past the previous right
    /// bound.
    pub fn move_cursor(&mut self, change: isize) -> (b: bool)
        requires
            old(self).wf(),
            0 <= old(self)@.cursor + change,
            old(self)@.cursor + change < usize::MAX,
        ensures
            final(self)@.cursor == old(self)@.cursor + change,
            b == (old(self)@.cursor + change >= old(self)@.data.len()),
            b ==> final(self)@.data == old(self)@.data + Seq::new(
                (old(self)@.cursor + change + 1 - old(self)@.data.len()) as nat,
                |i: int| 0i8,
            ),
            !b ==> final(self)@.data == old(self)@.data,
            final(self)@.cursor < final(self)@.data.len(),
            final(self).wf(),
    {
        let c = self.cursor;
        let m: usize = if change >= 0 {
            c + change as usize
        } else {
            c - ((-(change + 1)) as usize + 1)
        };
        let outside_right_bound = m >= self.data.len();
        if outside_right_bound {
            self.grow(m + 1);
        }
        self.cursor = m;
        outside_right_bound
    }

    /// Zero-fill the tape on the right up to `new_size`; a size at or
    /// below the current length changes nothing.
    pub fn grow(&mut self, new_size: usize)
        ensures
            final(self)@.cursor == old(self)@.cursor,
            new_size > old(self)@.data.len() ==> final(self)@.data == old(self)@.data + Seq::new(
                (new_size - old(self)@.data.len()) as nat,
                |i: int| 0i8,
            ),
            new_size <= old(self)@.data.len() ==> final(self)@.data == old(self)@.data,
            final(self)@.data.len() >= new_size,
    {
        let ghost pre = *self;
        while self.data.len() < new_size
            invariant
                self@.data.len() >= pre@.data.len(),
                self@.data.len() <= pre@.data.len() || self@.data.len() <= new_size,
                self@.cursor == pre@.cursor,
                self@.data == pre@.data + Seq::new(
                    (self@.data.len() - pre@.data.len()) as nat,
                    |i: int| 0i8,
                ),
            decreases new_size - self@.data.len(),
        {
            self.data.push(0i8);
            proof {
                assert(self@.data =~= pre@.data + Seq::new(
                    (self@.data.len() - pre@.data.len()) as nat,
                    |i: int| 0i8,
                ));
            }
        }
        proof {
            assert(pre@.data + Seq::new(0, |i: int| 0i8) =~= pre@.data);
        }
    }

    /// Whether the cell at an absolute index holds something other
    /// than zero.
    pub fn nonzero_at(&self, index: usize) -> (b: bool)
        requires
            index < self@.data.len(),
        ensures
            b == (self@.data[index as int] != 0),
    {
        match self.peek_at(index) {
            Ok(c) => c != 0,
            Err(_) => unreached(),
        }
    }

    /// Subtract `n` from the cell under the cursor with 8-bit
    /// wraparound; returns whether the exact difference left the
    /// signed 8-bit range.
    pub fn i8_subtract(&mut self, n: i8) -> (overflow: bool)
        requires
            old(self)@.cursor < old(self)@.data.len(),
        ensures
            final(self)@.data == old(self)@.data.update(
                old(self)@.cursor as int,
                wrap_i8(old(self)@.data[old(self)@.cursor as int] - n),
            ),
            final(self)@.cursor == old(self)@.cursor,
            overflow == !(-128 <= old(self)@.data[old(self)@.cursor as int] - n <= 127),
    {
        let m = self.peek();
        let diff: i16 = m as i16 - n as i16;
        if diff > 127 {
            self.write((diff - 256) as i8);
            true
        } else if diff < -128 {
            self.write((diff + 256) as i8);
            true
        } else {
            self.write(diff as i8);
            false
        }
    }
}

impl Tape<u8> {
    /// Read a big-endian unsigned integer of 1 to 4 bytes at the
    /// cursor, consuming the bytes.  A width outside 1..=4 is an
    /// invalid argument; a read past the end of the buffer reports
    /// end-of-stream with the cursor left at the boundary.
    pub fn read_int(&mut self, bytes: usize) -> (r: Result<u32, TapeError>)
        requires
            old(self).wf(),
        ensures
            final(self)@.data == old(self)@.data,
            final(self).wf(),
            bytes == 0 || bytes > 4 ==> r == Err::<u32, TapeError>(TapeError::InvalidArgument)
                && *final(self) == *old(self),
            1 <= bytes <= 4 && old(self)@.cursor + bytes <= old(self)@.data.len() ==> (r matches Ok(
                v,
            ) && v as nat == be_value(
                old(self)@.data.subrange(old(self)@.cursor as int, old(self)@.cursor + bytes),
            ) && (v as nat) < pow256(bytes as nat) && final(self)@.cursor == old(self)@.cursor
                + bytes),
            1 <= bytes <= 4 && old(self)@.cursor + bytes > old(self)@.data.len() ==> r == Err::<
                u32,
                TapeError,
            >(TapeError::Eof) && final(self)@.cursor == old(self)@.data.len(),
    {
        if bytes == 0 {
            Err(TapeError::InvalidArgument)
        } else if bytes > 4 {
            Err(TapeError::InvalidArgument)
        } else {
            let mut n: u32 = 0;
            let mut i: usize = 0;
            while i < bytes
                invariant
                    1 <= bytes <= 4,
                    i <= bytes,
                    self@.data == old(self)@.data,
                    self@.cursor == old(self)@.cursor + i,
                    old(self)@.cursor + i <= self@.data.len(),
                    n as nat == be_value(
                        self@.data.subrange(old(self)@.cursor as int, old(self)@.cursor + i),
                    ),
                    n < pow256(i as nat),
                decreases bytes - i,
            {
                proof {
                    lemma_be_value_bound(
                        self@.data.subrange(old(self)@.cursor as int, old(self)@.cursor + i),
                    );
                }
                if self.cursor >= self.data.len() {
                    let end = self.data.len();
                    self.jump_to_end(end);
                    return Err(TapeError::Eof);
                }
                let (byte, _ok) = self.read_inc();
                proof {
                    let pre = self@.data.subrange(old(self)@.cursor as int, old(self)@.cursor + i);
                    let post = self@.data.subrange(
                        old(self)@.cursor as int,
                        old(self)@.cursor + i + 1,
                    );
                    assert(post.drop_last() =~= pre);
                    assert(post.last() == byte);
                }
                proof {
                    lemma_pow256_small_values();
                    lemma_pow256_increases(i as nat, 3);
                }
                n = n * 256 + byte as u32;
                i += 1;
            }
            Ok(n)
        }
    }

    /// Read a big-endian unsigned integer at an absolute index without
    /// moving the cursor.
    pub fn peek_int(&self, index: usize, bytes: usize) -> (r: Result<u32, TapeError>)
        ensures
            bytes == 0 || bytes > 4 ==> r == Err::<u32, TapeError>(TapeError::InvalidArgument),
            1 <= bytes <= 4 && index + bytes <= self@.data.len() ==> {
                &&& r matches Ok(v)
                &&& v as nat == be_value(self@.data.subrange(index as int, index + bytes))
            },
            1 <= bytes <= 4 && index + bytes > self@.data.len() ==> r == Err::<u32, TapeError>(
                TapeError::OutOfBounds,
            ),
    {
        if bytes == 0 {
            Err(TapeError::InvalidArgument)
        } else if bytes > 4 {
            Err(TapeError::InvalidArgument)
        } else if self.data.len() < bytes || index > self.data.len() - bytes {
            Err(TapeError::OutOfBounds)
        } else {
            let l = self.data.len();
            let mut n: u32 = 0;
            let mut i: usize = 0;
            while i < bytes
                invariant
                    1 <= bytes <= 4,
                    i <= bytes,
                    l == self@.data.len(),
                    index + bytes <= l,
                    n as nat == be_value(self@.data.subrange(index as int, index + i)),
                    n < pow256(i as nat),
                decreases bytes - i,
            {
                proof {
                    lemma_be_value_bound(self@.data.subrange(index as int, index + i));
                }
                let byte = match self.peek_at(index + i) {
                    Ok(b) => b,
                    Err(e) => {
                        return Err(e);
                    },
                };
                proof {
                    let pre = self@.data.subrange(index as int, index + i);
                    let post = self@.data.subrange(index as int, index + i + 1);
                    assert(post.drop_last() =~= pre);
                    assert(post.last() == byte);
                    lemma_pow256_small_values();
                    lemma_pow256_increases(i as nat, 3);
                }
                n = n * 256 + byte as u32;
                i += 1;
            }
            Ok(n)
        }
    }

    /// Append the low `bytes` bytes of `n`, big-endian.  A width
    /// outside 1..=4 is an invalid argument and appends nothing.
    pub fn push_int(&mut self, bytes: usize, n: u32) -> (r: Result<(), TapeError>)
        ensures
            final(self)@.cursor == old(self)@.cursor,
            bytes == 0 || bytes > 4 ==> r == Err::<(), TapeError>(TapeError::InvalidArgument)
                && *final(self) == *old(self),
            1 <= bytes <= 4 ==> r == Ok::<(), TapeError>(()) && final(self)@.data == old(
                self,
            )@.data + be_bytes(n as nat, bytes as nat),
    {
        if bytes == 0 || bytes > 4 {
            return Err(TapeError::InvalidArgument);
        }
        if bytes >= 4 {
            self.push((n / 16777216 % 256) as u8);
        }
        if bytes >= 3 {
            self.push((n / 65536 % 256) as u8);
        }
        if bytes >= 2 {
            self.push((n / 256 % 256) as u8);
        }
        self.push((n % 256) as u8);
        proof {
            lemma_be_bytes_unfold(n as nat, bytes as nat);
        }
        Ok(())
    }

    /// Overwrite `bytes` bytes at an absolute index with the low bytes
    /// of `n`, big-endian.  The field must lie inside the buffer.
    pub fn write_int_at(&mut self, index: usize, bytes: usize, n: u32) -> (r: Result<
        (),
        TapeError,
    >)
        ensures
            final(self)@.cursor == old(self)@.cursor,
            bytes == 0 || bytes > 4 ==> r == Err::<(), TapeError>(TapeError::InvalidArgument)
                && *final(self) == *old(self),
            1 <= bytes <= 4 && index + bytes > old(self)@.data.len() ==> r == Err::<(), TapeError>(
                TapeError::OutOfBounds,
            ) && *final(self) == *old(self),
            1 <= bytes <= 4 && index + bytes <= old(self)@.data.len() ==> r == Ok::<(), TapeError>(
                (),
            ) && final(self)@.data.len() == old(self)@.data.len() && final(self)@.data.subrange(
                index as int,
                index + bytes,
            ) == be_bytes(n as nat, bytes as nat) && (forall|k: int|
                0 <= k < old(self)@.data.len() && !(index <= k < index + bytes)
                    ==> final(self)@.data[k] == old(self)@.data[k]),
    {
        if bytes == 0 || bytes > 4 {
            return Err(TapeError::InvalidArgument);
        }
        if self.data.len() < bytes || index > self.data.len() - bytes {
            return Err(TapeError::OutOfBounds);
        }
        let mut i: usize = 0;
        if bytes >= 4 {
            self.write_at(index + i, (n / 16777216 % 256) as u8);
            i += 1;
        }
        if bytes >= 3 {
            self.write_at(index + i, (n / 65536 % 256) as u8);
            i += 1;
        }
        if bytes >= 2 {
            self.write_at(index + i, (n / 256 % 256) as u8);
            i += 1;
        }
        self.write_at(index + i, (n % 256) as u8);
        proof {
            lemma_be_bytes_unfold(n as nat, bytes as nat);
            assert(final(self)@.data.subrange(index as int, index + bytes) =~= be_bytes(
                n as nat,
                bytes as nat,
            ));
        }
        Ok(())
    }

    /// Place the cursor at the length boundary.
    fn jump_to_end(&mut self, end: usize)
        requires
            end == old(self)@.data.len(),
        ensures
            final(self)@.data == old(self)@.data,
            final(self)@.cursor == old(self)@.data.len(),
            final(self).wf(),
    {
        self.cursor = end;
    }
}

/// The first few values of `pow256`, written out.
pub proof fn lemma_pow256_small_values()
    ensures
        pow256(0) == 1,
        pow256(1) == 256,
        pow256(2) == 65536,
        pow256(3) == 16777216,
        pow256(4) == 0x1_0000_0000,
{
    assert(pow256(0) == 1);
    assert(pow256(1) == 256);
    assert(pow256(2) == 65536);
    assert(pow256(3) == 16777216);
    assert(pow256(4) == 0x1_0000_0000);
}

/// `pow256` is monotone.
pub proof fn lemma_pow256_increases(a: nat, b: nat)
    requires
        a <= b,
    ensures
        pow256(a) <= pow256(b),
    decreases b,
{
    if a < b {
        lemma_pow256_increases(a, (b - 1) as nat);
    }
}

/// The explicit four-byte form of `be_bytes` for widths 1 to 4, as the
/// integer helpers emit it.
pub proof fn lemma_be_bytes_unfold(v: nat, n: nat)
    requires
        1 <= n <= 4,
    ensures
        n == 1 ==> be_bytes(v, n) =~= seq![(v % 256) as u8],
        n == 2 ==> be_bytes(v, n) =~= seq![(v / 256 % 256) as u8, (v % 256) as u8],
        n == 3 ==> be_bytes(v, n) =~= seq![
            (v / 65536 % 256) as u8,
            (v / 256 % 256) as u8,
            (v % 256) as u8,
        ],
        n == 4 ==> be_bytes(v, n) =~= seq![
            (v / 16777216 % 256) as u8,
            (v / 65536 % 256) as u8,
            (v / 256 % 256) as u8,
            (v % 256) as u8,
        ],
{
    vstd::arithmetic::div_mod::lemma_div_denominator(v as int, 256, 256);
    vstd::arithmetic::div_mod::lemma_div_denominator(v as int, 65536, 256);
    assert(be_bytes(v, 0) =~= Seq::<u8>::empty());
    assert(be_bytes(v / 256, 0) =~= Seq::<u8>::empty());
    assert(be_bytes(v / 65536, 0) =~= Seq::<u8>::empty());
    assert(be_bytes(v / 16777216, 0) =~= Seq::<u8>::empty());
    assert(be_bytes(v / 256 / 256, 0) =~= Seq::<u8>::empty());
    assert(be_bytes(v / 65536 / 256, 0) =~= Seq::<u8>::empty());
    assert(be_bytes(v / 16777216 / 256, 0) =~= Seq::<u8>::empty());
    assert(be_bytes(v, 1) =~= seq![(v % 256) as u8]);
    assert(be_bytes(v / 256, 1) =~= seq![(v / 256 % 256) as u8]);
    assert(be_bytes(v / 65536, 1) =~= seq![(v / 65536 % 256) as u8]);
    assert(be_bytes(v / 16777216, 1) =~= seq![(v / 16777216 % 256) as u8]);
    assert(v / 256 / 256 == v / 65536);
    assert(v / 65536 / 256 == v / 16777216);
    assert(be_bytes(v, 2) =~= seq![(v / 256 % 256) as u8, (v % 256) as u8]);
    assert(be_bytes(v / 256, 2) =~= seq![(v / 65536 % 256) as u8, (v / 256 % 256) as u8]);
    assert(be_bytes(v / 65536, 2) =~= seq![
        (v / 16777216 % 256) as u8,
        (v / 65536 % 256) as u8,
    ]);
    assert(be_bytes(v, 3) =~= seq![(v / 65536 % 256) as u8, (v / 256 % 256) as u8, (v % 256) as u8]);
    assert(be_bytes(v / 256, 3) =~= seq![
        (v / 16777216 % 256) as u8,
        (v / 65536 % 256) as u8,
        (v / 256 % 256) as u8,
    ]);
}

} // verus!

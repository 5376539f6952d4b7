//! A byte stream as the decoders see it.

use vstd::prelude::*;

use crate::types::IoFailure;

pub mod laws;

verus! {

/// The bytes that a reader delivers, and how the reader ends.
///
/// A reader yields bytes until it is at its end, or until it fails with an error of type
/// `E`. Bytes are taken from the front, one at a time, several at a time, or by looking at
/// a window of what comes next.
#[derive(Debug)]
pub struct ByteSource<E> {
    /// Every byte that the reader delivers.
    pub data: Vec<u8>,
    /// How many of them have been taken.
    pub pos: usize,
    /// The number of bytes that `fill_buf` shows at most.
    pub window: usize,
    /// The error with which the reader fails once all of `data` has been taken.
    pub fault: Option<E>,
}

/// The number of bytes that a source shows at a time unless it is told otherwise.
pub const DEFAULT_WINDOW: usize = 8192;

/// The value of two bytes, the more significant one first.
pub open spec fn be16(s: Seq<u8>, i: int) -> u16 {
    (s[i] * 256 + s[i + 1]) as u16
}

/// The value of four bytes, the most significant one first.
pub open spec fn be32(s: Seq<u8>, i: int) -> u32 {
    (s[i] * 0x100_0000 + s[i + 1] * 0x1_0000 + s[i + 2] * 0x100 + s[i + 3]) as u32
}

/// The value of two bytes, the more significant one first.
pub fn be16_value(hi: u8, lo: u8) -> (r: u16)
    ensures
        r == hi * 256 + lo,
{
    hi as u16 * 256 + lo as u16
}

/// The value of four bytes, the most significant one first.
pub fn be32_value(b0: u8, b1: u8, b2: u8, b3: u8) -> (r: u32)
    ensures
        r == b0 * 0x100_0000 + b1 * 0x1_0000 + b2 * 0x100 + b3,
{
    b0 as u32 * 0x100_0000 + b1 as u32 * 0x1_0000 + b2 as u32 * 0x100 + b3 as u32
}

impl<E> ByteSource<E> {
    /// What holds of every source. The bound on the length is that of any vector.
    pub open spec fn wf(self) -> bool {
        &&& self.pos <= self.data@.len() <= isize::MAX
        &&& self.window > 0
    }

    /// The bytes that have not been taken yet.
    pub open spec fn rest(self) -> Seq<u8> {
        self.data@.skip(self.pos as int)
    }

    /// The failure that is reported where the source ends too early.
    pub open spec fn end_failure(self) -> IoFailure<E> {
        match self.fault {
            Some(e) => IoFailure::Reader(e),
            None => IoFailure::UnexpectedEof,
        }
    }

    /// This source once `n` more bytes have been taken from it.
    pub open spec fn advanced(self, n: int) -> ByteSource<E> {
        ByteSource { pos: (self.pos + n) as usize, ..self }
    }

    /// This source once its end has been reached and its failure reported.
    pub open spec fn exhausted(self) -> ByteSource<E> {
        ByteSource { pos: self.data.len(), fault: None, ..self }
    }

    /// The source for a reader that delivers `data` and then fails with `fault`, or is at
    /// its end if `fault` is `None`.
    pub fn new(data: Vec<u8>, fault: Option<E>) -> (r: ByteSource<E>)
        requires
            data@.len() <= isize::MAX,
        ensures
            r.wf(),
            r == (ByteSource { data, pos: 0, window: DEFAULT_WINDOW, fault }),
            r.rest() == data@,
    {
        let r = ByteSource { data, pos: 0, window: DEFAULT_WINDOW, fault };
        assert(r.rest() =~= data@);
        r
    }

    /// This source, showing at most `window` bytes at a time.
    pub fn with_window(self, window: usize) -> (r: ByteSource<E>)
        requires
            self.wf(),
            window > 0,
        ensures
            r.wf(),
            r == (ByteSource { window, ..self }),
            r.rest() == self.rest(),
    {
        ByteSource { data: self.data, pos: self.pos, window, fault: self.fault }
    }

    /// Takes one byte, unless there is none left.
    pub fn next(&mut self) -> (r: Option<u8>)
        requires
            old(self).wf(),
        ensures
            final(self).wf(),
            old(self).rest().len() > 0 ==> r == Some(old(self).rest()[0]) && *final(self)
                == old(self).advanced(1),
            old(self).rest().len() == 0 ==> r is None && *final(self) == *old(self),
    {
        if self.pos < self.data.len() {
            let b = self.data[self.pos];
            self.pos = self.pos + 1;
            Some(b)
        } else {
            None
        }
    }

    /// Reports that more was asked for than is left.
    fn fail(&mut self) -> (r: IoFailure<E>)
        requires
            old(self).wf(),
        ensures
            final(self).wf(),
            r == old(self).end_failure(),
            *final(self) == old(self).exhausted(),
    {
        self.pos = self.data.len();
        match self.fault.take() {
            Some(e) => IoFailure::Reader(e),
            None => IoFailure::UnexpectedEof,
        }
    }

    /// Takes exactly `n` bytes.
    pub fn read_exact(&mut self, n: usize) -> (r: Result<Vec<u8>, IoFailure<E>>)
        requires
            old(self).wf(),
        ensures
            final(self).wf(),
            n <= old(self).rest().len() ==> {
                &&& r matches Ok(v) && v@ == old(self).rest().take(n as int)
                &&& *final(self) == old(self).advanced(n as int)
            },
            n > old(self).rest().len() ==> {
                &&& r == Err::<Vec<u8>, IoFailure<E>>(old(self).end_failure())
                &&& *final(self) == old(self).exhausted()
            },
    {
        if n <= self.data.len() - self.pos {
            let start = self.pos;
            self.pos = start + n;
            let bytes = vstd::slice::slice_to_vec(
                vstd::slice::slice_subrange(self.data.as_slice(), start, start + n),
            );
            assert(bytes@ =~= old(self).rest().take(n as int));
            Ok(bytes)
        } else {
            Err(self.fail())
        }
    }

    /// Takes one byte, or fails.
    pub fn read_u8(&mut self) -> (r: Result<u8, IoFailure<E>>)
        requires
            old(self).wf(),
        ensures
            final(self).wf(),
            1 <= old(self).rest().len() ==> {
                &&& r == Ok::<u8, IoFailure<E>>(old(self).rest()[0])
                &&& *final(self) == old(self).advanced(1)
            },
            1 > old(self).rest().len() ==> {
                &&& r == Err::<u8, IoFailure<E>>(old(self).end_failure())
                &&& *final(self) == old(self).exhausted()
            },
    {
        if 1 <= self.data.len() - self.pos {
            let b = self.data[self.pos];
            self.pos = self.pos + 1;
            Ok(b)
        } else {
            Err(self.fail())
        }
    }

    /// Takes two bytes as an integer, the more significant one first, or fails.
    pub fn read_be16(&mut self) -> (r: Result<u16, IoFailure<E>>)
        requires
            old(self).wf(),
        ensures
            final(self).wf(),
            2 <= old(self).rest().len() ==> {
                &&& r == Ok::<u16, IoFailure<E>>(be16(old(self).rest(), 0))
                &&& *final(self) == old(self).advanced(2)
            },
            2 > old(self).rest().len() ==> {
                &&& r == Err::<u16, IoFailure<E>>(old(self).end_failure())
                &&& *final(self) == old(self).exhausted()
            },
    {
        if 2 <= self.data.len() - self.pos {
            let v = be16_value(self.data[self.pos], self.data[self.pos + 1]);
            self.pos = self.pos + 2;
            Ok(v)
        } else {
            Err(self.fail())
        }
    }

    /// Takes four bytes as an integer, the most significant one first, or fails.
    pub fn read_be32(&mut self) -> (r: Result<u32, IoFailure<E>>)
        requires
            old(self).wf(),
        ensures
            final(self).wf(),
            4 <= old(self).rest().len() ==> {
                &&& r == Ok::<u32, IoFailure<E>>(be32(old(self).rest(), 0))
                &&& *final(self) == old(self).advanced(4)
            },
            4 > old(self).rest().len() ==> {
                &&& r == Err::<u32, IoFailure<E>>(old(self).end_failure())
                &&& *final(self) == old(self).exhausted()
            },
    {
        if 4 <= self.data.len() - self.pos {
            let p = self.pos;
            let v = be32_value(self.data[p], self.data[p + 1], self.data[p + 2], self.data[p + 3]);
            self.pos = p + 4;
            Ok(v)
        } else {
            Err(self.fail())
        }
    }

    /// The number of bytes that `fill_buf` shows next.
    pub open spec fn window_len(self) -> nat {
        if self.rest().len() <= self.window {
            self.rest().len()
        } else {
            self.window as nat
        }
    }

    /// Shows what comes next without taking it: the bytes of `data` from `pos` on, as many
    /// as the result says. It is 0 only at the end.
    pub fn fill_buf(&mut self) -> (r: Result<usize, IoFailure<E>>)
        requires
            old(self).wf(),
        ensures
            final(self).wf(),
            old(self).rest().len() > 0 || old(self).fault is None ==> {
                &&& r matches Ok(n) && n == old(self).window_len()
                &&& *final(self) == *old(self)
            },
            old(self).rest().len() == 0 && old(self).fault is Some ==> {
                &&& r == Err::<usize, IoFailure<E>>(old(self).end_failure())
                &&& *final(self) == old(self).exhausted()
            },
    {
        let left = self.data.len() - self.pos;
        if left == 0 && self.fault.is_some() {
            return Err(self.fail());
        }
        Ok(if left <= self.window {
            left
        } else {
            self.window
        })
    }

    /// Takes as many bytes as come at once, at most as many as `buf` has room for, into the
    /// front of `buf`, and returns how many those are. At the end it returns 0, or fails.
    pub fn read(&mut self, buf: &mut [u8]) -> (r: Result<usize, IoFailure<E>>)
        requires
            old(self).wf(),
        ensures
            final(self).wf(),
            final(buf)@.len() == old(buf)@.len(),
            old(self).rest().len() > 0 ==> {
                let n = if old(self).window_len() <= old(buf)@.len() {
                    old(self).window_len() as int
                } else {
                    old(buf)@.len() as int
                };
                &&& r == Ok::<usize, IoFailure<E>>(n as usize)
                &&& *final(self) == old(self).advanced(n)
                &&& final(buf)@.take(n) == old(self).rest().take(n)
                &&& final(buf)@.skip(n) == old(buf)@.skip(n)
            },
            old(self).rest().len() == 0 ==> {
                &&& final(buf)@ == old(buf)@
                &&& old(self).fault is None ==> r == Ok::<usize, IoFailure<E>>(0) && *final(self)
                    == *old(self)
                &&& old(self).fault is Some ==> r == Err::<usize, IoFailure<E>>(
                    old(self).end_failure(),
                ) && *final(self) == old(self).exhausted()
            },
    {
        let shown = self.fill_buf()?;
        let n = if shown <= buf.len() {
            shown
        } else {
            buf.len()
        };
        let mut i: usize = 0;
        while i < n
            invariant
                i <= n <= buf@.len(),
                self.wf(),
                n <= self.rest().len(),
                buf@.len() == old(buf)@.len(),
                forall|j: int| 0 <= j < i ==> #[trigger] buf@[j] == self.rest()[j],
                forall|j: int| i <= j < buf@.len() ==> #[trigger] buf@[j] == old(buf)@[j],
            decreases n - i,
        {
            buf[i] = self.data[self.pos + i];
            i += 1;
        }
        assert(buf@.take(n as int) =~= self.rest().take(n as int));
        assert(buf@.skip(n as int) =~= old(buf)@.skip(n as int));
        assert(n == 0 ==> buf@ =~= old(buf)@);
        self.consume(n);
        Ok(n)
    }

    /// Takes `n` bytes that `fill_buf` has shown.
    pub fn consume(&mut self, n: usize)
        requires
            old(self).wf(),
            n <= old(self).rest().len(),
        ensures
            final(self).wf(),
            *final(self) == old(self).advanced(n as int),
    {
        self.pos = self.pos + n;
    }
}

} // verus!

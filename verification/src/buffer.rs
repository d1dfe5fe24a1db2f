//! A cursor over a fixed 512-byte packet buffer.
//!
//! Every read and write checks the 512-byte bound and fails with
//! `DnsError::EndOfBuffer` past it, as the wire codec requires.

use vstd::prelude::*;
use crate::DnsError;

verus! {

/// The number of bytes in a DNS datagram buffer.
pub const PACKET_SIZE: usize = 512;

/// A fixed 512-byte buffer with a cursor position in `[0, 512]`.
pub struct BytePacketBuffer {
    buf: Vec<u8>,
    pos: usize,
}

impl BytePacketBuffer {
    /// The buffer is 512 bytes long with the cursor inside it.
    pub closed spec fn wf(self) -> bool {
        self.buf@.len() == 512 && self.pos <= 512
    }

    /// The bytes held, always 512 of them.
    pub closed spec fn data(self) -> Seq<u8> {
        self.buf@
    }

    /// The cursor position.
    pub closed spec fn position(self) -> int {
        self.pos as int
    }

    /// A well-formed buffer holds 512 bytes and its cursor within them.
    pub proof fn lemma_wf(self)
        requires
            self.wf(),
        ensures
            self.data().len() == 512,
            0 <= self.position() <= 512,
    {
    }

    /// A fresh zeroed buffer with the cursor at the start.
    pub fn new() -> (r: BytePacketBuffer)
        ensures
            r.wf(),
            r.data() == Seq::new(512, |i: int| 0u8),
            r.position() == 0,
    {
        let mut buf: Vec<u8> = Vec::new();
        let mut i: usize = 0;
        while i < 512
            invariant
                i <= 512,
                buf@ =~= Seq::new(i as nat, |j: int| 0u8),
            decreases 512 - i,
        {
            buf.push(0u8);
            i = i + 1;
        }
        proof {
            assert(buf@ =~= Seq::new(512, |i: int| 0u8));
        }
        BytePacketBuffer { buf, pos: 0 }
    }

    /// A buffer holding the given datagram followed by zeroes.
    pub fn from_slice(data: &[u8]) -> (r: BytePacketBuffer)
        requires
            data@.len() <= 512,
        ensures
            r.wf(),
            r.data() == data@ + Seq::new((512 - data@.len()) as nat, |i: int| 0u8),
            r.position() == 0,
    {
        let mut buf: Vec<u8> = Vec::new();
        let n = data.len();
        let mut i: usize = 0;
        while i < n
            invariant
                i <= n,
                n == data@.len() <= 512,
                buf@ =~= data@.subrange(0, i as int),
            decreases n - i,
        {
            buf.push(data[i]);
            i = i + 1;
        }
        while i < 512
            invariant
                data@.len() <= i <= 512,
                buf@ =~= data@ + Seq::new((i - data@.len()) as nat, |j: int| 0u8),
            decreases 512 - i,
        {
            buf.push(0u8);
            i = i + 1;
        }
        proof {
            assert(buf@ =~= data@ + Seq::new((512 - data@.len()) as nat, |i: int| 0u8));
        }
        BytePacketBuffer { buf, pos: 0 }
    }

    /// The cursor position.
    pub fn pos(&self) -> (r: usize)
        requires
            self.wf(),
        ensures
            r == self.position(),
            0 <= self.position() <= 512,
            self.data().len() == 512,
    {
        self.pos
    }

    /// Advance the cursor by `steps` bytes.
    pub fn step(&mut self, steps: usize) -> (r: Result<(), DnsError>)
        requires
            old(self).wf(),
        ensures
            final(self).wf(),
            final(self).data() == old(self).data(),
            old(self).position() + steps <= 512 ==> r == Ok::<(), DnsError>(())
                && final(self).position() == old(self).position() + steps,
            old(self).position() + steps > 512 ==> r == Err::<(), DnsError>(DnsError::EndOfBuffer)
                && final(self).position() == old(self).position(),
    {
        if steps <= 512 - self.pos {
            self.pos = self.pos + steps;
            Ok(())
        } else {
            Err(DnsError::EndOfBuffer)
        }
    }

    /// Move the cursor to `pos`.
    pub fn seek(&mut self, pos: usize) -> (r: Result<(), DnsError>)
        requires
            old(self).wf(),
        ensures
            final(self).wf(),
            final(self).data() == old(self).data(),
            pos <= 512 ==> r == Ok::<(), DnsError>(()) && final(self).position() == pos,
            pos > 512 ==> r == Err::<(), DnsError>(DnsError::EndOfBuffer)
                && final(self).position() == old(self).position(),
    {
        if pos <= 512 {
            self.pos = pos;
            Ok(())
        } else {
            Err(DnsError::EndOfBuffer)
        }
    }

    /// Read one byte at the cursor and advance past it.
    pub fn read_u8(&mut self) -> (r: Result<u8, DnsError>)
        requires
            old(self).wf(),
        ensures
            final(self).wf(),
            final(self).data() == old(self).data(),
            old(self).position() < 512 ==> r == Ok::<u8, DnsError>(
                old(self).data()[old(self).position()],
            ) && final(self).position() == old(self).position() + 1,
            old(self).position() >= 512 ==> r == Err::<u8, DnsError>(DnsError::EndOfBuffer)
                && final(self).position() == old(self).position(),
    {
        if self.pos < 512 {
            let b = self.buf[self.pos];
            self.pos = self.pos + 1;
            Ok(b)
        } else {
            Err(DnsError::EndOfBuffer)
        }
    }

    /// Read a big-endian `u16` at the cursor and advance past it.
    pub fn read_u16(&mut self) -> (r: Result<u16, DnsError>)
        requires
            old(self).wf(),
        ensures
            final(self).wf(),
            final(self).data() == old(self).data(),
            old(self).position() + 2 <= 512 ==> r == Ok::<u16, DnsError>(
                u16_be(old(self).data(), old(self).position()),
            ) && final(self).position() == old(self).position() + 2,
            old(self).position() + 2 > 512 ==> r == Err::<u16, DnsError>(DnsError::EndOfBuffer)
                && final(self).position() == old(self).position(),
    {
        if self.pos + 2 <= 512 {
            let hi = self.buf[self.pos];
            let lo = self.buf[self.pos + 1];
            self.pos = self.pos + 2;
            Ok((hi as u16) * 256 + (lo as u16))
        } else {
            Err(DnsError::EndOfBuffer)
        }
    }

    /// Read a big-endian `u32` at the cursor and advance past it.
    pub fn read_u32(&mut self) -> (r: Result<u32, DnsError>)
        requires
            old(self).wf(),
        ensures
            final(self).wf(),
            final(self).data() == old(self).data(),
            old(self).position() + 4 <= 512 ==> r == Ok::<u32, DnsError>(
                u32_be(old(self).data(), old(self).position()),
            ) && final(self).position() == old(self).position() + 4,
            old(self).position() + 4 > 512 ==> r == Err::<u32, DnsError>(DnsError::EndOfBuffer)
                && final(self).position() == old(self).position(),
    {
        if self.pos + 4 <= 512 {
            let b0 = self.buf[self.pos];
            let b1 = self.buf[self.pos + 1];
            let b2 = self.buf[self.pos + 2];
            let b3 = self.buf[self.pos + 3];
            self.pos = self.pos + 4;
            Ok(
                (b0 as u32) * 0x1000000 + (b1 as u32) * 0x10000 + (b2 as u32) * 0x100
                    + (b3 as u32),
            )
        } else {
            Err(DnsError::EndOfBuffer)
        }
    }

    /// Read the byte at `pos` without moving the cursor.
    pub fn get(&self, pos: usize) -> (r: Result<u8, DnsError>)
        requires
            self.wf(),
        ensures
            pos < 512 ==> r == Ok::<u8, DnsError>(self.data()[pos as int]),
            pos >= 512 ==> r == Err::<u8, DnsError>(DnsError::EndOfBuffer),
    {
        if pos < 512 {
            Ok(self.buf[pos])
        } else {
            Err(DnsError::EndOfBuffer)
        }
    }

    /// Copy `len` bytes starting at `start` without moving the cursor.
    pub fn get_range(&self, start: usize, len: usize) -> (r: Result<Vec<u8>, DnsError>)
        requires
            self.wf(),
        ensures
            start + len <= 512 ==> r is Ok && r->Ok_0@ == self.data().subrange(
                start as int,
                start + len,
            ),
            start + len > 512 ==> r == Err::<Vec<u8>, DnsError>(DnsError::EndOfBuffer),
    {
        if len <= 512 && start <= 512 - len {
            let mut out: Vec<u8> = Vec::new();
            let mut i: usize = 0;
            while i < len
                invariant
                    i <= len,
                    start + len <= 512,
                    self.data().len() == 512,
                    out@ =~= self.data().subrange(start as int, start + i),
                decreases len - i,
            {
                out.push(self.buf[start + i]);
                i = i + 1;
            }
            proof {
                assert(out@ =~= self.data().subrange(start as int, start + len));
            }
            Ok(out)
        } else {
            Err(DnsError::EndOfBuffer)
        }
    }

    /// Overwrite the byte at `pos` without moving the cursor.
    pub fn set_u8(&mut self, pos: usize, val: u8) -> (r: Result<(), DnsError>)
        requires
            old(self).wf(),
        ensures
            final(self).wf(),
            final(self).position() == old(self).position(),
            pos < 512 ==> r == Ok::<(), DnsError>(()) && final(self).data() == old(
                self,
            ).data().update(pos as int, val),
            pos >= 512 ==> r == Err::<(), DnsError>(DnsError::EndOfBuffer) && final(self).data()
                == old(self).data(),
    {
        if pos < 512 {
            self.buf.set(pos, val);
            Ok(())
        } else {
            Err(DnsError::EndOfBuffer)
        }
    }

    /// Overwrite a big-endian `u16` at `pos` without moving the cursor.
    pub fn set_u16(&mut self, pos: usize, val: u16) -> (r: Result<(), DnsError>)
        requires
            old(self).wf(),
        ensures
            final(self).wf(),
            final(self).position() == old(self).position(),
            pos + 2 <= 512 ==> r == Ok::<(), DnsError>(()) && final(self).data() == old(
                self,
            ).data().update(pos as int, (val / 256) as u8).update(pos + 1, (val % 256) as u8),
            pos + 2 > 512 ==> r == Err::<(), DnsError>(DnsError::EndOfBuffer) && final(self).data()
                == old(self).data(),
    {
        if pos <= 510 {
            self.buf.set(pos, (val / 256) as u8);
            self.buf.set(pos + 1, (val % 256) as u8);
            Ok(())
        } else {
            Err(DnsError::EndOfBuffer)
        }
    }

    /// Write one byte at the cursor and advance past it.
    pub fn write_u8(&mut self, val: u8) -> (r: Result<(), DnsError>)
        requires
            old(self).wf(),
        ensures
            final(self).wf(),
            old(self).position() < 512 ==> r == Ok::<(), DnsError>(()) && final(self).data()
                == old(self).data().update(old(self).position(), val) && final(self).position()
                == old(self).position() + 1,
            old(self).position() >= 512 ==> r == Err::<(), DnsError>(DnsError::EndOfBuffer)
                && *final(self) == *old(self),
    {
        if self.pos < 512 {
            self.buf.set(self.pos, val);
            self.pos = self.pos + 1;
            Ok(())
        } else {
            Err(DnsError::EndOfBuffer)
        }
    }

    /// Write a big-endian `u16` at the cursor and advance past it.
    pub fn write_u16(&mut self, val: u16) -> (r: Result<(), DnsError>)
        requires
            old(self).wf(),
        ensures
            final(self).wf(),
            old(self).position() + 2 <= 512 ==> r == Ok::<(), DnsError>(()) && final(self).data()
                == old(self).data().update(old(self).position(), (val / 256) as u8).update(
                old(self).position() + 1,
                (val % 256) as u8,
            ) && final(self).position() == old(self).position() + 2,
            old(self).position() + 2 > 512 ==> r == Err::<(), DnsError>(DnsError::EndOfBuffer)
                && *final(self) == *old(self),
    {
        if self.pos + 2 <= 512 {
            self.buf.set(self.pos, (val / 256) as u8);
            self.buf.set(self.pos + 1, (val % 256) as u8);
            self.pos = self.pos + 2;
            Ok(())
        } else {
            Err(DnsError::EndOfBuffer)
        }
    }

    /// Write a big-endian `u32` at the cursor and advance past it.
    pub fn write_u32(&mut self, val: u32) -> (r: Result<(), DnsError>)
        requires
            old(self).wf(),
        ensures
            final(self).wf(),
            old(self).position() + 4 <= 512 ==> r == Ok::<(), DnsError>(()) && final(self).data()
                == old(self).data().update(old(self).position(), (val / 0x1000000) as u8).update(
                old(self).position() + 1,
                ((val / 0x10000) % 256) as u8,
            ).update(old(self).position() + 2, ((val / 0x100) % 256) as u8).update(
                old(self).position() + 3,
                (val % 256) as u8,
            ) && final(self).position() == old(self).position() + 4,
            old(self).position() + 4 > 512 ==> r == Err::<(), DnsError>(DnsError::EndOfBuffer)
                && *final(self) == *old(self),
    {
        if self.pos + 4 <= 512 {
            self.buf.set(self.pos, (val / 0x1000000) as u8);
            self.buf.set(self.pos + 1, ((val / 0x10000) % 256) as u8);
            self.buf.set(self.pos + 2, ((val / 0x100) % 256) as u8);
            self.buf.set(self.pos + 3, (val % 256) as u8);
            self.pos = self.pos + 4;
            Ok(())
        } else {
            Err(DnsError::EndOfBuffer)
        }
    }
}

/// The `u16` held big-endian at `pos` of `b`.
pub open spec fn u16_be(b: Seq<u8>, pos: int) -> u16 {
    (b[pos] * 256 + b[pos + 1]) as u16
}

/// The `u32` held big-endian at `pos` of `b`.
pub open spec fn u32_be(b: Seq<u8>, pos: int) -> u32 {
    (b[pos] * 0x1000000 + b[pos + 1] * 0x10000 + b[pos + 2] * 0x100 + b[pos + 3]) as u32
}

} // verus!

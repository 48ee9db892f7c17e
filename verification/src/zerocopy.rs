//! A bounded ring buffer for relay staging: bytes written at the tail,
//! read or peeked at the head, one slot kept free to tell full from empty.

use vstd::prelude::*;

verus! {

/// A fixed-capacity byte ring; it holds at most capacity minus one bytes.
pub struct RingBuffer {
    pub buffer: Vec<u8>,
    pub read_pos: usize,
    pub write_pos: usize,
    pub capacity: usize,
}

impl RingBuffer {
    /// A sound ring: positions inside a buffer of the stated capacity.
    pub open spec fn wf(&self) -> bool {
        &&& self.capacity == self.buffer@.len()
        &&& self.capacity > 0
        &&& self.read_pos < self.capacity
        &&& self.write_pos < self.capacity
    }

    /// The bytes waiting to be read, oldest first.
    pub open spec fn spec_contents(&self) -> Seq<u8> {
        if self.write_pos >= self.read_pos {
            self.buffer@.subrange(self.read_pos as int, self.write_pos as int)
        } else {
            self.buffer@.subrange(self.read_pos as int, self.capacity as int)
                + self.buffer@.subrange(0, self.write_pos as int)
        }
    }

    /// How many bytes wait to be read.
    pub open spec fn spec_available_read(&self) -> int {
        if self.write_pos >= self.read_pos {
            self.write_pos - self.read_pos
        } else {
            self.capacity - self.read_pos + self.write_pos
        }
    }

    /// An empty ring of the given capacity.
    pub fn new(capacity: usize) -> (r: Self)
        requires
            capacity > 0,
        ensures
            r.wf(),
            r.spec_available_read() == 0,
            r.capacity == capacity,
    {
        let mut buffer: Vec<u8> = Vec::new();
        let mut i: usize = 0;
        while i < capacity
            invariant
                buffer@.len() == i,
                i <= capacity,
            decreases capacity - i,
        {
            buffer.push(0);
            i = i + 1;
        }
        RingBuffer { buffer, read_pos: 0, write_pos: 0, capacity }
    }

    /// How many bytes wait to be read.
    pub fn available_read(&self) -> (r: usize)
        requires
            self.wf(),
        ensures
            r == self.spec_available_read(),
    {
        if self.write_pos >= self.read_pos {
            self.write_pos - self.read_pos
        } else {
            self.capacity - self.read_pos + self.write_pos
        }
    }

    /// How many bytes may still be written.
    pub fn available_write(&self) -> (r: usize)
        requires
            self.wf(),
        ensures
            r == self.capacity - 1 - self.spec_available_read(),
    {
        self.capacity - self.available_read() - 1
    }

    /// Writes as much of the data as fits, appending it to the waiting
    /// bytes, and says how much that was.
    pub fn write(&mut self, data: &[u8]) -> (n: usize)
        requires
            old(self).wf(),
        ensures
            final(self).wf(),
            n == (if data@.len() <= old(self).capacity - 1 - old(self).spec_available_read() {
                data@.len() as int
            } else {
                old(self).capacity - 1 - old(self).spec_available_read()
            }),
            final(self).spec_contents() == old(self).spec_contents() + data@.take(n as int),
            final(self).spec_available_read() == old(self).spec_available_read() + n,
            final(self).capacity == old(self).capacity,
            final(self).read_pos == old(self).read_pos,
    {
        let available = self.available_write();
        let to_write = if data.len() < available {
            data.len()
        } else {
            available
        };
        let mut i: usize = 0;
        proof {
            assert(data@.take(0) =~= Seq::<u8>::empty());
            assert(self.spec_contents() =~= old(self).spec_contents() + data@.take(0));
        }
        while i < to_write
            invariant
                old(self).wf(),
                self.wf(),
                i <= to_write,
                to_write < self.capacity,
                self.capacity == old(self).capacity,
                self.read_pos == old(self).read_pos,
                to_write <= data@.len(),
                to_write - i <= self.capacity - 1 - self.spec_available_read(),
                self.spec_available_read() == old(self).spec_available_read() + i,
                self.spec_contents() == old(self).spec_contents() + data@.take(i as int),
            decreases to_write - i,
        {
            let ghost pre = *self;
            self.buffer.set(self.write_pos, data[i]);
            self.write_pos = if self.write_pos + 1 == self.capacity {
                0
            } else {
                self.write_pos + 1
            };
            proof {
                assert(self.spec_contents() =~= pre.spec_contents().push(data@[i as int]));
                assert(old(self).spec_contents() + data@.take(i as int + 1) =~= (
                old(self).spec_contents() + data@.take(i as int)).push(data@[i as int]));
            }
            i = i + 1;
        }
        to_write
    }

    /// Reads up to the buffer's length: the oldest waiting bytes land at
    /// the buffer's front, are consumed, and their count is returned.
    pub fn read(&mut self, buf: &mut Vec<u8>) -> (n: usize)
        requires
            old(self).wf(),
        ensures
            final(self).wf(),
            n == (if old(buf)@.len() <= old(self).spec_available_read() {
                old(buf)@.len() as int
            } else {
                old(self).spec_available_read()
            }),
            final(buf)@ == old(self).spec_contents().take(n as int) + old(buf)@.skip(n as int),
            final(self).spec_contents() == old(self).spec_contents().skip(n as int),
            final(self).spec_available_read() == old(self).spec_available_read() - n,
            final(self).capacity == old(self).capacity,
            final(buf)@.len() == old(buf)@.len(),
    {
        let available = self.available_read();
        let to_read = if buf.len() < available {
            buf.len()
        } else {
            available
        };
        let mut i: usize = 0;
        proof {
            assert(old(self).spec_contents().skip(0) =~= old(self).spec_contents());
            assert(old(self).spec_contents().take(0) + old(buf)@.skip(0) =~= old(buf)@);
        }
        while i < to_read
            invariant
                old(self).wf(),
                self.wf(),
                i <= to_read,
                buf@.len() == old(buf)@.len(),
                to_read <= buf@.len(),
                self.capacity == old(self).capacity,
                to_read - i <= self.spec_available_read(),
                to_read <= old(self).spec_available_read(),
                self.spec_available_read() == old(self).spec_available_read() - i,
                self.spec_contents() == old(self).spec_contents().skip(i as int),
                buf@ == old(self).spec_contents().take(i as int) + old(buf)@.skip(i as int),
            decreases to_read - i,
        {
            let ghost pre = *self;
            let ghost prebuf = buf@;
            let b = self.buffer[self.read_pos];
            buf.set(i, b);
            self.read_pos = if self.read_pos + 1 == self.capacity {
                0
            } else {
                self.read_pos + 1
            };
            proof {
                assert(old(self).spec_contents().len() == old(self).spec_available_read());
                assert(pre.spec_contents().len() == pre.spec_available_read());
                assert(pre.spec_contents().len() >= 1);
                assert(b == pre.spec_contents()[0]);
                assert(self.spec_contents() =~= pre.spec_contents().drop_first());
                assert(old(self).spec_contents().skip(i as int).drop_first() =~= old(
                    self,
                ).spec_contents().skip(i as int + 1));
                assert(pre.spec_contents()[0] == old(self).spec_contents().skip(i as int)[0]);
                assert(pre.spec_contents()[0] == old(self).spec_contents()[i as int]);
                assert(buf@ =~= old(self).spec_contents().take(i as int + 1) + old(buf)@.skip(
                    i as int + 1,
                ));
            }
            i = i + 1;
        }
        to_read
    }

    /// Copies the oldest waiting bytes into the buffer's front without
    /// consuming them.
    pub fn peek(&self, buf: &mut Vec<u8>) -> (n: usize)
        requires
            self.wf(),
        ensures
            n == (if old(buf)@.len() <= self.spec_available_read() {
                old(buf)@.len() as int
            } else {
                self.spec_available_read()
            }),
            final(buf)@ == self.spec_contents().take(n as int) + old(buf)@.skip(n as int),
            final(buf)@.len() == old(buf)@.len(),
    {
        let available = self.available_read();
        let to_peek = if buf.len() < available {
            buf.len()
        } else {
            available
        };
        let mut pos = self.read_pos;
        let mut i: usize = 0;
        proof {
            assert(self.spec_contents().take(0) + old(buf)@.skip(0) =~= old(buf)@);
        }
        while i < to_peek
            invariant
                self.wf(),
                i <= to_peek,
                buf@.len() == old(buf)@.len(),
                to_peek <= buf@.len(),
                to_peek <= self.spec_available_read(),
                pos < self.capacity,
                pos as int == (if self.read_pos + i < self.capacity {
                    self.read_pos + i
                } else {
                    self.read_pos + i - self.capacity
                }),
                buf@ == self.spec_contents().take(i as int) + old(buf)@.skip(i as int),
            decreases to_peek - i,
        {
            let b = self.buffer[pos];
            proof {
                assert(b == self.spec_contents()[i as int]);
            }
            buf.set(i, b);
            pos = if pos + 1 == self.capacity {
                0
            } else {
                pos + 1
            };
            proof {
                assert(buf@ =~= self.spec_contents().take(i as int + 1) + old(buf)@.skip(
                    i as int + 1,
                ));
            }
            i = i + 1;
        }
        to_peek
    }

    /// Forgets everything buffered.
    pub fn clear(&mut self)
        requires
            old(self).wf(),
        ensures
            final(self).wf(),
            final(self).spec_contents() == Seq::<u8>::empty(),
            final(self).spec_available_read() == 0,
            final(self).capacity == old(self).capacity,
    {
        self.read_pos = 0;
        self.write_pos = 0;
    }

    /// Whether nothing waits to be read.
    pub fn is_empty(&self) -> (r: bool)
        requires
            self.wf(),
        ensures
            r == (self.spec_available_read() == 0),
    {
        self.available_read() == 0
    }

    /// Whether nothing more fits.
    pub fn is_full(&self) -> (r: bool)
        requires
            self.wf(),
        ensures
            r == (self.spec_available_read() == self.capacity - 1),
    {
        self.available_write() == 0
    }
}

} // verus!

//! Byte streams for the virtual machine: a readable source over a byte
//! buffer and a writable sink with a cursor position, so a sink can be
//! handed a prefilled buffer and overwrite it before growing it.

use vstd::prelude::*;

verus! {

/// A failure of a byte stream operation.
#[derive(Debug, PartialEq, Eq, Structural, Copy, Clone)]
pub enum StreamError {
    /// A read was requested but the source has no bytes left.
    EndOfStream,
}

/// A readable byte source: a buffer and the position of the next byte
/// to hand out.
pub struct InputStream {
    data: Vec<u8>,
    pos: usize,
}

impl InputStream {
    /// The bytes of the source.
    pub closed spec fn contents(&self) -> Seq<u8> {
        self.data@
    }

    /// The position of the next byte to hand out.
    pub closed spec fn position(&self) -> int {
        self.pos as int
    }

    /// The position never runs past the buffer.
    pub open spec fn wf(&self) -> bool {
        0 <= self.position() <= self.contents().len()
    }

    /// A source that hands out the given bytes from the start.
    pub fn new(data: Vec<u8>) -> (s: InputStream)
        ensures
            s.contents() == data@,
            s.position() == 0,
            s.wf(),
    {
        InputStream { data, pos: 0 }
    }

    /// Hand out the next byte and advance, or fail once the buffer is
    /// exhausted.
    pub fn read_byte(&mut self) -> (r: Result<u8, StreamError>)
        requires
            old(self).wf(),
        ensures
            final(self).wf(),
            final(self).contents() == old(self).contents(),
            old(self).position() < old(self).contents().len() ==> r == Ok::<u8, StreamError>(
                old(self).contents()[old(self).position()],
            ) && final(self).position() == old(self).position() + 1,
            old(self).position() >= old(self).contents().len() ==> r == Err::<u8, StreamError>(
                StreamError::EndOfStream,
            ) && final(self).position() == old(self).position(),
    {
        if self.pos < self.data.len() {
            let b = self.data[self.pos];
            self.pos = self.pos + 1;
            Ok(b)
        } else {
            Err(StreamError::EndOfStream)
        }
    }

    /// How many bytes are left to hand out.
    pub fn remaining(&self) -> (r: usize)
        requires
            self.wf(),
        ensures
            r == self.contents().len() - self.position(),
    {
        self.data.len() - self.pos
    }
}

/// What one byte written to a sink does to its buffer and position:
/// overwrite inside the buffer, append at its end.
pub open spec fn write_one(buf: Seq<u8>, pos: int, b: u8) -> (Seq<u8>, int) {
    if 0 <= pos < buf.len() {
        (buf.update(pos, b), pos + 1)
    } else {
        (buf.push(b), pos + 1)
    }
}

/// What a whole byte sequence written to a sink does to its buffer and
/// position, one byte at a time.
pub open spec fn write_all(buf: Seq<u8>, pos: int, out: Seq<u8>) -> (Seq<u8>, int)
    decreases out.len(),
{
    if out.len() == 0 {
        (buf, pos)
    } else {
        let (buf1, pos1) = write_one(buf, pos, out[0]);
        write_all(buf1, pos1, out.drop_first())
    }
}

/// Writing one more byte after a sequence is writing the longer
/// sequence.
pub proof fn lemma_write_all_push(buf: Seq<u8>, pos: int, out: Seq<u8>, b: u8)
    ensures
        write_all(buf, pos, out.push(b)) == write_one(
            write_all(buf, pos, out).0,
            write_all(buf, pos, out).1,
            b,
        ),
    decreases out.len(),
{
    if out.len() == 0 {
        assert(out.push(b).drop_first() =~= out);
        assert(out.push(b)[0] == b);
        assert(write_all(buf, pos, out) == (buf, pos));
        let (buf1, pos1) = write_one(buf, pos, b);
        assert(write_all(buf, pos, out.push(b)) == write_all(buf1, pos1, out.push(b).drop_first()));
        assert(write_all(buf1, pos1, out) == (buf1, pos1));
    } else {
        assert(out.push(b).drop_first() =~= out.drop_first().push(b));
        assert(out.push(b)[0] == out[0]);
        let (buf1, pos1) = write_one(buf, pos, out[0]);
        assert(write_all(buf, pos, out.push(b)) == write_all(
            buf1,
            pos1,
            out.drop_first().push(b),
        ));
        assert(write_all(buf, pos, out) == write_all(buf1, pos1, out.drop_first()));
        lemma_write_all_push(buf1, pos1, out.drop_first(), b);
    }
}

/// A writable byte sink: a buffer and a cursor. Writes overwrite the
/// buffer at the cursor while inside it and grow the buffer at its end,
/// as a cursor over a prefilled buffer does.
pub struct OutputStream {
    data: Vec<u8>,
    pos: usize,
}

impl OutputStream {
    /// The bytes of the sink's buffer.
    pub closed spec fn contents(&self) -> Seq<u8> {
        self.data@
    }

    /// The cursor: where the next byte lands.
    pub closed spec fn position(&self) -> int {
        self.pos as int
    }

    /// The cursor never runs past the buffer.
    pub open spec fn wf(&self) -> bool {
        0 <= self.position() <= self.contents().len()
    }

    /// A sink over the given buffer with the cursor at its start.
    pub fn new(data: Vec<u8>) -> (s: OutputStream)
        ensures
            s.contents() == data@,
            s.position() == 0,
            s.wf(),
    {
        OutputStream { data, pos: 0 }
    }

    /// An empty sink.
    pub fn empty() -> (s: OutputStream)
        ensures
            s.contents() == Seq::<u8>::empty(),
            s.position() == 0,
            s.wf(),
    {
        OutputStream { data: Vec::new(), pos: 0 }
    }

    /// Write one byte at the cursor and advance it.
    pub fn write_byte(&mut self, b: u8)
        requires
            old(self).wf(),
        ensures
            final(self).wf(),
            (final(self).contents(), final(self).position()) == write_one(
                old(self).contents(),
                old(self).position(),
                b,
            ),
    {
        if self.pos < self.data.len() {
            self.data[self.pos] = b;
            self.pos = self.pos + 1;
        } else {
            self.data.push(b);
            self.pos = self.data.len();
        }
    }

    /// Borrow the sink's buffer.
    pub fn get_ref(&self) -> (r: &Vec<u8>)
        ensures
            r@ == self.contents(),
    {
        &self.data
    }

    /// Give up the sink and keep its buffer.
    pub fn into_inner(self) -> (r: Vec<u8>)
        ensures
            r@ == self.contents(),
    {
        self.data
    }
}

} // verus!

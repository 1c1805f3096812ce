use vstd::prelude::*;

verus! {

/// A byte cursor: a fixed buffer of bytes plus a read offset.
///
/// Reads advance the offset; peeks look behind it; `jump_to` seeks to an
/// absolute position. Every read that would cross the end of the buffer
/// returns `None` and leaves the cursor unchanged.
pub struct BytesIterator {
    pub bytes: Vec<u8>,
    pub offset: usize,
}

impl BytesIterator {
    pub fn new(bytes: Vec<u8>) -> (r: Self)
        ensures
            r.bytes@ == bytes@,
            r.offset == 0,
    {
        Self { bytes, offset: 0 }
    }

    /// True when `n` more bytes can be read from the current offset.
    pub fn within_bounds(&self, n: usize) -> (r: bool)
        ensures
            r == (self.offset + n <= self.bytes@.len()),
    {
        n <= self.bytes.len() && self.offset <= self.bytes.len() - n
    }

    /// Reads the next `n` bytes and advances past them.
    pub fn next_n(&mut self, n: usize) -> (r: Option<Vec<u8>>)
        ensures
            old(self).offset + n <= old(self).bytes@.len() ==> {
                &&& r is Some
                &&& r->0@ == old(self).bytes@.subrange(
                    old(self).offset as int,
                    old(self).offset + n,
                )
                &&& final(self).offset == old(self).offset + n
            },
            old(self).offset + n > old(self).bytes@.len() ==> r is None && *final(self) == *old(self),
            final(self).bytes@ == old(self).bytes@,
    {
        if !self.within_bounds(n) {
            return None;
        }
        let len = self.bytes.len();
        let mut out: Vec<u8> = Vec::new();
        let mut i: usize = 0;
        while i < n
            invariant
                i <= n,
                len == self.bytes@.len(),
                self.offset + n <= len,
                out@ == self.bytes@.subrange(self.offset as int, self.offset + i),
            decreases n - i,
        {
            out.push(self.bytes[self.offset + i]);
            i = i + 1;
            proof {
                assert(out@ =~= self.bytes@.subrange(self.offset as int, self.offset + i));
            }
        }
        self.offset = self.offset + n;
        Some(out)
    }

    /// Reads the next `n` bytes into a fresh cursor of their own.
    pub fn next_n_as_iter(&mut self, n: usize) -> (r: Option<Self>)
        ensures
            old(self).offset + n <= old(self).bytes@.len() ==> {
                &&& r is Some
                &&& r->0.bytes@ == old(self).bytes@.subrange(
                    old(self).offset as int,
                    old(self).offset + n,
                )
                &&& r->0.offset == 0
                &&& final(self).offset == old(self).offset + n
            },
            old(self).offset + n > old(self).bytes@.len() ==> r is None && *final(self) == *old(self),
            final(self).bytes@ == old(self).bytes@,
    {
        match self.next_n(n) {
            Some(bytes) => Some(Self::new(bytes)),
            None => None,
        }
    }

    /// Returns the `n` bytes just before the current offset, without moving it.
    pub fn peek_back_n(&self, n: usize) -> (r: Option<Vec<u8>>)
        ensures
            n <= self.offset && self.offset <= self.bytes@.len() ==> {
                &&& r is Some
                &&& r->0@ == self.bytes@.subrange(self.offset - n, self.offset as int)
            },
            n > self.offset || self.offset > self.bytes@.len() ==> r is None,
    {
        if n > self.offset || self.offset > self.bytes.len() {
            return None;
        }
        let start = self.offset - n;
        let len = self.bytes.len();
        let mut out: Vec<u8> = Vec::new();
        let mut i: usize = 0;
        while i < n
            invariant
                i <= n,
                start == self.offset - n,
                len == self.bytes@.len(),
                n <= self.offset <= len,
                out@ == self.bytes@.subrange(start as int, start + i),
            decreases n - i,
        {
            out.push(self.bytes[start + i]);
            i = i + 1;
            proof {
                assert(out@ =~= self.bytes@.subrange(start as int, start + i));
            }
        }
        Some(out)
    }

    /// Seeks to `start` and reads `n` bytes from there.
    pub fn from_offset(&mut self, start: usize, n: usize) -> (r: Option<Vec<u8>>)
        ensures
            start + n <= old(self).bytes@.len() ==> {
                &&& r is Some
                &&& r->0@ == old(self).bytes@.subrange(start as int, start + n)
                &&& final(self).offset == start + n
            },
            start + n > old(self).bytes@.len() ==> r is None && final(self).offset == start,
            final(self).bytes@ == old(self).bytes@,
    {
        self.jump_to(start);
        self.next_n(n)
    }

    pub fn has_next(&self) -> (r: bool)
        ensures
            r == (self.offset < self.bytes@.len()),
    {
        self.offset < self.bytes.len()
    }

    /// Seeks to the absolute position `n`.
    pub fn jump_to(&mut self, n: usize)
        ensures
            final(self).bytes@ == old(self).bytes@,
            final(self).offset == n,
    {
        self.offset = n;
    }

    /// Reads one byte and advances past it.
    pub fn next(&mut self) -> (r: Option<u8>)
        ensures
            old(self).offset < old(self).bytes@.len() ==> {
                &&& r == Some(old(self).bytes@[old(self).offset as int])
                &&& final(self).offset == old(self).offset + 1
            },
            old(self).offset >= old(self).bytes@.len() ==> r is None && *final(self) == *old(self),
            final(self).bytes@ == old(self).bytes@,
    {
        if self.offset < self.bytes.len() {
            let b = self.bytes[self.offset];
            self.offset = self.offset + 1;
            Some(b)
        } else {
            None
        }
    }
}

} // verus!

//! The byte buffers that cross the C interface.
use vstd::prelude::*;

verus! {

/// A byte buffer handed out to a C caller, in the parts that make it up.
///
/// The buffer is the memory of a vector that was given away: the caller brings
/// the same parts back, and they make up the vector again.
#[derive(Clone, Copy, Debug, PartialEq, Eq, Structural)]
pub struct ByteBuffer {
    /// Address of the first byte. Zero stands for no buffer.
    pub ptr: usize,
    /// Number of bytes.
    pub len: usize,
    /// Number of bytes that the memory has room for.
    pub cap: usize,
}

impl ByteBuffer {
    /// The buffer holds no more than it has room for.
    pub open spec fn wf(self) -> bool {
        self.len <= self.cap
    }

    /// What has to be freed: nothing where the buffer is null, else the vector
    /// with this address, length and capacity.
    pub open spec fn parts(self) -> Option<(usize, usize, usize)> {
        if self.ptr == 0 {
            None
        } else {
            Some((self.ptr, self.len, self.cap))
        }
    }

    /// The buffer made up of a vector's address, length and capacity.
    pub fn from_parts(ptr: usize, len: usize, cap: usize) -> (buffer: Self)
        requires
            len <= cap,
        ensures
            buffer == (ByteBuffer { ptr, len, cap }),
            buffer.wf(),
    {
        ByteBuffer { ptr, len, cap }
    }

    /// Address, length and capacity of the vector to free, or `None` where the
    /// buffer is null and there is nothing to free.
    pub fn into_parts(self) -> (parts: Option<(usize, usize, usize)>)
        ensures
            parts == self.parts(),
    {
        if self.ptr == 0 {
            None
        } else {
            Some((self.ptr, self.len, self.cap))
        }
    }
}

/// The vector that is freed is the vector that was given away: freeing gives
/// back its address, its length and its capacity.
pub proof fn lemma_freed_as_it_was_given(ptr: usize, len: usize, cap: usize)
    requires
        ptr != 0,
        len <= cap,
    ensures
        (ByteBuffer { ptr, len, cap }).wf(),
        (ByteBuffer { ptr, len, cap }).parts() == Some((ptr, len, cap)),
{
}

/// A null buffer frees nothing, whatever it says of its length.
pub proof fn lemma_null_frees_nothing(len: usize, cap: usize)
    ensures
        (ByteBuffer { ptr: 0, len, cap }).parts() is None,
{
}

/// Two buffers that free the same vector are the same buffer: freeing loses
/// nothing of what was given away.
pub proof fn lemma_freeing_tells_buffers_apart(one: ByteBuffer, other: ByteBuffer)
    requires
        one.parts() is Some,
        one.parts() == other.parts(),
    ensures
        one == other,
{
}

} // verus!

//! Accounting of random bytes, and a fixed source of them for deterministic dealings.
use vstd::prelude::*;
use crate::errors::ErrorKind;

verus! {

/// The largest secret, in bytes, that can be shared.
pub const MAX_MESSAGE_SIZE: usize = usize::MAX / 254;

/// The smallest secret, in bytes, that can be shared.
pub const MIN_MESSAGE_SIZE: usize = 1;

/// The smallest threshold.
pub const MIN_THRESHOLD: u8 = 2;

/// The number of random bytes that a dealing of threshold `threshold` draws
/// for a secret of `message_size` bytes: one per non-constant coefficient.
pub fn random_bytes_count(threshold: u8, message_size: usize) -> (r: usize)
    requires
        threshold >= MIN_THRESHOLD,
        MIN_MESSAGE_SIZE <= message_size <= MAX_MESSAGE_SIZE,
    ensures
        r == (threshold - 1) * message_size,
{
    let t = (threshold - 1) as usize;
    assert(t * message_size <= 254 * (usize::MAX / 254)) by (nonlinear_arith)
        requires
            t <= 254,
            message_size <= usize::MAX / 254,
    ;
    t * message_size
}

/// A source of random bytes that hands out a prefix of a fixed buffer.
pub struct FixedRandom {
    src: Vec<u8>,
}

impl FixedRandom {
    /// The bytes that this source holds.
    pub closed spec fn source(&self) -> Seq<u8> {
        self.src@
    }

    /// Creates a source from a non-empty buffer.
    pub fn new(src: Vec<u8>) -> (r: FixedRandom)
        requires
            src@.len() > 0,
        ensures
            r.source() == src@,
    {
        FixedRandom { src }
    }

    /// Fills `dest` with the first `dest.len()` bytes of the buffer; fails when the
    /// buffer is shorter than `dest`.
    pub fn fill(&self, dest: &mut Vec<u8>) -> (r: Result<(), ErrorKind>)
        ensures
            r is Ok <==> old(dest)@.len() <= self.source().len(),
            r is Ok ==> final(dest)@ == self.source().subrange(0, old(dest)@.len() as int),
            r is Err ==> r == Err::<(), ErrorKind>(ErrorKind::CannotGenerateRandomNumbers)
                && final(dest)@ == old(dest)@,
    {
        if dest.len() > self.src.len() {
            return Err(ErrorKind::CannotGenerateRandomNumbers);
        }
        let len = dest.len();
        let mut i: usize = 0;
        while i < len
            invariant
                len == dest@.len(),
                len <= self.src@.len(),
                i <= len,
                forall|t: int| 0 <= t < i ==> dest@[t] == self.src@[t],
            decreases len - i,
        {
            dest.set(i, self.src[i]);
            i = i + 1;
        }
        assert(dest@ =~= self.src@.subrange(0, len as int));
        Ok(())
    }

    /// Draws `count` bytes from this source.
    pub fn random_bytes(&self, count: usize) -> (r: Result<Vec<u8>, ErrorKind>)
        ensures
            r is Ok <==> count <= self.source().len(),
            r is Ok ==> r->Ok_0@ == self.source().subrange(0, count as int),
            r is Err ==> r == Err::<Vec<u8>, ErrorKind>(ErrorKind::CannotGenerateRandomNumbers),
    {
        let mut buf: Vec<u8> = Vec::new();
        let mut i: usize = 0;
        while i < count
            invariant
                buf@.len() == i,
                i <= count,
            decreases count - i,
        {
            buf.push(0);
            i = i + 1;
        }
        match self.fill(&mut buf) {
            Ok(()) => Ok(buf),
            Err(e) => Err(e),
        }
    }
}

} // verus!

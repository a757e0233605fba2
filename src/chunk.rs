use vstd::prelude::*;
use crate::lines::{has_no_newline, NEWLINE};
use crate::StatsError;

verus! {

/// Carves a byte stream into chunks of whole lines through a buffer of fixed
/// capacity. The bytes after the last line terminator seen so far wait in the
/// buffer for the next read.
pub struct ChunkReader {
    pending: Vec<u8>,
    capacity: usize,
}

impl ChunkReader {
    /// The bytes waiting for their line terminator.
    pub closed spec fn pending(&self) -> Seq<u8> {
        self.pending@
    }

    pub closed spec fn spec_capacity(&self) -> nat {
        self.capacity as nat
    }

    /// The waiting bytes hold no terminator and leave room in the buffer.
    pub closed spec fn wf(&self) -> bool {
        &&& has_no_newline(self.pending@)
        &&& self.pending@.len() < self.capacity
    }

    pub fn new(capacity: usize) -> (r: ChunkReader)
        requires
            capacity > 0,
        ensures
            r.wf(),
            r.pending() == Seq::<u8>::empty(),
            r.spec_capacity() == capacity,
    {
        ChunkReader { pending: Vec::new(), capacity }
    }

    /// Room left in the buffer: at most this many bytes may be fed at once.
    pub fn spare(&self) -> (r: usize)
        requires
            self.wf(),
        ensures
            r == self.spec_capacity() - self.pending().len(),
            r > 0,
    {
        self.capacity - self.pending.len()
    }

    /// Takes in the bytes of one read. Where the buffer then holds a line
    /// terminator, hands out everything up to and including the last one and
    /// keeps the rest. Where it holds none and is full, a line does not fit.
    pub fn feed(&mut self, data: &[u8]) -> (r: Result<Option<Vec<u8>>, StatsError>)
        requires
            old(self).wf(),
            0 < data@.len() <= old(self).spec_capacity() - old(self).pending().len(),
        ensures
            final(self).spec_capacity() == old(self).spec_capacity(),
            ({
                let v = old(self).pending() + data@;
                match r {
                    Ok(Some(c)) => {
                        &&& !has_no_newline(v)
                        &&& c@ + final(self).pending() == v
                        &&& c@.len() > 0
                        &&& c@.last() == NEWLINE
                        &&& final(self).wf()
                    },
                    Ok(None) => {
                        &&& has_no_newline(v)
                        &&& v.len() < old(self).spec_capacity()
                        &&& final(self).pending() == v
                        &&& final(self).wf()
                    },
                    Err(e) => {
                        &&& e == StatsError::OversizedRecord
                        &&& has_no_newline(v)
                        &&& v.len() == old(self).spec_capacity()
                    },
                }
            }),
    {
        let ghost v = self.pending@ + data@;
        let old_len = self.pending.len();
        let mut k: usize = 0;
        while k < data.len()
            invariant
                k <= data@.len(),
                old_len == old(self).pending@.len(),
                self.capacity == old(self).capacity,
                self.pending@ == old(self).pending@ + data@.subrange(0, k as int),
                v == old(self).pending@ + data@,
            decreases data@.len() - k,
        {
            self.pending.push(data[k]);
            k = k + 1;
            assert(data@.subrange(0, k as int) == data@.subrange(0, k - 1).push(data@[k - 1]));
        }
        assert(data@.subrange(0, data@.len() as int) == data@);
        // the old bytes hold no terminator: look for the last one among the new
        let len = self.pending.len();
        let mut i: usize = len;
        while i > old_len && self.pending[i - 1] != NEWLINE
            invariant
                old_len <= i <= len,
                len == self.pending@.len(),
                self.pending@ == v,
                old_len == old(self).pending@.len(),
                forall|j: int| i <= j < len ==> #[trigger] v[j] != NEWLINE,
            decreases i,
        {
            i = i - 1;
        }
        if i > old_len {
            // `i - 1` is the last terminator
            let mut rest = self.pending.split_off(i);
            core::mem::swap(&mut self.pending, &mut rest);
            assert(rest@ + self.pending@ == v);
            assert(!has_no_newline(v)) by {
                assert(v[i - 1] == NEWLINE);
            }
            assert forall|j: int| 0 <= j < self.pending@.len() implies #[trigger] self.pending@[j] != NEWLINE by {
                assert(self.pending@[j] == v[i + j]);
            }
            Ok(Some(rest))
        } else {
            assert(has_no_newline(v)) by {
                assert forall|j: int| 0 <= j < v.len() implies #[trigger] v[j] != NEWLINE by {
                    if j < old_len {
                        assert(v[j] == old(self).pending@[j]);
                    }
                }
            }
            if len == self.capacity {
                Err(StatsError::OversizedRecord)
            } else {
                Ok(None)
            }
        }
    }

    /// At the end of the stream: the bytes still waiting, as a last chunk
    /// without terminator, where there are any.
    pub fn finish(self) -> (r: Option<Vec<u8>>)
        requires
            self.wf(),
        ensures
            match r {
                Some(c) => c@ == self.pending() && 0 < c@.len() < self.spec_capacity() && has_no_newline(c@),
                None => self.pending().len() == 0,
            },
    {
        if self.pending.len() == 0 {
            None
        } else {
            Some(self.pending)
        }
    }
}

} // verus!

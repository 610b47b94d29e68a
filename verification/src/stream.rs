//! The instrumented stream: an in-memory byte cursor that reports every
//! successful read and seek to the recorder it carries.
//!
//! Reads return the bytes actually available (short at the end, like any
//! cursor); a seek may point past the end, after which reads return nothing.
//! An operation with no active scope is refused before it touches the
//! cursor, mirroring the rule that reports outside every traced scope are a
//! protocol violation.

use vstd::prelude::*;

use crate::session::Action;
use crate::session::CounterSubscriber;
use crate::session::TraceError;

verus! {

/// A byte cursor wired to a recorder.
pub struct TraceReader {
    pub data: Vec<u8>,
    pub pos: usize,
    pub sub: CounterSubscriber,
}

impl TraceReader {
    /// How many bytes a read of `n` from position `pos` yields.
    pub open spec fn take_of(self, n: usize) -> int {
        let avail = if self.pos >= self.data@.len() {
            0int
        } else {
            self.data@.len() - self.pos
        };
        if n <= avail {
            n as int
        } else {
            avail
        }
    }

    /// The position a read starts from, clamped to the end of the buffer.
    pub open spec fn cursor_at(self) -> int {
        if self.pos >= self.data@.len() {
            self.data@.len() as int
        } else {
            self.pos as int
        }
    }

    /// Wrap a byte buffer, starting at offset zero.
    pub fn new(data: Vec<u8>, sub: CounterSubscriber) -> (r: TraceReader)
        ensures
            r.data == data,
            r.pos == 0,
            r.sub == sub,
    {
        TraceReader { data, pos: 0, sub }
    }

    /// Read up to `n` bytes at the current position and report the count
    /// actually read to the active scope.
    pub fn read(&mut self, n: usize) -> (r: Result<Vec<u8>, TraceError>)
        requires
            old(self).sub.wf(),
        ensures
            final(self).sub.wf(),
            final(self).data == old(self).data,
            match r {
                Ok(bytes) => {
                    let take = old(self).take_of(n);
                    &&& old(self).sub@.stack.len() > 0
                    &&& bytes@ == old(self).data@.subrange(
                        old(self).cursor_at(),
                        old(self).cursor_at() + take,
                    )
                    &&& final(self).pos == old(self).pos + take
                    &&& final(self).sub@ == old(self).sub@.sp_report(
                        Action::Read(bytes.len()),
                    )->Ok_0
                },
                Err(e) => {
                    &&& e == TraceError::NoActiveSpan
                    &&& old(self).sub@.stack.len() == 0
                    &&& *final(self) == *old(self)
                },
            },
    {
        if self.sub.current_span().is_none() {
            return Err(TraceError::NoActiveSpan);
        }
        let avail: usize = if self.pos >= self.data.len() {
            0
        } else {
            self.data.len() - self.pos
        };
        let take: usize = if n <= avail {
            n
        } else {
            avail
        };
        let mut bytes: Vec<u8> = Vec::new();
        let mut i: usize = 0;
        proof {
            assert(bytes@ =~= self.data@.subrange(self.cursor_at(), self.cursor_at()));
        }
        while i < take
            invariant
                i <= take,
                take == old(self).take_of(n),
                *self == *old(self),
                self.data@.len() <= usize::MAX,
                self.pos + take <= self.data@.len() || take == 0,
                bytes@ == self.data@.subrange(self.cursor_at(), self.cursor_at() + i),
            decreases take - i,
        {
            bytes.push(self.data[self.pos + i]);
            proof {
                assert(bytes@ =~= self.data@.subrange(self.cursor_at(), self.cursor_at() + i + 1));
            }
            i += 1;
        }
        self.pos = self.pos + take;
        match self.sub.read_action(take) {
            Ok(_) => Ok(bytes),
            Err(_) => {
                proof {
                    assert(false);
                }
                Err(TraceError::NoActiveSpan)
            },
        }
    }

    /// Move to absolute offset `to` and report it to the active scope.
    pub fn seek(&mut self, to: usize) -> (r: Result<usize, TraceError>)
        requires
            old(self).sub.wf(),
        ensures
            final(self).sub.wf(),
            final(self).data == old(self).data,
            match r {
                Ok(off) => {
                    &&& old(self).sub@.stack.len() > 0
                    &&& off == to
                    &&& final(self).pos == to
                    &&& final(self).sub@ == old(self).sub@.sp_report(Action::Seek(to))->Ok_0
                },
                Err(e) => {
                    &&& e == TraceError::NoActiveSpan
                    &&& old(self).sub@.stack.len() == 0
                    &&& *final(self) == *old(self)
                },
            },
    {
        if self.sub.current_span().is_none() {
            return Err(TraceError::NoActiveSpan);
        }
        self.pos = to;
        match self.sub.seek_action(to) {
            Ok(_) => Ok(to),
            Err(_) => {
                proof {
                    assert(false);
                }
                Err(TraceError::NoActiveSpan)
            },
        }
    }
}

} // verus!

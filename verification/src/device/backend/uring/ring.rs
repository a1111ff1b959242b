//! The submission and completion queues of an io_uring. The application mirrors them
//! between their mappings and the picture here: the kernel's counters and completions
//! before a call, new requests and the own counters after it.
use vstd::prelude::*;

use crate::device::backend::af_xdp::umem::{ahead, lemma_pow2_positive, moved, pow2};
use crate::errno::Errno;
use crate::error::IoError;

verus! {

/// Where the parts of a queue lie in its mapping.
#[derive(Clone, Copy, Debug, Default, PartialEq, Eq, Structural)]
pub struct Offsets {
    pub head: u32,
    pub tail: u32,
    pub mask: u32,
    pub entries: u32,
    pub flags_or_overflow: u32,
    pub dropped_or_cqes: u32,
    pub array_or_flags: u32,
    pub reserved: u32,
    pub address: u64,
}

/// What a ring was set up with.
#[derive(Clone, Copy, Debug, Default)]
pub struct Params {
    pub sq_entries: u32,
    pub cq_entries: u32,
    pub flags: u32,
    pub cpu: u32,
    pub idle: u32,
    pub features: u32,
    pub wq_fd: u32,
    pub reserved: [u32; 3],
    pub sq: Offsets,
    pub cq: Offsets,
}

/// A request.
#[derive(Clone, Copy, Debug, Default)]
pub struct Sqe {
    pub opcode: u8,
    pub flags: u8,
    pub priority: u16,
    pub fd: i32,
    pub offset: u64,
    pub address: u64,
    pub len: u32,
    pub rw_flags: u32,
    pub user_data: u64,
    pub buf_index: u16,
    pub personality: u16,
    pub splice_fd: i32,
    pub padding: [u64; 2],
}

/// A completion.
#[derive(Clone, Copy, Debug, Default, PartialEq, Eq, Structural)]
pub struct Cqe {
    pub user_data: u64,
    pub result: i32,
    pub flags: u32,
}

/// Cancels requests.
#[derive(Clone, Copy, Debug)]
pub struct Cancel {
    pub address: u64,
    pub fd: i32,
    pub flags: u32,
    pub seconds: i64,
    pub nanoseconds: i64,
    pub padding: [u64; 4],
}

pub const OP_READ: u8 = 22;

pub const OP_WRITE: u8 = 23;

/// The descriptor of a request is the number of a registered file.
pub const FIXED_FILE: u8 = 1;

/// The request to read into, or write from, `len` bytes at `address`.
pub open spec fn request(read: bool, address: u64, len: u32, id: u64) -> Sqe {
    Sqe {
        opcode: if read {
            OP_READ
        } else {
            OP_WRITE
        },
        flags: FIXED_FILE,
        priority: 0,
        fd: 0,
        offset: 0,
        address,
        len,
        rw_flags: 0,
        user_data: id,
        buf_index: 0,
        personality: 0,
        splice_fd: 0,
        padding: [0, 0],
    }
}

/// Makes the request to read into, or write from, `len` bytes at `address`.
pub fn make_request(read: bool, address: u64, len: u32, id: u64) -> (sqe: Sqe)
    ensures
        sqe == request(read, address, len, id),
{
    Sqe {
        opcode: if read {
            OP_READ
        } else {
            OP_WRITE
        },
        flags: FIXED_FILE,
        priority: 0,
        fd: 0,
        offset: 0,
        address,
        len,
        rw_flags: 0,
        user_data: id,
        buf_index: 0,
        personality: 0,
        splice_fd: 0,
        padding: [0, 0],
    }
}

/// The request to cancel everything, waiting for at most a second.
pub fn cancel_everything() -> (cancel: Cancel)
    ensures
        cancel.address == 0,
        cancel.fd == -1,
        cancel.flags == 5,
        cancel.seconds == 1,
        cancel.nanoseconds == 0,
        cancel.padding@ == seq![0u64, 0u64, 0u64, 0u64],
{
    let padding: [u64; 4] = [0, 0, 0, 0];
    assert(padding@ =~= seq![0u64, 0u64, 0u64, 0u64]);
    Cancel { address: 0, fd: -1, flags: 5, seconds: 1, nanoseconds: 0, padding }
}

/// What to do after an attempt to cancel.
#[derive(Clone, Copy, Debug, PartialEq, Eq, Structural)]
pub enum CancelStep {
    /// Everything is finished or cancelled.
    Done,
    /// Try again.
    Again,
    Failed(IoError),
}

/// What to do after an attempt to cancel had this outcome. That there is nothing to
/// cancel is success.
pub fn after_cancel(outcome: Result<(), i32>, errno: Errno) -> (step: CancelStep)
    ensures
        step == match outcome {
            Ok(_) => CancelStep::Done,
            Err(e) => if e == errno.missing {
                CancelStep::Done
            } else if e == errno.interrupted {
                CancelStep::Again
            } else {
                CancelStep::Failed(IoError::Os(e))
            },
        },
{
    match outcome {
        Ok(()) => CancelStep::Done,
        Err(e) => {
            if e == errno.missing {
                CancelStep::Done
            } else if e == errno.interrupted {
                CancelStep::Again
            } else {
                CancelStep::Failed(IoError::Os(e))
            }
        },
    }
}

/// What submitting came to. A signal, or a kernel that is busy, is no failure: what was
/// not submitted is tried again later.
pub fn after_enter(outcome: Result<(), i32>, errno: Errno) -> (r: Result<(), IoError>)
    ensures
        r == match outcome {
            Ok(_) => Ok::<(), IoError>(()),
            Err(e) => if e == errno.interrupted || e == errno.again {
                Ok(())
            } else {
                Err(IoError::Os(e))
            },
        },
{
    match outcome {
        Ok(()) => Ok(()),
        Err(e) => {
            if e == errno.interrupted || e == errno.again {
                Ok(())
            } else {
                Err(IoError::Os(e))
            }
        },
    }
}

/// The lengths of the mappings of the two queues and of the requests.
#[derive(Clone, Copy, Debug, PartialEq, Eq, Structural)]
pub struct MappingLens {
    pub sq: u64,
    pub cq: u64,
    pub sqes: u64,
}

/// Refuses a kernel that drops completions, and otherwise says how much to map.
pub fn plan_mappings(params: &Params) -> (r: Result<MappingLens, IoError>)
    ensures
        r == (if params.features & 2 == 0 {
            Err(IoError::UringUnsupported)
        } else {
            Ok(
                MappingLens {
                    sq: (params.sq.array_or_flags + params.sq_entries * 4) as u64,
                    cq: (params.cq.dropped_or_cqes + params.cq_entries * 16) as u64,
                    sqes: (params.sq_entries * 64) as u64,
                },
            )
        }),
{
    if params.features & 2 == 0 {
        return Err(IoError::UringUnsupported);
    }
    Ok(
        MappingLens {
            sq: params.sq.array_or_flags as u64 + params.sq_entries as u64 * 4,
            cq: params.cq.dropped_or_cqes as u64 + params.cq_entries as u64 * 16,
            sqes: params.sq_entries as u64 * 64,
        },
    )
}

/// A ring: requests on the way in and completions on the way out. `sq_head` and
/// `cq_tail` are the kernel's.
pub struct Ring {
    pub sqes: Vec<Sqe>,
    pub sq_head: u32,
    pub sq_tail: u32,
    pub cqes: Vec<Cqe>,
    pub cq_head: u32,
    pub cq_tail: u32,
}

impl Ring {
    /// Both queues have a size that their counters wrap well with.
    pub open spec fn inv(self) -> bool {
        &&& pow2(self.sqes@.len())
        &&& self.sqes@.len() <= u32::MAX
        &&& pow2(self.cqes@.len())
        &&& self.cqes@.len() <= u32::MAX
    }

    /// How many requests the kernel has not taken.
    pub open spec fn queued(self) -> nat {
        ahead(self.sq_tail, self.sq_head)
    }

    /// How many more requests fit.
    pub open spec fn room(self) -> nat {
        if self.queued() <= self.sqes@.len() {
            (self.sqes@.len() - self.queued()) as nat
        } else {
            0
        }
    }

    /// How many completions wait.
    pub open spec fn waiting(self) -> nat {
        ahead(self.cq_tail, self.cq_head)
    }

    /// The completion at the head.
    pub open spec fn next(self) -> Cqe {
        self.cqes@[self.cq_head as int % self.cqes@.len() as int]
    }

    /// A ring with so many entries.
    pub fn new(sq_entries: u32, cq_entries: u32) -> (ring: Ring)
        requires
            pow2(sq_entries as nat),
            pow2(cq_entries as nat),
        ensures
            ring.inv(),
            ring.sqes@.len() == sq_entries,
            ring.cqes@.len() == cq_entries,
            ring.sq_head == 0,
            ring.sq_tail == 0,
            ring.cq_head == 0,
            ring.cq_tail == 0,
    {
        let mut sqes: Vec<Sqe> = Vec::new();
        sqes.resize(sq_entries as usize, make_request(false, 0, 0, 0));
        let mut cqes: Vec<Cqe> = Vec::new();
        cqes.resize(cq_entries as usize, Cqe { user_data: 0, result: 0, flags: 0 });
        Ring { sqes, sq_head: 0, sq_tail: 0, cqes, cq_head: 0, cq_tail: 0 }
    }

    /// How many requests can be under way.
    pub fn entries(&self) -> (n: usize)
        ensures
            n == self.sqes@.len(),
    {
        self.sqes.len()
    }

    /// How many more requests fit.
    pub fn free_slots(&self) -> (n: usize)
        requires
            self.inv(),
        ensures
            n == self.room(),
    {
        proof {
            reveal(ahead);
        }
        let queued: usize = self.sq_tail.wrapping_sub(self.sq_head) as usize;
        if queued <= self.sqes.len() {
            self.sqes.len() - queued
        } else {
            0
        }
    }

    /// Queues a request.
    pub fn push(&mut self, sqe: Sqe)
        requires
            old(self).inv(),
            old(self).room() > 0,
        ensures
            final(self).inv(),
            final(self).sqes@ == old(self).sqes@.update(
                old(self).sq_tail as int % old(self).sqes@.len() as int,
                sqe,
            ),
            final(self).sq_tail == moved(old(self).sq_tail, 1),
            final(self).sq_head == old(self).sq_head,
            final(self).cqes == old(self).cqes,
            final(self).cq_head == old(self).cq_head,
            final(self).cq_tail == old(self).cq_tail,
            final(self).room() == old(self).room() - 1,
    {
        proof {
            reveal(ahead);
        }
        let index: usize = (self.sq_tail as usize) % self.sqes.len();
        self.sqes[index] = sqe;
        self.sq_tail = self.sq_tail.wrapping_add(1);
        assert(self.queued() == old(self).queued() + 1);
    }

    /// Takes the completion at the head, if one waits.
    pub fn pop(&mut self) -> (cqe: Option<Cqe>)
        requires
            old(self).inv(),
        ensures
            final(self).inv(),
            cqe is Some <==> old(self).waiting() > 0,
            cqe is None ==> *final(self) == *old(self),
            cqe matches Some(c) ==> {
                &&& c == old(self).next()
                &&& final(self).cq_head == moved(old(self).cq_head, 1)
                &&& final(self).waiting() == old(self).waiting() - 1
                &&& final(self).cqes == old(self).cqes
                &&& final(self).cq_tail == old(self).cq_tail
                &&& final(self).sqes == old(self).sqes
                &&& final(self).sq_head == old(self).sq_head
                &&& final(self).sq_tail == old(self).sq_tail
            },
    {
        proof {
            reveal(ahead);
        }
        if self.cq_head == self.cq_tail {
            return None;
        }
        proof {
            lemma_pow2_positive(self.cqes@.len());
        }
        let index: usize = (self.cq_head as usize) % self.cqes.len();
        let cqe: Cqe = self.cqes[index];
        self.cq_head = self.cq_head.wrapping_add(1);
        assert(self.waiting() == old(self).waiting() - 1);
        Some(cqe)
    }
}

} // verus!

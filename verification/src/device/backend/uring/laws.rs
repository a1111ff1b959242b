//! What holds of requests and their completions.
use vstd::prelude::*;

use super::ring::{request, Cqe};
use super::{
    acceptable, negated, under_way, wanted, Request, UringConfig, UringModel, UringTunDevice,
};
use crate::errno::Errno;
use crate::error::IoError;

verus! {

/// A request says what is to be done with which bytes, and which request it is. Reading
/// has the number 22, and writing 23; the file is the first of those registered.
pub proof fn law_requests_say_what_to_do(read: bool, address: u64, len: u32, id: u64)
    ensures
        ({
            let sqe = request(read, address, len, id);
            &&& sqe.opcode == (if read {
                22u8
            } else {
                23
            })
            &&& sqe.flags == 1
            &&& sqe.fd == 0
            &&& sqe.offset == 0
            &&& sqe.address == address
            &&& sqe.len == len
            &&& sqe.user_data == id
        }),
{
}

/// A packet that was read waits behind those that wait already, as long as the kernel
/// says. It is counted, and no error is.
pub proof fn law_read_packets_wait(m: UringModel, id: usize, len: i32, flags: u32, errno: Errno)
    requires
        id < m.pending.len() <= usize::MAX,
        m.pending[id as int] is Some,
        m.pending[id as int]->0.read,
        0 < len < m.pending[id as int]->0.room,
        m.stats.rx_completed < u64::MAX,
    ensures
        ({
            let after = m.completed(Cqe { user_data: id as u64, result: len, flags }, errno);
            &&& after.ready.len() == m.ready.len() + 1
            &&& after.ready.take(m.ready.len() as int) == m.ready
            &&& after.ready.last() == len
            &&& after.error == m.error
            &&& after.stats.rx_completed == m.stats.rx_completed + 1
            &&& after.stats.rx_errors == m.stats.rx_errors
            &&& after.stats.last_errno == m.stats.last_errno
        }),
{
    let after = m.completed(Cqe { user_data: id as u64, result: len, flags }, errno);
    assert(after.ready.take(m.ready.len() as int) =~= m.ready);
}

/// A read that came back empty, or that left no room in its frame and so may have lost
/// bytes, is an error, and gives no packet.
pub proof fn law_doubtful_reads_are_errors(
    m: UringModel,
    id: usize,
    len: i32,
    flags: u32,
    errno: Errno,
)
    requires
        id < m.pending.len() <= usize::MAX,
        m.pending[id as int] is Some,
        m.pending[id as int]->0.read,
        len == 0 || len > 0 && len >= m.pending[id as int]->0.room,
        m.error is None,
        m.stats.rx_errors < u64::MAX,
    ensures
        ({
            let after = m.completed(Cqe { user_data: id as u64, result: len, flags }, errno);
            &&& after.ready == m.ready
            &&& after.error == Some(IoError::TruncatedRead)
            &&& after.stats.rx_errors == m.stats.rx_errors + 1
            &&& after.stats.rx_completed == m.stats.rx_completed
        }),
{
}

/// A write is done exactly if all of its packet was written; then the bytes are counted.
/// Any other number of bytes is an error. No packet is received by writing.
pub proof fn law_writes_are_whole(m: UringModel, id: usize, len: i32, flags: u32, errno: Errno)
    requires
        id < m.pending.len() <= usize::MAX,
        m.pending[id as int] is Some,
        !m.pending[id as int]->0.read,
        len >= 0,
        m.error is None,
        m.stats.tx_completed < u64::MAX,
        m.stats.tx_completed_bytes + len <= u64::MAX,
        m.stats.tx_errors < u64::MAX,
    ensures
        ({
            let after = m.completed(Cqe { user_data: id as u64, result: len, flags }, errno);
            let whole = len == m.pending[id as int]->0.size;
            &&& after.ready == m.ready
            &&& whole ==> {
                &&& after.error is None
                &&& after.stats.tx_completed == m.stats.tx_completed + 1
                &&& after.stats.tx_completed_bytes == m.stats.tx_completed_bytes + len
                &&& after.stats.tx_errors == m.stats.tx_errors
            }
            &&& !whole ==> {
                &&& after.error == Some(IoError::ShortWrite)
                &&& after.stats.tx_completed == m.stats.tx_completed
                &&& after.stats.tx_completed_bytes == m.stats.tx_completed_bytes
                &&& after.stats.tx_errors == m.stats.tx_errors + 1
            }
        }),
{
}

/// A request that failed gives no packet, and is reported with its number. Only a read
/// that found nothing or was interrupted is passed over in silence; a write never is.
pub proof fn law_failures_are_reported(
    m: UringModel,
    id: usize,
    error: i32,
    flags: u32,
    errno: Errno,
)
    requires
        id < m.pending.len() <= usize::MAX,
        m.pending[id as int] is Some,
        error > 0,
        m.error is None,
        m.stats.rx_errors < u64::MAX,
        m.stats.tx_errors < u64::MAX,
    ensures
        ({
            let result = (-error) as i32;
            let after = m.completed(Cqe { user_data: id as u64, result, flags }, errno);
            let read = m.pending[id as int]->0.read;
            let quiet = read && (error == errno.again || error == errno.interrupted);
            &&& after.ready == m.ready
            &&& after.stats.rx_completed == m.stats.rx_completed
            &&& after.stats.tx_completed == m.stats.tx_completed
            &&& quiet ==> after.error is None && after.stats == m.stats
            &&& !quiet ==> {
                &&& after.error == Some(IoError::Os(error))
                &&& after.stats.last_errno == Some(error)
                &&& after.stats.rx_errors == m.stats.rx_errors + (if read {
                    1int
                } else {
                    0
                })
                &&& after.stats.tx_errors == m.stats.tx_errors + (if read {
                    0int
                } else {
                    1
                })
            }
        }),
{
    assert(negated((-error) as i32) == error);
}

/// A completion ends its own request, whose number is the next to be used, and no other.
pub proof fn law_completions_end_their_request(m: UringModel, cqe: Cqe, errno: Errno, k: int)
    requires
        cqe.user_data < m.pending.len() <= usize::MAX,
        m.pending[cqe.user_data as int] is Some,
        0 <= k < m.pending.len(),
    ensures
        ({
            let after = m.completed(cqe, errno);
            &&& after.pending.len() == m.pending.len()
            &&& after.pending[k] == (if k == cqe.user_data {
                None
            } else {
                m.pending[k]
            })
            &&& after.free.len() == m.free.len() + 1
            &&& after.free.last() == cqe.user_data
            &&& after.free.take(m.free.len() as int) == m.free
        }),
{
    let after = m.completed(cqe, errno);
    assert(after.free.take(m.free.len() as int) =~= m.free);
}

/// A request that is queued gets the number that was given back last, and is under way
/// under that number; no other request changes.
pub proof fn law_requests_get_a_number(m: UringModel, op: Request, k: int)
    requires
        m.wf(),
        m.free.len() > 0,
        0 <= k < m.pending.len(),
    ensures
        ({
            let after = m.queued(op);
            let id = m.free[m.free.len() - 1];
            &&& m.number(0) == id
            &&& after.pending[k] == (if k == id {
                Some(op)
            } else {
                m.pending[k]
            })
            &&& after.free == m.free.take(m.free.len() - 1)
            &&& after.ready == m.ready
            &&& after.error == m.error
        }),
{
    assert(m.free[m.free.len() - 1] < m.pending.len());
    assert(m.queued(op).free =~= m.free.take(m.free.len() - 1));
}

/// There can be a power of two of requests from 2 to 4096, and one of them is left to
/// send with.
pub proof fn law_depths(cfg: UringConfig)
    ensures
        cfg.consistent() ==> cfg.entries % 2 == 0 && cfg.entries >= 2 && cfg.entries <= 4096
            && cfg.rx_depth < cfg.entries,
        cfg.entries == 2 || cfg.entries == 4096 ==> (cfg.consistent() <==> cfg.rx_depth
            < cfg.entries),
        cfg.entries > 4096 || cfg.entries < 2 || cfg.entries % 2 == 1 ==> !cfg.consistent(),
{
    reveal_with_fuel(vstd::arithmetic::power2::is_pow2, 14);
}

/// Reads are queued as long as fewer are under way, or wait as packets, than the budget
/// for receiving allows, and there is a number and a place in the ring for them: exactly
/// as many as all three allow.
pub proof fn law_reads_fill_the_budget(device: UringTunDevice)
    requires
        device.inv(),
    ensures
        ({
            let n = wanted(device);
            let load = under_way(device@.pending, true) + device@.ready.len();
            &&& load + n <= device.config().rx_depth
            &&& n <= device@.free.len()
            &&& n <= device.queues().room()
            &&& load + n == device.config().rx_depth || n == device@.free.len() || n
                == device.queues().room()
        }),
{
    device.lemma_inv();
}

/// Writes are queued in order as long as there are frames, numbers and places in the ring:
/// exactly as many as all three allow.
pub proof fn law_writes_fill_the_ring(device: UringTunDevice, frames: nat)
    ensures
        ({
            let n = acceptable(device, frames);
            &&& n <= frames && n <= device@.free.len() && n <= device.queues().room()
            &&& n == frames || n == device@.free.len() || n == device.queues().room()
        }),
{
}

/// Handing requests to the kernel is counted, and so is its refusal, with its number;
/// neither ends a request or takes a packet.
pub proof fn law_submissions_are_counted(m: UringModel, error: i32)
    requires
        m.stats.enter_calls < u64::MAX,
        m.stats.submit_errors < u64::MAX,
    ensures
        m.entering().stats.enter_calls == m.stats.enter_calls + 1,
        m.entering().pending == m.pending,
        m.entering().ready == m.ready,
        m.refused(IoError::Os(error)).stats.submit_errors == m.stats.submit_errors + 1,
        m.refused(IoError::Os(error)).stats.last_errno == Some(error),
        m.refused(IoError::Os(error)).pending == m.pending,
        m.refused(IoError::Os(error)).ready == m.ready,
        m.reported().error is None,
        m.reported().stats == m.stats,
        m.reported().ready == m.ready,
{
}

} // verus!

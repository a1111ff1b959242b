//! A reactor over several TUN devices, one to a worker thread. Opening a device, waiting
//! for it and running the threads are the application's.
use vstd::prelude::*;

use crate::error::{Error, IoError};

verus! {

/// How many datagrams are read after one wait: as many as a device has frames.
pub const FRAMES_PER_BATCH: usize = 256;

/// For how many milliseconds a worker waits at most before it looks whether to stop.
pub const STOP_POLL_MILLIS: u64 = 10;

/// Devices, and the names of their interfaces.
pub struct UtunReactor<D> {
    devices: Vec<D>,
    names: Vec<String>,
}

/// Whether each device and name came from opening a device for packets of `mtu` bytes.
pub open spec fn all_opened<D, F: Fn(usize) -> Result<(D, String), Error>>(
    open: F,
    mtu: usize,
    devices: Seq<D>,
    names: Seq<String>,
) -> bool {
    &&& devices.len() == names.len()
    &&& forall|i: int|
        0 <= i < devices.len() ==> open.ensures(
            (mtu,),
            Ok((#[trigger] devices[i], names[i])),
        )
}

impl<D> UtunReactor<D> {
    /// The devices that have no worker yet.
    pub closed spec fn idle(self) -> Seq<D> {
        self.devices@
    }

    /// The names of the interfaces.
    pub closed spec fn titles(self) -> Seq<String> {
        self.names@
    }

    /// A reactor with one device.
    pub fn single<F: Fn(usize) -> Result<(D, String), Error>>(mtu: usize, open: F) -> (r: Result<
        UtunReactor<D>,
        Error,
    >)
        requires
            open.requires((mtu,)),
        ensures
            r matches Ok(reactor) ==> reactor.idle().len() == 1 && all_opened(
                open,
                mtu,
                reactor.idle(),
                reactor.titles(),
            ),
            r matches Err(e) ==> open.ensures((mtu,), Err(e)),
    {
        Self::sharded(1, mtu, open)
    }

    /// A reactor with `shards` devices. Where one cannot be opened, its error is reported.
    pub fn sharded<F: Fn(usize) -> Result<(D, String), Error>>(
        shards: usize,
        mtu: usize,
        open: F,
    ) -> (r: Result<UtunReactor<D>, Error>)
        requires
            shards > 0,
            open.requires((mtu,)),
        ensures
            r matches Ok(reactor) ==> reactor.idle().len() == shards && all_opened(
                open,
                mtu,
                reactor.idle(),
                reactor.titles(),
            ),
            r matches Err(e) ==> open.ensures((mtu,), Err(e)),
    {
        let mut devices: Vec<D> = Vec::with_capacity(shards);
        let mut names: Vec<String> = Vec::with_capacity(shards);
        while devices.len() < shards
            invariant
                devices@.len() <= shards,
                open.requires((mtu,)),
                all_opened(open, mtu, devices@, names@),
            decreases shards - devices@.len(),
        {
            match open(mtu) {
                Err(e) => {
                    return Err(e);
                },
                Ok((device, name)) => {
                    let ghost before = devices@;
                    let ghost named = names@;
                    devices.push(device);
                    names.push(name);
                    assert forall|i: int| 0 <= i < devices@.len() implies open.ensures(
                        (mtu,),
                        Ok((#[trigger] devices@[i], names@[i])),
                    ) by {
                        if i < before.len() {
                            assert(devices@[i] == before[i]);
                            assert(names@[i] == named[i]);
                        }
                    }
                },
            }
        }
        Ok(UtunReactor { devices, names })
    }

    /// The names of the interfaces, one for each device.
    pub fn names(&self) -> (names: &[String])
        ensures
            names@ == self.titles(),
    {
        self.names.as_slice()
    }

    /// Hands the devices out to workers; the names stay.
    pub fn take_devices(&mut self) -> (devices: Vec<D>)
        ensures
            devices@ == old(self).idle(),
            final(self).idle() == Seq::<D>::empty(),
            final(self).titles() == old(self).titles(),
    {
        let mut devices: Vec<D> = Vec::new();
        std::mem::swap(&mut devices, &mut self.devices);
        devices
    }
}

/// The core that a worker prefers, of `cores`.
pub fn preferred_core(shard: usize, cores: usize) -> (core: usize)
    requires
        cores > 0,
    ensures
        core == shard % cores,
{
    shard % cores
}

/// The affinity tag of a core. Zero stands for no affinity, so the first core has tag 1.
pub fn affinity_tag(core: u32) -> (tag: u32)
    ensures
        tag == (core + 1) % 0x1_0000_0000,
{
    core.wrapping_add(1)
}

/// What a worker does next.
#[derive(Clone, Copy, Debug, PartialEq, Eq, Structural)]
pub enum ShardStep {
    Stop,
    Wait,
    /// Read what the kernel has, and hand it on.
    Drain,
}

/// What a worker does after waiting brought so many events. Where none came the time was
/// up, and it looks again whether to stop.
pub fn after_wait(stop: bool, events: usize) -> (step: ShardStep)
    ensures
        step == (if events > 0 {
            ShardStep::Drain
        } else if stop {
            ShardStep::Stop
        } else {
            ShardStep::Wait
        }),
{
    if events > 0 {
        ShardStep::Drain
    } else if stop {
        ShardStep::Stop
    } else {
        ShardStep::Wait
    }
}

/// Keeps the error of the worker that failed first.
pub fn keep_first(kept: Option<IoError>, error: IoError) -> (after: Option<IoError>)
    ensures
        after == match kept {
            Some(first) => Some(first),
            None => Some(error),
        },
{
    match kept {
        Some(first) => Some(first),
        None => Some(error),
    }
}

} // verus!

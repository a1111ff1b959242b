//! Deterministic single-thread fabric between simulated devices. Unicast transfers
//! packets without copying them; limited broadcast fans out with copies. The fabric
//! itself, with its exact behaviour, is [`fabric::Fabric`]; a [`Network`] shares one
//! between devices. What a handle finds there depends on all of them, so the contracts
//! here say what each call makes of the state that it finds, and what it leaves behind.
pub mod fabric;
pub mod laws;
pub mod order;

use std::cell::Cell;
use std::rc::Rc;

use vstd::cell::invcell::InvCell;
use vstd::predicate::Predicate;
use vstd::prelude::*;

use crate::addr::Ipv4Addr;
use crate::device::buffer_pool::Back;
use crate::device::{Device, PacketBuf};
use crate::error::IoError;
use crate::shared::{exchange, new_cell, same};
use crate::time::Duration;

pub use fabric::{Fabric, FabricState, FabricStats, Link};

verus! {

/// A shared fabric is well-formed.
pub struct FabricHolds;

impl Predicate<Fabric> for FabricHolds {
    open spec fn predicate(&self, v: Fabric) -> bool {
        v.inv()
    }
}

/// A port that was given up, and a link of the list of such ports.
struct Leaving {
    id: usize,
    next: Option<Box<Leaving>>,
}

impl Drop for Leaving {
    /// Unlinks the rest of the list one port at a time, so that a long list needs no
    /// deep recursion.
    fn drop(&mut self)
        opens_invariants none
        no_unwind
    {
        let mut rest: Option<Box<Leaving>> = None;
        std::mem::swap(&mut rest, &mut self.next);
        loop
            decreases rest,
        {
            match rest {
                None => {
                    break;
                },
                Some(mut leaving) => {
                    let mut next: Option<Box<Leaving>> = None;
                    std::mem::swap(&mut next, &mut leaving.next);
                    rest = next;
                },
            }
        }
    }
}

/// The ports in a list of ports that were given up.
spec fn given_up(list: Option<Box<Leaving>>) -> Seq<usize>
    decreases list,
{
    match list {
        None => Seq::empty(),
        Some(leaving) => seq![leaving.id] + given_up(leaving.next),
    }
}

/// Shuts the ports in a list of ports that were given up.
fn shut(fabric: &mut Fabric, list: Option<Box<Leaving>>)
    requires
        old(fabric).inv(),
    ensures
        final(fabric).inv(),
        final(fabric)@ == old(fabric)@.all_closed(given_up(list)),
{
    let ghost start = fabric@;
    let ghost all = given_up(list);
    let mut rest: Option<Box<Leaving>> = list;
    loop
        invariant_except_break
            fabric.inv(),
            fabric@.all_closed(given_up(rest)) == start.all_closed(all),
        ensures
            fabric.inv(),
            fabric@ == start.all_closed(all),
        decreases rest,
    {
        match rest {
            None => {
                break;
            },
            Some(mut leaving) => {
                let ghost ids = given_up(Some(leaving));
                let mut next: Option<Box<Leaving>> = None;
                std::mem::swap(&mut next, &mut leaving.next);
                assert(ids.skip(1) =~= given_up(next));
                if leaving.id < fabric.num_ports() {
                    fabric.close(leaving.id);
                }
                rest = next;
            },
        }
    }
}

/// A fabric that devices share.
pub struct Network {
    fabric: Rc<InvCell<Fabric, FabricHolds>>,
    leaving: Rc<Cell<Option<Box<Leaving>>>>,
}

impl Clone for Network {
    /// Another handle of the same fabric.
    fn clone(&self) -> (network: Network)
        ensures
            network == *self,
    {
        Network { fabric: self.fabric.clone(), leaving: self.leaving.clone() }
    }
}

impl Default for Network {
    /// A fabric without ports.
    fn default() -> (network: Network)
        ensures
            network.begins(FabricState::empty()),
    {
        let empty = Fabric::new();
        let ghost first = empty;
        let cell = InvCell::new(empty, Ghost(FabricHolds));
        let network = Network { fabric: Rc::new(cell), leaving: Rc::new(new_cell(None)) };
        assert(first@ == FabricState::empty());
        assert(call_ensures(
            InvCell::<Fabric, FabricHolds>::new,
            (first, Ghost(FabricHolds)),
            *network.fabric,
        ));
        network
    }
}

impl Network {
    /// Whether a handle finds `s` when it looks at the shared fabric: what the cell gives,
    /// with the ports shut that were given up. What the cell holds at that time depends on
    /// what all handles have done.
    pub closed spec fn shows(self, s: FabricState) -> bool {
        &&& s.wf()
        &&& exists|put: Fabric, held: Fabric, list: Option<Box<Leaving>>|
            {
                &&& #[trigger] call_ensures(
                    InvCell::<Fabric, FabricHolds>::replace,
                    (&*self.fabric, put),
                    held,
                )
                &&& #[trigger] call_ensures(
                    exchange::<Option<Box<Leaving>>>,
                    (&*self.leaving, None),
                    list,
                )
                &&& s == held@.all_closed(given_up(list))
            }
    }

    /// Whether a handle leaves `s` behind for the others to find.
    pub closed spec fn keeps(self, s: FabricState) -> bool {
        exists|fabric: Fabric|
            #[trigger] call_ensures(
                InvCell::<Fabric, FabricHolds>::set,
                (&*self.fabric, fabric),
                (),
            ) && fabric@ == s
    }

    /// Whether `s` is what the shared fabric was made with.
    pub closed spec fn begins(self, s: FabricState) -> bool {
        exists|fabric: Fabric|
            #[trigger] call_ensures(
                InvCell::<Fabric, FabricHolds>::new,
                (fabric, Ghost(FabricHolds)),
                *self.fabric,
            ) && fabric@ == s
    }

    /// What a handle finds is well-formed.
    pub broadcast proof fn lemma_shows(self, s: FabricState)
        requires
            #[trigger] self.shows(s),
        ensures
            s.wf(),
    {
    }

    /// Takes the fabric out of its cell and shuts the ports that were given up.
    fn enter(&self) -> (fabric: Fabric)
        ensures
            fabric.inv(),
            self.shows(fabric@),
    {
        let mut fabric = self.fabric.replace(Fabric::new());
        let list: Option<Box<Leaving>> = exchange(&self.leaving, None);
        shut(&mut fabric, list);
        proof {
            fabric.lemma_inv();
        }
        fabric
    }

    /// Puts the fabric back into its cell.
    fn leave(&self, fabric: Fabric)
        requires
            fabric.inv(),
        ensures
            self.keeps(fabric@),
    {
        self.fabric.set(fabric);
    }

    /// A port for one or more addresses, with frames of its own and a queue that counts
    /// ready and delayed packets alike. Whether an address is taken depends on the
    /// other ports of the fabric; see [`Fabric::port`].
    pub fn port(&self, addresses: &[Ipv4Addr], frames: usize, queue: usize) -> (r: Result<
        SimDevice,
        IoError,
    >)
        requires
            frames * fabric::FRAME + fabric::ALIGN - 1 <= isize::MAX,
        ensures
            r matches Err(e) ==> e == IoError::PortSpec,
            r matches Ok(device) ==> device.on(*self) && device.net() == *self && device.plugged(),
            exists|s: FabricState, t: FabricState|
                {
                    &&& #[trigger] self.shows(s)
                    &&& #[trigger] self.keeps(t)
                    &&& r is Ok <==> s.ports.len() < usize::MAX && fabric::admissible(
                        s,
                        addresses@,
                        frames as nat,
                        queue as nat,
                    )
                    &&& r is Err ==> t == s
                    &&& r matches Ok(device) ==> device.place() == s.ports.len() && t == s.opened(
                        addresses@,
                        frames as nat,
                        queue as nat,
                    )
                },
            frames == 0 || queue == 0 || addresses@.len() == 0 ==> r is Err,
            (exists|i: int| 0 <= i < addresses@.len() && !(#[trigger] addresses@[i]).unicasts())
                ==> r is Err,
    {
        let mut fabric = self.enter();
        if fabric.num_ports() == usize::MAX {
            self.leave(fabric);
            return Err(IoError::PortSpec);
        }
        let r = fabric.port(addresses, frames, queue);
        self.leave(fabric);
        match r {
            Err(e) => Err(e),
            Ok(id) => Ok(
                SimDevice {
                    network: self.clone(),
                    id,
                    note: Some(Box::new(Leaving { id, next: None })),
                },
            ),
        }
    }

    /// Changes the link from one device to another, both of them on this fabric.
    /// What it becomes is in [`Fabric::set_link`].
    pub fn set_link(&self, from: &SimDevice, to: &SimDevice, link: Link) -> (r: Result<(), IoError>)
        ensures
            r is Ok <==> from.on(*self) && to.on(*self),
            r matches Err(e) ==> e == IoError::ForeignPort,
            r is Ok ==> exists|s: FabricState, t: FabricState|
                {
                    &&& #[trigger] self.shows(s)
                    &&& #[trigger] self.keeps(t)
                    &&& t == s.linked(from.place(), to.place(), link)
                },
    {
        if !same(&self.leaving, &from.network.leaving) || !same(&self.leaving, &to.network.leaving) {
            return Err(IoError::ForeignPort);
        }
        let mut fabric = self.enter();
        fabric.set_link(from.id, to.id, link);
        self.leave(fabric);
        Ok(())
    }

    /// Lets time pass on the fabric.
    pub fn advance(&self, elapsed: Duration) -> (r: Result<(), IoError>)
        ensures
            r matches Err(e) ==> e == IoError::ClockOverflow,
            exists|s: FabricState, t: FabricState|
                {
                    &&& #[trigger] self.shows(s)
                    &&& #[trigger] self.keeps(t)
                    &&& r is Ok <==> s.now + elapsed@ <= crate::time::MAX_NANOS
                    &&& t == (if r is Ok {
                        s.later(elapsed@)
                    } else {
                        s
                    })
                },
            elapsed@ == 0 ==> r is Ok,
            elapsed@ > crate::time::MAX_NANOS ==> r is Err,
    {
        let mut fabric = self.enter();
        proof {
            fabric.lemma_inv();
        }
        let r = fabric.advance(elapsed);
        self.leave(fabric);
        r
    }

    /// What time it is on the fabric.
    pub fn now(&self) -> (now: Duration)
        ensures
            now@ <= crate::time::MAX_NANOS,
            exists|s: FabricState| #[trigger] self.shows(s) && self.keeps(s) && now@ == s.now,
    {
        let fabric = self.enter();
        proof {
            fabric.lemma_inv();
        }
        let now = fabric.now();
        self.leave(fabric);
        now
    }

    /// What has happened on the fabric: the counts that it shows.
    pub fn stats(&self) -> (stats: FabricStats)
        ensures
            exists|s: FabricState| #[trigger] self.shows(s) && self.keeps(s) && stats == s.stats,
    {
        let fabric = self.enter();
        let stats = fabric.stats();
        self.leave(fabric);
        stats
    }
}

/// A device on a fabric. Dropping it shuts its port.
pub struct SimDevice {
    network: Network,
    id: usize,
    note: Option<Box<Leaving>>,
}

impl Drop for SimDevice {
    /// Leaves a note that the port was given up, for the fabric to find.
    fn drop(&mut self)
        ensures
            !final(self).plugged(),
            old(self).plugged() ==> old(self).gives_up(),
        opens_invariants none
        no_unwind
    {
        self.give_up();
    }
}

impl SimDevice {
    /// Whether the device is on this network's fabric.
    pub closed spec fn on(self, network: Network) -> bool {
        self.network.leaving == network.leaving
    }

    /// The network whose fabric the device is on.
    pub closed spec fn net(self) -> Network {
        self.network
    }

    /// The number of the device's port.
    pub closed spec fn place(self) -> usize {
        self.id
    }

    /// Whether the device has a port to give up.
    pub closed spec fn plugged(self) -> bool {
        self.note is Some
    }

    /// Whether a note is left that the port was given up: put before the notes that had
    /// been left, none of which is lost.
    pub closed spec fn gives_up(self) -> bool {
        exists|note: Box<Leaving>, rest: Option<Box<Leaving>>, got: Option<Box<Leaving>>|
            {
                &&& #[trigger] call_ensures(
                    exchange::<Option<Box<Leaving>>>,
                    (&*self.network.leaving, None),
                    rest,
                )
                &&& #[trigger] call_ensures(
                    exchange::<Option<Box<Leaving>>>,
                    (&*self.network.leaving, Some(note)),
                    got,
                )
                &&& given_up(Some(note)) == seq![self.id] + given_up(rest)
            }
    }

    /// Leaves a note that the port was given up, for the fabric to find.
    fn give_up(&mut self)
        ensures
            !final(self).plugged(),
            old(self).plugged() ==> old(self).gives_up(),
        opens_invariants none
        no_unwind
    {
        let mut note: Option<Box<Leaving>> = None;
        std::mem::swap(&mut note, &mut self.note);
        match note {
            None => {},
            Some(mut leaving) => {
                leaving.id = self.id;
                leaving.next = exchange(&self.network.leaving, None);
                let ghost left = leaving;
                exchange(&self.network.leaving, Some(leaving));
                assert(given_up(Some(left)) == seq![left.id] + given_up(left.next));
            },
        }
    }

    /// How many packets wait for this device or are on their way to it: those that the
    /// fabric shows at the device's port.
    pub fn queued(&self) -> (n: usize)
        ensures
            exists|s: FabricState| #[trigger]
                self.net().shows(s) && self.net().keeps(s) && n == s.waiting(self.place()),
    {
        let fabric = self.network.enter();
        proof {
            assert(self.net().shows(fabric@));
        }
        let n: usize = if self.id < fabric.num_ports() {
            fabric.queued(self.id)
        } else {
            0
        };
        self.network.leave(fabric);
        n
    }
}

impl Device for SimDevice {
    open spec fn inv(&self) -> bool {
        true
    }

    open spec fn space(&self) -> nat {
        fabric::FRAME as nat
    }

    /// The fabric takes packets as [`Fabric::send`] says. It is an error exactly where the
    /// first packet is none that the fabric carries; none of those is ever taken.
    open spec fn sends(
        &self,
        ps: Seq<Seq<u8>>,
        r: Result<usize, IoError>,
        after: &Self,
    ) -> bool {
        &&& exists|s: FabricState, t: FabricState, back: Seq<Seq<Seq<Back>>>|
            {
                &&& self.net().shows(s)
                &&& self.net().keeps(t)
                &&& #[trigger] s.accepts(self.place(), ps, back, r, t)
            }
        &&& r is Err <==> ps.len() > 0 && !fabric::carries(ps[0])
        &&& r matches Err(e) ==> e == IoError::NotIpv4
        &&& r matches Ok(n) ==> n <= ps.len() && forall|i: int|
            0 <= i < n ==> fabric::carries(#[trigger] ps[i])
        &&& *after == *self
    }

    /// The fabric hands over packets that have arrived, as [`Fabric::recv`] says.
    open spec fn receives(
        &self,
        max: nat,
        r: Result<usize, IoError>,
        ps: Seq<Seq<u8>>,
        after: &Self,
    ) -> bool {
        &&& exists|s: FabricState, t: FabricState|
            {
                &&& self.net().shows(s)
                &&& self.net().keeps(t)
                &&& #[trigger] s.hands_over(self.place(), max, ps, t)
            }
        &&& r is Ok && r->Ok_0 == ps.len()
        &&& *after == *self
    }

    /// The device's port gives a frame, as [`Fabric::allocate`] says.
    open spec fn gives(&self, frame: Option<PacketBuf>, after: &Self) -> bool {
        &&& exists|s: FabricState, t: FabricState, back: Seq<Back>|
            {
                &&& self.net().shows(s)
                &&& self.net().keeps(t)
                &&& #[trigger] s.supplies(self.place(), back, frame, t)
            }
        &&& frame matches Some(buf) ==> buf.frame().len() == fabric::FRAME
        &&& *after == *self
    }

    /// Receives packets that have arrived; see [`Fabric::recv`]. Which ones these are
    /// depends on the fabric.
    fn recv(&mut self, max: usize, out: &mut Vec<PacketBuf>) -> (r: Result<usize, IoError>)
        ensures
            r is Ok,
            forall|i: int|
                0 <= i < final(out)@.len() ==> fabric::carries((#[trigger] final(out)@[i])@),
    {
        let mut fabric = self.network.enter();
        let ghost s = fabric@;
        let n: usize = if self.id < fabric.num_ports() {
            proof {
                laws::law_receptions_are_due(fabric@, self.id, max as nat);
            }
            fabric.recv(self.id, max, out)
        } else {
            out.clear();
            0
        };
        let ghost t = fabric@;
        self.network.leave(fabric);
        proof {
            assert(self.net().shows(s) && self.net().keeps(t));
            assert(s.hands_over(self.place(), max as nat, fabric::packets(out@), t));
        }
        Ok(n)
    }

    /// Sends a prefix of the frames; see [`Fabric::send`]. How many are taken depends on
    /// the fabric; those that it does not carry never are.
    fn send(&mut self, frames: &mut [PacketBuf]) -> (r: Result<usize, IoError>)
        ensures
            r is Err <==> old(frames)@.len() > 0 && !fabric::carries(old(frames)@[0]@),
            r matches Err(e) ==> e == IoError::NotIpv4,
            r matches Ok(n) ==> forall|i: int|
                0 <= i < n ==> fabric::carries((#[trigger] old(frames)@[i])@),
    {
        let mut fabric = self.network.enter();
        let ghost s = fabric@;
        let ghost ps = fabric::packets(frames@);
        let r = if self.id < fabric.num_ports() {
            fabric.send(self.id, frames)
        } else if frames.len() > 0 && !fabric::is_carried(&frames[0]) {
            Err(IoError::NotIpv4)
        } else {
            Ok(0)
        };
        let ghost t = fabric@;
        self.network.leave(fabric);
        proof {
            let back = if self.id < s.ports.len() {
                choose|back: Seq<Seq<Seq<Back>>>| #[trigger] s.sending(self.id, ps, back, r, t)
            } else {
                Seq::empty()
            };
            assert(self.net().shows(s) && self.net().keeps(t));
            assert(s.accepts(self.place(), ps, back, r, t));
        }
        r
    }

    /// An empty frame of this device, if the fabric has a free one at its port; see
    /// [`Fabric::allocate`].
    fn allocate(&mut self) -> (frame: Option<PacketBuf>) {
        let mut fabric = self.network.enter();
        let ghost s = fabric@;
        let frame = if self.id < fabric.num_ports() {
            fabric.allocate(self.id)
        } else {
            None
        };
        let ghost t = fabric@;
        self.network.leave(fabric);
        proof {
            let back = if self.id < s.ports.len() {
                choose|back: Seq<Back>| #[trigger] s.supplies(self.id, back, frame, t)
            } else {
                Seq::empty()
            };
            assert(self.net().shows(s) && self.net().keeps(t));
            assert(s.supplies(self.place(), back, frame, t));
        }
        frame
    }

    fn frame_size(&self) -> (n: usize) {
        fabric::FRAME
    }
}

} // verus!

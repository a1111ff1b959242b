//! The default XDP program, how it is attached, and the netlink messages for kernels
//! that need them.
use vstd::prelude::*;

use super::sys::{
    registers, BpfInsn, BPF_PSEUDO_MAP_FD, BPF_PSEUDO_MAP_VALUE, BPF_REDIRECT_MAP,
    XDP_FLAGS_DRV_MODE, XDP_FLAGS_SKB_MODE,
};
use crate::errno::Errno;
use crate::error::IoError;

verus! {

/// How the default program ended up attached.
#[derive(Clone, Copy, Debug, PartialEq, Eq, Structural)]
pub enum AttachMode {
    /// Not attached, as was asked for.
    Detached,
    /// In the driver.
    Driver,
    /// In the generic path.
    Generic,
    /// Something else was attached already and was left alone.
    AlreadyAttached,
}

/// The default program: packets pass until a socket is installed, and are then
/// redirected to the socket of the queue that they arrived on.
pub open spec fn default_insns(refcnt_fd: u32, map_fd: u32) -> Seq<BpfInsn> {
    seq![
        // r0 = pass
        BpfInsn { code: 0xB7, dst_src: 0, off: 0, imm: 2 },
        // r2 = the address of the count of sockets
        BpfInsn {
            code: 0x18,
            dst_src: registers(2, BPF_PSEUDO_MAP_VALUE),
            off: 0,
            imm: refcnt_fd as i32,
        },
        BpfInsn { code: 0, dst_src: 0, off: 0, imm: 0 },
        // r2 = the count of sockets; none: to the end
        BpfInsn { code: 0x61, dst_src: registers(2, 2), off: 0, imm: 0 },
        BpfInsn { code: 0x15, dst_src: 2, off: 5, imm: 0 },
        // r2 = the queue
        BpfInsn { code: 0x61, dst_src: registers(2, 1), off: 16, imm: 0 },
        // r1 = the map of sockets
        BpfInsn {
            code: 0x18,
            dst_src: registers(1, BPF_PSEUDO_MAP_FD),
            off: 0,
            imm: map_fd as i32,
        },
        BpfInsn { code: 0, dst_src: 0, off: 0, imm: 0 },
        // r3 = pass where there is no socket
        BpfInsn { code: 0xB7, dst_src: 3, off: 0, imm: 2 },
        BpfInsn { code: 0x85, dst_src: 0, off: 0, imm: BPF_REDIRECT_MAP },
        BpfInsn { code: 0x95, dst_src: 0, off: 0, imm: 0 },
    ]
}

/// Assembles the default program.
pub fn default_program(refcnt_fd: u32, map_fd: u32) -> (insns: Vec<BpfInsn>)
    ensures
        insns@ == default_insns(refcnt_fd, map_fd),
{
    let mut insns: Vec<BpfInsn> = Vec::with_capacity(11);
    insns.push(BpfInsn::mov64_imm(0, 2));
    let count = BpfInsn::ld_map_value(2, refcnt_fd, 0);
    insns.push(count[0]);
    insns.push(count[1]);
    insns.push(BpfInsn::ldx_w(2, 2, 0));
    insns.push(BpfInsn::jeq_imm(2, 0, 5));
    insns.push(BpfInsn::ldx_w(2, 1, 16));
    let map = BpfInsn::ld_map_fd(1, map_fd);
    insns.push(map[0]);
    insns.push(map[1]);
    insns.push(BpfInsn::mov64_imm(3, 2));
    insns.push(BpfInsn::call(BPF_REDIRECT_MAP));
    insns.push(BpfInsn::exit());
    assert(insns@ =~= default_insns(refcnt_fd, map_fd));
    insns
}

/// What a register of the machine holds.
pub enum Value {
    Nothing,
    Number(int),
    /// Where the packet's context lies.
    Context,
    /// A map, by its file descriptor.
    Table(i32),
    /// Where an element of an array map lies.
    Element(i32, int),
    /// That the packet goes to an entry of a map, or else where the flags say.
    Redirect(i32, int, int),
}

/// What the machine finds in the world: the words of array maps and of the context.
pub struct World {
    pub element: spec_fn(i32, int) -> int,
    pub context: spec_fn(int) -> int,
}

/// What a program comes to: the instructions that the default program uses, run from
/// instruction `pc` for at most `fuel` steps.
pub open spec fn run(
    program: Seq<BpfInsn>,
    pc: int,
    regs: Seq<Value>,
    world: World,
    fuel: nat,
) -> Value
    decreases fuel,
{
    let insn = program[pc];
    let dst = (insn.dst_src % 16) as int;
    let src = (insn.dst_src / 16) as int;
    if fuel == 0 || !(0 <= pc < program.len()) {
        Value::Nothing
    } else if insn.code == 0x95 {
        regs[0]
    } else if insn.code == 0xB7 {
        run(
            program,
            pc + 1,
            regs.update(dst, Value::Number(insn.imm as int)),
            world,
            (fuel - 1) as nat,
        )
    } else if insn.code == 0x18 {
        let loaded = if src == BPF_PSEUDO_MAP_FD {
            Value::Table(insn.imm)
        } else if src == BPF_PSEUDO_MAP_VALUE {
            Value::Element(insn.imm, program[pc + 1].imm as int)
        } else {
            Value::Nothing
        };
        run(program, pc + 2, regs.update(dst, loaded), world, (fuel - 1) as nat)
    } else if insn.code == 0x61 {
        let loaded = match regs[src] {
            Value::Element(map, at) => Value::Number((world.element)(map, at + insn.off)),
            Value::Context => Value::Number((world.context)(insn.off as int)),
            _ => Value::Nothing,
        };
        run(program, pc + 1, regs.update(dst, loaded), world, (fuel - 1) as nat)
    } else if insn.code == 0x15 {
        let next = if regs[dst] == Value::Number(insn.imm as int) {
            pc + 1 + insn.off
        } else {
            pc + 1
        };
        run(program, next, regs, world, (fuel - 1) as nat)
    } else if insn.code == 0x85 && insn.imm == BPF_REDIRECT_MAP {
        let answer = match (regs[1], regs[2], regs[3]) {
            (Value::Table(map), Value::Number(key), Value::Number(flags)) => Value::Redirect(
                map,
                key,
                flags,
            ),
            _ => Value::Nothing,
        };
        run(program, pc + 1, regs.update(0, answer), world, (fuel - 1) as nat)
    } else {
        Value::Nothing
    }
}

/// The registers when a program starts: the second one holds the context.
pub open spec fn start() -> Seq<Value> {
    Seq::new(
        11,
        |i: int|
            if i == 1 {
                Value::Context
            } else {
                Value::Nothing
            },
    )
}

/// The default program lets every packet pass while no socket is installed, and then
/// redirects it to the socket of its queue, or lets it pass where there is none.
pub proof fn law_default_program(refcnt_fd: u32, map_fd: u32, world: World)
    ensures
        run(default_insns(refcnt_fd, map_fd), 0, start(), world, 10) == (if (world.element)(
            refcnt_fd as i32,
            0,
        ) == 0 {
            Value::Number(2)
        } else {
            Value::Redirect(map_fd as i32, (world.context)(16), 2)
        }),
{
    let program = default_insns(refcnt_fd, map_fd);
    super::sys::law_registers_are_separate(2, BPF_PSEUDO_MAP_VALUE);
    super::sys::law_registers_are_separate(2, 2);
    super::sys::law_registers_are_separate(2, 1);
    super::sys::law_registers_are_separate(1, BPF_PSEUDO_MAP_FD);
    reveal_with_fuel(run, 11);
}

/// Asks the kernel to fail where a program is attached already.
pub const XDP_FLAGS_UPDATE_IF_NOEXIST: u32 = 1;

/// One way of attaching a program.
#[derive(Clone, Copy, Debug, PartialEq, Eq, Structural)]
pub enum Attempt {
    /// By a link in this mode; closing it detaches the program.
    Link(u32),
    /// By a netlink message with this mode, and only where nothing is attached.
    Netlink(u32),
}

/// What to do next.
#[derive(Clone, Copy, Debug, PartialEq, Eq, Structural)]
pub enum AttachStep {
    /// Try this.
    Try(Attempt),
    /// The program is attached, or another one was; the mode that has to be undone by
    /// hand, if any.
    Done(AttachMode, Option<u32>),
    /// Attaching failed with this error.
    Failed(IoError),
}

/// How far attaching has come.
#[derive(Clone, Copy, Debug, PartialEq, Eq, Structural)]
pub struct Attaching {
    pub prefer_generic: bool,
    pub tried: usize,
}

impl Attaching {
    /// How many modes there are to try.
    pub open spec fn modes(self) -> nat {
        if self.prefer_generic {
            1
        } else {
            2
        }
    }

    /// The mode number `i`: the generic one alone where it is preferred, and otherwise
    /// the driver's first.
    pub open spec fn mode(self, i: int) -> u32 {
        if self.prefer_generic || i == 1 {
            XDP_FLAGS_SKB_MODE
        } else {
            XDP_FLAGS_DRV_MODE
        }
    }

    /// Something is left to try.
    pub open spec fn inv(self) -> bool {
        self.tried < 2 * self.modes()
    }

    /// What is tried next: every mode by a link, and then every mode by netlink.
    pub open spec fn attempt(self) -> Attempt {
        if self.tried < self.modes() {
            Attempt::Link(self.mode(self.tried as int))
        } else {
            Attempt::Netlink(self.mode(self.tried - self.modes()))
        }
    }

    /// What follows from the outcome of the attempt. Another program that is attached
    /// is left alone. A mode that links do not support is passed over; every failure by
    /// netlink is, until nothing is left.
    pub open spec fn follows(self, outcome: Result<(), i32>, errno: Errno) -> AttachStep {
        let mode = match self.attempt() {
            Attempt::Link(mode) => mode,
            Attempt::Netlink(mode) => mode,
        };
        let by_link = self.attempt() is Link;
        let next = Attaching { tried: (self.tried + 1) as usize, ..self };
        match outcome {
            Ok(_) => AttachStep::Done(
                if mode == XDP_FLAGS_SKB_MODE {
                    AttachMode::Generic
                } else {
                    AttachMode::Driver
                },
                if by_link {
                    None
                } else {
                    Some(mode)
                },
            ),
            Err(e) => if e == errno.exists {
                AttachStep::Done(AttachMode::AlreadyAttached, None)
            } else if by_link && e != errno.unsupported && e != errno.invalid {
                AttachStep::Failed(IoError::Os(e))
            } else if next.inv() {
                AttachStep::Try(next.attempt())
            } else {
                AttachStep::Failed(IoError::Os(e))
            },
        }
    }

    /// The beginning.
    pub fn begin(prefer_generic: bool) -> (attaching: Attaching)
        ensures
            attaching.inv(),
            attaching == (Attaching { prefer_generic, tried: 0 }),
    {
        Attaching { prefer_generic, tried: 0 }
    }

    /// What is tried next.
    pub fn next_attempt(&self) -> (attempt: Attempt)
        requires
            self.inv(),
        ensures
            attempt == self.attempt(),
    {
        let modes: usize = if self.prefer_generic {
            1
        } else {
            2
        };
        let by_link: bool = self.tried < modes;
        let i: usize = if by_link {
            self.tried
        } else {
            self.tried - modes
        };
        let mode: u32 = if self.prefer_generic || i == 1 {
            XDP_FLAGS_SKB_MODE
        } else {
            XDP_FLAGS_DRV_MODE
        };
        if by_link {
            Attempt::Link(mode)
        } else {
            Attempt::Netlink(mode)
        }
    }

    /// What to do after the attempt had this outcome: success, or an error number.
    pub fn answer(&mut self, outcome: Result<(), i32>, errno: Errno) -> (step: AttachStep)
        requires
            old(self).inv(),
        ensures
            step == old(self).follows(outcome, errno),
            step is Try ==> final(self).inv() && *final(self) == (Attaching {
                tried: (old(self).tried + 1) as usize,
                ..*old(self)
            }) && step == AttachStep::Try(final(self).attempt()),
            !(step is Try) ==> *final(self) == *old(self),
    {
        let (mode, by_link): (u32, bool) = match self.next_attempt() {
            Attempt::Link(mode) => (mode, true),
            Attempt::Netlink(mode) => (mode, false),
        };
        match outcome {
            Ok(()) => {
                let how = if mode == XDP_FLAGS_SKB_MODE {
                    AttachMode::Generic
                } else {
                    AttachMode::Driver
                };
                AttachStep::Done(
                    how,
                    if by_link {
                        None
                    } else {
                        Some(mode)
                    },
                )
            },
            Err(e) => {
                if e == errno.exists {
                    return AttachStep::Done(AttachMode::AlreadyAttached, None);
                }
                if by_link && e != errno.unsupported && e != errno.invalid {
                    return AttachStep::Failed(IoError::Os(e));
                }
                let total: usize = if self.prefer_generic {
                    2
                } else {
                    4
                };
                if self.tried + 1 < total {
                    self.tried = self.tried + 1;
                    AttachStep::Try(self.next_attempt())
                } else {
                    AttachStep::Failed(IoError::Os(e))
                }
            },
        }
    }
}

/// Attaching ends: every outcome either ends it or leaves fewer attempts, and there
/// are at most four.
pub proof fn law_attaching_ends(a: Attaching, outcome: Result<(), i32>, errno: Errno)
    requires
        a.inv(),
    ensures
        a.follows(outcome, errno) is Try ==> (Attaching { tried: (a.tried + 1) as usize, ..a }).inv(),
        a.tried < 4,
{
}

/// A preference for the generic mode is kept: no other mode is ever tried.
pub proof fn law_generic_stays_generic(a: Attaching)
    requires
        a.inv(),
        a.prefer_generic,
    ensures
        a.attempt() == Attempt::Link(XDP_FLAGS_SKB_MODE) || a.attempt() == Attempt::Netlink(
            XDP_FLAGS_SKB_MODE,
        ),
{
}

/// Attaching tries the driver's mode before the generic one, unless the generic one is
/// preferred and so the only one, and tries all of them by a link before any by netlink.
/// The modes have the numbers 4 and 2.
pub proof fn law_attempts_are_made_in_order(a: Attaching)
    requires
        a.inv(),
    ensures
        a.prefer_generic ==> a.attempt() == (if a.tried == 0 {
            Attempt::Link(2)
        } else {
            Attempt::Netlink(2)
        }),
        !a.prefer_generic ==> a.attempt() == (if a.tried == 0 {
            Attempt::Link(4)
        } else if a.tried == 1 {
            Attempt::Link(2)
        } else if a.tried == 2 {
            Attempt::Netlink(4)
        } else {
            Attempt::Netlink(2)
        }),
        a.tried < (if a.prefer_generic {
            2int
        } else {
            4
        }),
{
}

/// Success is in the mode that was tried; by netlink it has to be undone in that mode.
/// Another program is left alone. By a link, only that a mode is not supported leads on;
/// by netlink every failure does, until nothing is left to try.
pub proof fn law_attempts_lead_on(a: Attaching, error: i32, errno: Errno)
    requires
        a.inv(),
        errno.distinct(),
    ensures
        ({
            let last = if a.prefer_generic {
                1int
            } else {
                3
            };
            let by_link = a.tried < (last + 1) / 2;
            let generic = a.prefer_generic || a.tried % 2 == 1;
            &&& a.follows(Ok(()), errno) == AttachStep::Done(
                if generic {
                    AttachMode::Generic
                } else {
                    AttachMode::Driver
                },
                if by_link {
                    None
                } else if generic {
                    Some(2u32)
                } else {
                    Some(4u32)
                },
            )
            &&& error == errno.exists ==> a.follows(Err(error), errno) == AttachStep::Done(
                AttachMode::AlreadyAttached,
                None,
            )
            &&& error != errno.exists ==> (a.follows(Err(error), errno) is Try <==> a.tried < last && (
            !by_link || error == errno.unsupported || error == errno.invalid))
            &&& error != errno.exists && !(a.follows(Err(error), errno) is Try) ==> a.follows(
                Err(error),
                errno,
            ) == AttachStep::Failed(IoError::Os(error))
        }),
{
}

} // verus!

//! Constants, records, and instruction encodings of the kernel's AF_XDP and BPF
//! interfaces.
use vstd::prelude::*;

verus! {

pub const AF_XDP: i32 = 44;

pub const SOL_XDP: i32 = 283;

/// Socket options.
pub const XDP_MMAP_OFFSETS: i32 = 1;

pub const XDP_RX_RING: i32 = 2;

pub const XDP_TX_RING: i32 = 3;

pub const XDP_UMEM_REG: i32 = 4;

pub const XDP_UMEM_FILL_RING: i32 = 5;

pub const XDP_UMEM_COMPLETION_RING: i32 = 6;

pub const XDP_STATISTICS: i32 = 7;

pub const XDP_OPTIONS: i32 = 8;

/// Flags of a bind request.
pub const XDP_SHARED_UMEM: u16 = 1;

pub const XDP_COPY: u16 = 2;

pub const XDP_ZEROCOPY: u16 = 4;

pub const XDP_USE_NEED_WAKEUP: u16 = 8;

/// Flags of an arena.
pub const XDP_UMEM_UNALIGNED_CHUNK_FLAG: u32 = 1;

/// Flags of `XDP_OPTIONS`.
pub const XDP_OPTIONS_ZEROCOPY: u32 = 1;

/// Flags in the header of a ring.
pub const XDP_RING_NEED_WAKEUP: u32 = 1;

/// File offsets that select a ring to map.
pub const XDP_PGOFF_RX_RING: i64 = 0;

pub const XDP_PGOFF_TX_RING: i64 = 0x80000000;

pub const XDP_UMEM_PGOFF_FILL_RING: i64 = 0x100000000;

pub const XDP_UMEM_PGOFF_COMPLETION_RING: i64 = 0x180000000;

/// Registers an arena.
#[derive(Clone, Copy, Debug, Default, PartialEq, Eq, Structural)]
pub struct XdpUmemReg {
    pub addr: u64,
    pub len: u64,
    pub chunk_size: u32,
    pub headroom: u32,
    pub flags: u32,
    pub tx_metadata_len: u32,
}

/// A descriptor of the RX and TX rings.
#[derive(Clone, Copy, Debug, Default, PartialEq, Eq, Structural)]
pub struct XdpDesc {
    pub addr: u64,
    pub len: u32,
    pub options: u32,
}

/// Where the parts of one ring lie in its mapping.
#[derive(Clone, Copy, Debug, Default, PartialEq, Eq, Structural)]
pub struct XdpRingOffset {
    pub producer: u64,
    pub consumer: u64,
    pub desc: u64,
    pub flags: u64,
}

/// Where the parts of all rings lie in their mappings.
#[derive(Clone, Copy, Debug, Default, PartialEq, Eq, Structural)]
pub struct XdpMmapOffsets {
    pub rx: XdpRingOffset,
    pub tx: XdpRingOffset,
    pub fr: XdpRingOffset,
    pub cr: XdpRingOffset,
}

/// What a socket was bound with.
#[derive(Clone, Copy, Debug, Default, PartialEq, Eq, Structural)]
pub struct XdpOptions {
    pub flags: u32,
}

/// What the kernel has counted.
#[derive(Clone, Copy, Debug, Default, PartialEq, Eq, Structural)]
pub struct XdpStatistics {
    pub rx_dropped: u64,
    pub rx_invalid_descs: u64,
    pub tx_invalid_descs: u64,
    pub rx_ring_full: u64,
    pub rx_fill_ring_empty_descs: u64,
    pub tx_ring_empty_descs: u64,
}

/// The address to bind to: an interface and one of its queues.
#[derive(Clone, Copy, Debug, PartialEq, Eq, Structural)]
pub struct SockAddrXdp {
    pub family: u16,
    pub flags: u16,
    pub ifindex: u32,
    pub queue_id: u32,
    pub shared_umem_fd: u32,
}

/// Commands of `bpf(2)`.
pub const BPF_MAP_CREATE: i32 = 0;

pub const BPF_MAP_UPDATE_ELEM: i32 = 2;

pub const BPF_PROG_LOAD: i32 = 5;

pub const BPF_LINK_CREATE: i32 = 28;

/// The attach type of an XDP program, and its modes.
pub const BPF_XDP: u32 = 37;

pub const XDP_FLAGS_SKB_MODE: u32 = 2;

pub const XDP_FLAGS_DRV_MODE: u32 = 4;

pub const BPF_MAP_TYPE_XSKMAP: u32 = 17;

pub const BPF_MAP_TYPE_ARRAY: u32 = 2;

pub const BPF_PROG_TYPE_XDP: u32 = 6;

/// What the second half of a wide load refers to.
pub const BPF_PSEUDO_MAP_FD: u8 = 1;

pub const BPF_PSEUDO_MAP_VALUE: u8 = 2;

/// The helper that redirects a packet to an entry of a map.
pub const BPF_REDIRECT_MAP: i32 = 51;

/// An instruction. `dst_src` holds the destination register in its low half and the
/// source register in its high half.
#[derive(Clone, Copy, Debug, PartialEq, Eq, Structural)]
pub struct BpfInsn {
    pub code: u8,
    pub dst_src: u8,
    pub off: i16,
    pub imm: i32,
}

/// Two registers in one byte.
pub open spec fn registers(dst: u8, src: u8) -> u8 {
    dst | (src << 4u8)
}

/// The registers of an instruction can be told apart again.
pub proof fn law_registers_are_separate(dst: u8, src: u8)
    requires
        dst < 16,
        src < 16,
    ensures
        registers(dst, src) % 16 == dst,
        registers(dst, src) / 16 == src,
{
    assert((dst | (src << 4u8)) % 16 == dst && (dst | (src << 4u8)) / 16 == src) by (bit_vector)
        requires
            dst < 16,
            src < 16,
    ;
}

impl BpfInsn {
    /// Loads a number into a register.
    pub fn mov64_imm(dst: u8, imm: i32) -> (insn: BpfInsn)
        ensures
            insn == (BpfInsn { code: 0xB7, dst_src: dst, off: 0, imm }),
    {
        BpfInsn { code: 0xB7, dst_src: dst, off: 0, imm }
    }

    /// Skips `off` instructions where a register holds `imm`.
    pub fn jeq_imm(dst: u8, imm: i32, off: i16) -> (insn: BpfInsn)
        ensures
            insn == (BpfInsn { code: 0x15, dst_src: dst, off, imm }),
    {
        BpfInsn { code: 0x15, dst_src: dst, off, imm }
    }

    /// Loads the word at `off` from where a register points.
    pub fn ldx_w(dst: u8, src: u8, off: i16) -> (insn: BpfInsn)
        ensures
            insn == (BpfInsn { code: 0x61, dst_src: registers(dst, src), off, imm: 0 }),
    {
        BpfInsn { code: 0x61, dst_src: dst | (src << 4u8), off, imm: 0 }
    }

    /// Loads a map: two instructions.
    pub fn ld_map_fd(dst: u8, fd: u32) -> (insns: [BpfInsn; 2])
        ensures
            insns@ == seq![
                BpfInsn {
                    code: 0x18,
                    dst_src: registers(dst, BPF_PSEUDO_MAP_FD),
                    off: 0,
                    imm: fd as i32,
                },
                BpfInsn { code: 0, dst_src: 0, off: 0, imm: 0 },
            ],
    {
        let insns = [
            BpfInsn { code: 0x18, dst_src: dst | (BPF_PSEUDO_MAP_FD << 4u8), off: 0, imm: fd as i32 },
            BpfInsn { code: 0, dst_src: 0, off: 0, imm: 0 },
        ];
        assert(insns@ =~= seq![
            BpfInsn {
                code: 0x18,
                dst_src: registers(dst, BPF_PSEUDO_MAP_FD),
                off: 0,
                imm: fd as i32,
            },
            BpfInsn { code: 0, dst_src: 0, off: 0, imm: 0 },
        ]);
        insns
    }

    /// Loads the address of the element at `offset` of an array map: two instructions.
    pub fn ld_map_value(dst: u8, fd: u32, offset: u32) -> (insns: [BpfInsn; 2])
        ensures
            insns@ == seq![
                BpfInsn {
                    code: 0x18,
                    dst_src: registers(dst, BPF_PSEUDO_MAP_VALUE),
                    off: 0,
                    imm: fd as i32,
                },
                BpfInsn { code: 0, dst_src: 0, off: 0, imm: offset as i32 },
            ],
    {
        let insns = [
            BpfInsn {
                code: 0x18,
                dst_src: dst | (BPF_PSEUDO_MAP_VALUE << 4u8),
                off: 0,
                imm: fd as i32,
            },
            BpfInsn { code: 0, dst_src: 0, off: 0, imm: offset as i32 },
        ];
        assert(insns@ =~= seq![
            BpfInsn {
                code: 0x18,
                dst_src: registers(dst, BPF_PSEUDO_MAP_VALUE),
                off: 0,
                imm: fd as i32,
            },
            BpfInsn { code: 0, dst_src: 0, off: 0, imm: offset as i32 },
        ]);
        insns
    }

    /// Calls a helper.
    pub fn call(helper: i32) -> (insn: BpfInsn)
        ensures
            insn == (BpfInsn { code: 0x85, dst_src: 0, off: 0, imm: helper }),
    {
        BpfInsn { code: 0x85, dst_src: 0, off: 0, imm: helper }
    }

    /// Ends the program.
    pub fn exit() -> (insn: BpfInsn)
        ensures
            insn == (BpfInsn { code: 0x95, dst_src: 0, off: 0, imm: 0 }),
    {
        BpfInsn { code: 0x95, dst_src: 0, off: 0, imm: 0 }
    }
}

/// The name of a program as the kernel takes it: at most 16 bytes, the rest zero.
pub fn program_name(name: &[u8]) -> (field: [u8; 16])
    ensures
        forall|i: int|
            0 <= i < 16 ==> #[trigger] field@[i] == (if i < name@.len() {
                name@[i]
            } else {
                0
            }),
{
    let mut field: [u8; 16] = [0; 16];
    let mut i: usize = 0;
    while i < 16 && i < name.len()
        invariant
            i <= 16,
            i <= name@.len(),
            forall|j: int|
                0 <= j < 16 ==> #[trigger] field@[j] == (if j < i {
                    name@[j]
                } else {
                    0
                }),
        decreases 16 - i,
    {
        field[i] = name[i];
        i += 1;
    }
    field
}

} // verus!

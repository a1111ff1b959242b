//! The netlink messages that attach an XDP program where links are not available.
//! Numbers are in the byte order of the machine.
use vstd::prelude::*;

use super::prog::XDP_FLAGS_UPDATE_IF_NOEXIST;
use crate::error::IoError;

verus! {

pub const RTM_SETLINK: u16 = 19;

/// A request that is to be acknowledged.
pub const REQUEST_WITH_ACK: u16 = 5;

pub const NLMSG_ERROR: u16 = 2;

pub const IFLA_XDP: u16 = 43;

pub const IFLA_XDP_FD: u16 = 1;

pub const IFLA_XDP_FLAGS: u16 = 3;

pub const IFLA_XDP_EXPECTED_FD: u16 = 6;

/// Asks the kernel to replace one program only, the one that is expected.
pub const XDP_FLAGS_REPLACE: u32 = 16;

/// The length of a message header.
pub const HEADER: usize = 16;

/// The order of the bytes of a number in memory.
#[derive(Clone, Copy, Debug, PartialEq, Eq, Structural)]
pub enum ByteOrder {
    Little,
    Big,
}

/// The bytes of `v`.
pub open spec fn bytes16(order: ByteOrder, v: u16) -> Seq<u8> {
    match order {
        ByteOrder::Little => seq![(v % 256) as u8, (v / 256) as u8],
        ByteOrder::Big => seq![(v / 256) as u8, (v % 256) as u8],
    }
}

/// The bytes of `v`.
pub open spec fn bytes32(order: ByteOrder, v: u32) -> Seq<u8> {
    let (lo, hi) = ((v % 65536) as u16, (v / 65536) as u16);
    match order {
        ByteOrder::Little => bytes16(order, lo) + bytes16(order, hi),
        ByteOrder::Big => bytes16(order, hi) + bytes16(order, lo),
    }
}

/// The number in the two bytes at `i`.
pub open spec fn num16(order: ByteOrder, s: Seq<u8>, i: int) -> int {
    match order {
        ByteOrder::Little => s[i] + s[i + 1] * 256,
        ByteOrder::Big => s[i] * 256 + s[i + 1],
    }
}

/// The number in the four bytes at `i`.
pub open spec fn num32(order: ByteOrder, s: Seq<u8>, i: int) -> int {
    match order {
        ByteOrder::Little => num16(order, s, i) + num16(order, s, i + 2) * 65536,
        ByteOrder::Big => num16(order, s, i) * 65536 + num16(order, s, i + 2),
    }
}

/// A number is read back from its bytes.
pub proof fn law_numbers_are_read_back(order: ByteOrder, v: u32)
    ensures
        bytes32(order, v).len() == 4,
        num32(order, bytes32(order, v), 0) == v,
{
    let s = bytes32(order, v);
    let (lo, hi) = ((v % 65536) as u16, (v / 65536) as u16);
    match order {
        ByteOrder::Little => {
            assert(s[0] == bytes16(order, lo)[0] && s[1] == bytes16(order, lo)[1]);
            assert(s[2] == bytes16(order, hi)[0] && s[3] == bytes16(order, hi)[1]);
        },
        ByteOrder::Big => {
            assert(s[0] == bytes16(order, hi)[0] && s[1] == bytes16(order, hi)[1]);
            assert(s[2] == bytes16(order, lo)[0] && s[3] == bytes16(order, lo)[1]);
        },
    }
}

/// Appends the bytes of `v`.
fn push16(order: ByteOrder, out: &mut Vec<u8>, v: u16)
    ensures
        final(out)@ == old(out)@ + bytes16(order, v),
{
    let ghost before = out@;
    match order {
        ByteOrder::Little => {
            out.push((v % 256) as u8);
            out.push((v / 256) as u8);
        },
        ByteOrder::Big => {
            out.push((v / 256) as u8);
            out.push((v % 256) as u8);
        },
    }
    assert(out@ =~= before + bytes16(order, v));
}

/// Appends the bytes of `v`.
fn push32(order: ByteOrder, out: &mut Vec<u8>, v: u32)
    ensures
        final(out)@ == old(out)@ + bytes32(order, v),
{
    let ghost before = out@;
    let lo: u16 = (v % 65536) as u16;
    let hi: u16 = (v / 65536) as u16;
    match order {
        ByteOrder::Little => {
            push16(order, out, lo);
            push16(order, out, hi);
        },
        ByteOrder::Big => {
            push16(order, out, hi);
            push16(order, out, lo);
        },
    }
    assert(out@ =~= before + bytes32(order, v));
}

/// The number in the two bytes at `i`.
fn get16(order: ByteOrder, s: &[u8], i: usize) -> (v: u16)
    requires
        i + 2 <= s@.len(),
    ensures
        v == num16(order, s@, i as int),
{
    assert(i + 2 <= s.len());
    match order {
        ByteOrder::Little => s[i] as u16 + s[i + 1] as u16 * 256,
        ByteOrder::Big => s[i] as u16 * 256 + s[i + 1] as u16,
    }
}

/// The number in the four bytes at `i`.
fn get32(order: ByteOrder, s: &[u8], i: usize) -> (v: u32)
    requires
        i + 4 <= s@.len(),
    ensures
        v == num32(order, s@, i as int),
{
    assert(i + 4 <= s.len());
    let a: u32 = get16(order, s, i) as u32;
    let b: u32 = get16(order, s, i + 2) as u32;
    match order {
        ByteOrder::Little => a + b * 65536,
        ByteOrder::Big => a * 65536 + b,
    }
}

/// One attribute with a number as its value.
pub open spec fn attribute(order: ByteOrder, kind: u16, v: u32) -> Seq<u8> {
    bytes16(order, 8) + bytes16(order, kind) + bytes32(order, v)
}

/// The modes among the flags of an attach request.
pub open spec fn modes(flags: u32) -> u32 {
    flags & 6
}

/// Whether the request is to fail where a program is attached already.
pub open spec fn only_if_none(prog_fd: i32, flags: u32) -> bool {
    flags & XDP_FLAGS_UPDATE_IF_NOEXIST != 0 && prog_fd >= 0
}

/// The attributes of an attach request: the program, its mode if one is asked for, and
/// that no program is expected.
pub open spec fn attributes(order: ByteOrder, prog_fd: i32, flags: u32) -> Seq<u8> {
    attribute(order, IFLA_XDP_FD, prog_fd as u32) + (if modes(flags) != 0 {
        attribute(order, IFLA_XDP_FLAGS, modes(flags))
    } else {
        Seq::empty()
    }) + (if only_if_none(prog_fd, flags) {
        attribute(order, IFLA_XDP_EXPECTED_FD, 0)
    } else {
        Seq::empty()
    })
}

/// The request that changes what is attached to an interface.
pub open spec fn link_request(
    order: ByteOrder,
    ifindex: u32,
    attrs: Seq<u8>,
    sequence: u32,
) -> Seq<u8> {
    let nest = (attrs.len() + 4) as u16;
    // The header: length, type, flags, sequence, and sender.
    bytes32(order, (32 + nest) as u32) + bytes16(order, RTM_SETLINK) + bytes16(
        order,
        REQUEST_WITH_ACK,
    ) + bytes32(order, sequence) + bytes32(
        order,
        0,
    )
    // The interface: family, padding, type, index, flags, and mask of changes.
     + seq![0u8, 0u8] + bytes16(order, 0) + bytes32(order, ifindex) + bytes32(order, 0) + bytes32(
        order,
        0xffff_ffff,
    )
    // The nest of attributes.
     + bytes16(order, nest) + bytes16(order, IFLA_XDP) + attrs
}

/// The request that attaches program `prog_fd` to an interface, or detaches what is
/// attached where it is -1.
pub open spec fn setlink(
    order: ByteOrder,
    ifindex: u32,
    prog_fd: i32,
    flags: u32,
    sequence: u32,
) -> Seq<u8> {
    link_request(order, ifindex, attributes(order, prog_fd, flags), sequence)
}

/// The attributes of a request that detaches program `owned`, and only that one.
pub open spec fn release_attributes(order: ByteOrder, owned: i32, flags: u32) -> Seq<u8> {
    attribute(order, IFLA_XDP_FD, 0xffff_ffff) + attribute(
        order,
        IFLA_XDP_FLAGS,
        modes(flags) | XDP_FLAGS_REPLACE,
    ) + attribute(order, IFLA_XDP_EXPECTED_FD, owned as u32)
}

/// The request that detaches program `owned` from an interface. The kernel refuses it
/// where another program is attached by now.
pub open spec fn release(
    order: ByteOrder,
    ifindex: u32,
    owned: i32,
    flags: u32,
    sequence: u32,
) -> Seq<u8> {
    link_request(order, ifindex, release_attributes(order, owned, flags), sequence)
}

/// A request states its own length, which is a multiple of four, its number and its
/// interface.
pub proof fn law_requests_state_their_length(
    order: ByteOrder,
    ifindex: u32,
    attrs: Seq<u8>,
    sequence: u32,
)
    requires
        attrs.len() + 4 <= u16::MAX,
        attrs.len() % 4 == 0,
    ensures
        ({
            let m = link_request(order, ifindex, attrs, sequence);
            &&& num32(order, m, 0) == m.len()
            &&& m.len() % 4 == 0
            &&& num32(order, m, 8) == sequence
            &&& num32(order, m, 20) == ifindex
            &&& m.skip(36) == attrs
        }),
{
    let m = link_request(order, ifindex, attrs, sequence);
    let len = (36 + attrs.len()) as u32;
    law_numbers_are_read_back(order, len);
    law_numbers_are_read_back(order, sequence);
    law_numbers_are_read_back(order, ifindex);
    assert(m.subrange(0, 4) =~= bytes32(order, len));
    assert(m.subrange(8, 12) =~= bytes32(order, sequence));
    assert(m.subrange(20, 24) =~= bytes32(order, ifindex));
    assert(m.skip(36) =~= attrs);
    lemma_number_at(order, m, 0);
    lemma_number_at(order, m, 8);
    lemma_number_at(order, m, 20);
}

/// Cleaning up names the program that it removes: the last attribute is the program that
/// is expected, and the one before it asks for just that to be replaced.
pub proof fn law_only_the_own_program_is_released(order: ByteOrder, owned: i32, flags: u32)
    ensures
        release_attributes(order, owned, flags).len() == 24,
        num32(order, release_attributes(order, owned, flags), 20) == owned as u32,
        num32(order, release_attributes(order, owned, flags), 12) == modes(flags)
            | XDP_FLAGS_REPLACE,
{
    let attrs = release_attributes(order, owned, flags);
    law_numbers_are_read_back(order, owned as u32);
    law_numbers_are_read_back(order, modes(flags) | XDP_FLAGS_REPLACE);
    law_numbers_are_read_back(order, 0xffff_ffff);
    assert(attrs.subrange(20, 24) =~= bytes32(order, owned as u32));
    assert(attrs.subrange(12, 16) =~= bytes32(order, modes(flags) | XDP_FLAGS_REPLACE));
    lemma_number_at(order, attrs, 20);
    lemma_number_at(order, attrs, 12);
}

/// The number at `i` is the number in the four bytes there.
proof fn lemma_number_at(order: ByteOrder, s: Seq<u8>, i: int)
    requires
        0 <= i <= s.len() - 4,
    ensures
        num32(order, s, i) == num32(order, s.subrange(i, i + 4), 0),
{
}

/// Begins a request whose attributes are `len` bytes.
fn begin_request(order: ByteOrder, ifindex: u32, len: u16, sequence: u32) -> (out: Vec<u8>)
    requires
        len <= 1000,
    ensures
        forall|attrs: Seq<u8>|
            attrs.len() == len ==> #[trigger] link_request(order, ifindex, attrs, sequence) == out@
                + attrs,
{
    let nest: u16 = len + 4;
    let mut out: Vec<u8> = Vec::with_capacity(64);
    push32(order, &mut out, 32 + nest as u32);
    push16(order, &mut out, RTM_SETLINK);
    push16(order, &mut out, REQUEST_WITH_ACK);
    push32(order, &mut out, sequence);
    push32(order, &mut out, 0);
    out.push(0);
    out.push(0);
    push16(order, &mut out, 0);
    push32(order, &mut out, ifindex);
    push32(order, &mut out, 0);
    push32(order, &mut out, 0xffff_ffff);
    push16(order, &mut out, nest);
    push16(order, &mut out, IFLA_XDP);
    assert forall|attrs: Seq<u8>| attrs.len() == len implies #[trigger] link_request(
        order,
        ifindex,
        attrs,
        sequence,
    ) == out@ + attrs by {
        assert(link_request(order, ifindex, attrs, sequence) =~= out@ + attrs);
    }
    out
}

/// Appends an attribute.
fn push_attribute(order: ByteOrder, out: &mut Vec<u8>, kind: u16, v: u32)
    ensures
        final(out)@ == old(out)@ + attribute(order, kind, v),
{
    let ghost before = out@;
    push16(order, out, 8);
    push16(order, out, kind);
    push32(order, out, v);
    assert(out@ =~= before + attribute(order, kind, v));
}

/// Builds the request that attaches or detaches a program.
pub fn setlink_message(
    order: ByteOrder,
    ifindex: u32,
    prog_fd: i32,
    flags: u32,
    sequence: u32,
) -> (message: Vec<u8>)
    ensures
        message@ == setlink(order, ifindex, prog_fd, flags, sequence),
{
    let mode: u32 = flags & 6;
    let none: bool = flags & XDP_FLAGS_UPDATE_IF_NOEXIST != 0 && prog_fd >= 0;
    let mut len: u16 = 8;
    if mode != 0 {
        len += 8;
    }
    if none {
        len += 8;
    }
    let mut out: Vec<u8> = begin_request(order, ifindex, len, sequence);
    let ghost front = out@;
    push_attribute(order, &mut out, IFLA_XDP_FD, prog_fd as u32);
    if mode != 0 {
        push_attribute(order, &mut out, IFLA_XDP_FLAGS, mode);
    }
    if none {
        push_attribute(order, &mut out, IFLA_XDP_EXPECTED_FD, 0);
    }
    proof {
        let attrs = attributes(order, prog_fd, flags);
        assert(attrs.len() == len);
        assert(out@ =~= front + attrs);
        assert(out@ == link_request(order, ifindex, attrs, sequence));
    }
    out
}

/// Builds the request that detaches program `owned`, and only that one.
pub fn release_message(
    order: ByteOrder,
    ifindex: u32,
    owned: i32,
    flags: u32,
    sequence: u32,
) -> (message: Vec<u8>)
    ensures
        message@ == release(order, ifindex, owned, flags, sequence),
{
    let mut out: Vec<u8> = begin_request(order, ifindex, 24, sequence);
    let ghost front = out@;
    push_attribute(order, &mut out, IFLA_XDP_FD, 0xffff_ffff);
    push_attribute(order, &mut out, IFLA_XDP_FLAGS, (flags & 6) | XDP_FLAGS_REPLACE);
    push_attribute(order, &mut out, IFLA_XDP_EXPECTED_FD, owned as u32);
    proof {
        let attrs = release_attributes(order, owned, flags);
        assert(attrs.len() == 24);
        assert(out@ =~= front + attrs);
        assert(out@ == link_request(order, ifindex, attrs, sequence));
    }
    out
}

/// A length rounded up to a multiple of four.
pub open spec fn align4(n: int) -> int {
    (n + 3) / 4 * 4
}

/// The error in the acknowledgement of request `sequence` among the messages in the
/// first `n` bytes of `s` from `at` on: zero for success, `None` where there is none.
pub open spec fn acknowledged(
    order: ByteOrder,
    s: Seq<u8>,
    n: int,
    at: int,
    sequence: u32,
) -> Option<i32>
    decreases n - at,
{
    let len = num32(order, s, at);
    if at < 0 || at + HEADER > n || len < HEADER {
        None
    } else if num16(order, s, at + 4) == NLMSG_ERROR && num32(order, s, at + 8) == sequence {
        if at + HEADER + 4 > s.len() {
            None
        } else {
            Some(num32(order, s, at + HEADER) as u32 as i32)
        }
    } else if at + align4(len) > n {
        None
    } else {
        acknowledged(order, s, n, at + align4(len), sequence)
    }
}

/// Looks for the acknowledgement of request `sequence` among the messages in the first
/// `n` bytes of `s`.
pub fn find_ack(order: ByteOrder, s: &[u8], n: usize, sequence: u32) -> (error: Option<i32>)
    requires
        n <= s@.len(),
    ensures
        error == acknowledged(order, s@, n as int, 0, sequence),
{
    let mut at: usize = 0;
    while at <= n && n - at >= HEADER
        invariant
            n <= s@.len(),
            at <= n,
            acknowledged(order, s@, n as int, 0, sequence) == acknowledged(
                order,
                s@,
                n as int,
                at as int,
                sequence,
            ),
        decreases n - at,
    {
        assert(n <= s.len());
        let len: u32 = get32(order, s, at);
        if (len as usize) < HEADER {
            return None;
        }
        if get16(order, s, at + 4) == NLMSG_ERROR && get32(order, s, at + 8) == sequence {
            if s.len() - at < HEADER + 4 {
                return None;
            }
            return Some(get32(order, s, at + HEADER) as i32);
        }
        let step: u64 = (len as u64 + 3) / 4 * 4;
        assert(step == align4(len as int));
        if step > (n - at) as u64 {
            return None;
        }
        at = at + step as usize;
    }
    None
}

/// What an acknowledgement says: success, or an error, whose number comes negated.
pub fn ack_result(error: i32) -> (r: Result<(), IoError>)
    ensures
        r is Ok <==> error == 0,
        r matches Err(e) ==> e == IoError::Os(if error == i32::MIN {
            error
        } else {
            (-error) as i32
        }),
{
    if error == 0 {
        Ok(())
    } else if error == i32::MIN {
        Err(IoError::Os(error))
    } else {
        Err(IoError::Os(-error))
    }
}

/// Numbers are written as the machine writes them.
pub proof fn law_numbers_are_in_the_machines_order(v: u32, w: u16)
    ensures
        bytes32(ByteOrder::Little, v)[0] == v % 256,
        bytes32(ByteOrder::Little, v)[1] == v / 256 % 256,
        bytes32(ByteOrder::Little, v)[2] == v / 65536 % 256,
        bytes32(ByteOrder::Little, v)[3] == v / 0x100_0000,
        bytes32(ByteOrder::Big, v) == bytes32(ByteOrder::Little, v).reverse(),
        bytes16(ByteOrder::Little, w)[0] == w % 256,
        bytes16(ByteOrder::Little, w)[1] == w / 256,
        bytes16(ByteOrder::Big, w) == bytes16(ByteOrder::Little, w).reverse(),
{
    assert(bytes32(ByteOrder::Big, v) =~= bytes32(ByteOrder::Little, v).reverse());
    assert(bytes16(ByteOrder::Big, w) =~= bytes16(ByteOrder::Little, w).reverse());
}

/// A number of two bytes is read back from where it was written.
proof fn lemma_half_at(order: ByteOrder, s: Seq<u8>, i: int, v: u16)
    requires
        0 <= i <= s.len() - 2,
        s.subrange(i, i + 2) == bytes16(order, v),
    ensures
        num16(order, s, i) == v,
{
    let b = s.subrange(i, i + 2);
    assert(b[0] == s[i] && b[1] == s[i + 1]);
}

/// A request says that it changes a link and wants to be answered, and carries its
/// attributes in the nest for programs.
pub proof fn law_requests_change_links(
    order: ByteOrder,
    ifindex: u32,
    attrs: Seq<u8>,
    sequence: u32,
)
    requires
        attrs.len() + 4 <= u16::MAX,
    ensures
        ({
            let m = link_request(order, ifindex, attrs, sequence);
            &&& m.len() == attrs.len() + 36
            &&& num16(order, m, 4) == 19
            &&& num16(order, m, 6) == 5
            &&& num16(order, m, 32) == attrs.len() + 4
            &&& num16(order, m, 34) % 0x8000 == 43
        }),
{
    let m = link_request(order, ifindex, attrs, sequence);
    assert(m.subrange(4, 6) =~= bytes16(order, 19));
    assert(m.subrange(6, 8) =~= bytes16(order, 5));
    assert(m.subrange(32, 34) =~= bytes16(order, (attrs.len() + 4) as u16));
    assert(m.subrange(34, 36) =~= bytes16(order, IFLA_XDP));
    lemma_half_at(order, m, 4, 19);
    lemma_half_at(order, m, 6, 5);
    lemma_half_at(order, m, 32, (attrs.len() + 4) as u16);
    lemma_half_at(order, m, 34, IFLA_XDP);
}

/// An attribute states its length, what it is, and its number.
pub proof fn law_attributes_are_spelled_out(order: ByteOrder, kind: u16, v: u32)
    ensures
        attribute(order, kind, v).len() == 8,
        num16(order, attribute(order, kind, v), 0) == 8,
        num16(order, attribute(order, kind, v), 2) == kind,
        num32(order, attribute(order, kind, v), 4) == v,
{
    let a = attribute(order, kind, v);
    law_numbers_are_read_back(order, v);
    assert(a.subrange(0, 2) =~= bytes16(order, 8));
    assert(a.subrange(2, 4) =~= bytes16(order, kind));
    assert(a.subrange(4, 8) =~= bytes32(order, v));
    lemma_half_at(order, a, 0, 8);
    lemma_half_at(order, a, 2, kind);
    lemma_number_at(order, a, 4);
}

/// An attach request names the program first, as attribute 1, then the mode as attribute
/// 3 where one is asked for, and that no program is expected as attribute 6 where it is
/// to fail otherwise.
pub proof fn law_attach_requests_name_the_program(order: ByteOrder, prog_fd: i32, flags: u32)
    ensures
        attributes(order, prog_fd, flags) == attribute(order, 1, prog_fd as u32) + (if flags & 6
            != 0 {
            attribute(order, 3, flags & 6)
        } else {
            Seq::empty()
        }) + (if flags & 1 != 0 && prog_fd >= 0 {
            attribute(order, 6, 0)
        } else {
            Seq::empty()
        }),
        release_attributes(order, prog_fd, flags) == attribute(order, 1, 0xffff_ffff) + attribute(
            order,
            3,
            (flags & 6) | 16,
        ) + attribute(order, 6, prog_fd as u32),
{
}

/// An answer that comes first, and is to the request that was made, is found, with its
/// error. One to another request, or of another kind, is not taken for it: where it fills
/// all that came, there is no answer.
pub proof fn law_answers_are_found(order: ByteOrder, s: Seq<u8>, sequence: u32)
    requires
        s.len() >= 20,
        num32(order, s, 0) == s.len(),
    ensures
        ({
            let found = acknowledged(order, s, s.len() as int, 0, sequence);
            let mine = num16(order, s, 4) == 2 && num32(order, s, 8) == sequence;
            &&& mine ==> found == Some(num32(order, s, 16) as u32 as i32)
            &&& !mine ==> found is None
        }),
{
    reveal_with_fuel(acknowledged, 2);
}

} // verus!

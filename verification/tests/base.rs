//! Addresses, spans of time, bytes, tables and free lists.
use async_net_stack_rs::addr::{Ipv4Addr, SocketAddrV4};
use async_net_stack_rs::bytes::{
    bytes_of16, bytes_of32, clear_run, copied, has_run, put16, put_run, read16, read32,
};
use async_net_stack_rs::device::free_list::FreeList;
use async_net_stack_rs::device::Error;
use async_net_stack_rs::error::{ErrorKind, IoError};
use async_net_stack_rs::table::{Edge, Table};
use async_net_stack_rs::time::Duration;

#[test]
fn addresses_know_their_kind() {
    assert!(Ipv4Addr::new(0, 0, 0, 0).is_unspecified());
    assert!(Ipv4Addr::broadcast().is_broadcast());
    assert!(Ipv4Addr::new(224, 0, 0, 1).is_multicast());
    assert!(Ipv4Addr::new(239, 255, 255, 255).is_multicast());
    assert!(!Ipv4Addr::new(240, 0, 0, 1).is_multicast());
    assert_eq!(Ipv4Addr::from_octets([1, 2, 3, 4]).octets(), [1, 2, 3, 4]);
    let endpoint = SocketAddrV4::new(Ipv4Addr::new(1, 2, 3, 4), 80);
    assert_eq!(endpoint.port(), 80);
    assert_eq!(*endpoint.ip(), Ipv4Addr::new(1, 2, 3, 4));
}

#[test]
fn spans_add_up_to_the_longest_one() {
    assert_eq!(Duration::from_secs(2).as_nanos(), 2_000_000_000);
    assert_eq!(Duration::from_millis(2).as_nanos(), 2_000_000);
    assert_eq!(Duration::from_micros(2).as_nanos(), 2_000);
    let sum = Duration::from_secs(1).checked_add(Duration::from_nanos(1));
    assert_eq!(sum.unwrap().as_nanos(), 1_000_000_001);
    let longest = Duration::from_secs(u64::MAX);
    assert!(longest.checked_add(Duration::from_secs(1)).is_none());
    assert_eq!(
        longest.saturating_add(longest).as_nanos(),
        u64::MAX as u128 * 1_000_000_000 + 999_999_999
    );
}

#[test]
fn numbers_are_written_most_significant_byte_first() {
    assert_eq!(bytes_of16(0x1234), [0x12, 0x34]);
    assert_eq!(bytes_of32(0x12345678), [0x12, 0x34, 0x56, 0x78]);
    assert_eq!(read16(&[0, 0x12, 0x34], 1), 0x1234);
    assert_eq!(read32(&[0x12, 0x34, 0x56, 0x78], 0), 0x12345678);
    let mut bytes = [1; 6];
    put16(&mut bytes, 1, 0xaabb);
    assert_eq!(bytes, [1, 0xaa, 0xbb, 1, 1, 1]);
    put_run(&mut bytes, 3, &[7, 8]);
    assert_eq!(bytes, [1, 0xaa, 0xbb, 7, 8, 1]);
    clear_run(&mut bytes, 0, 4);
    assert_eq!(bytes, [0, 0, 0, 0, 8, 1]);
    assert!(has_run(&bytes, 4, &[8, 1]));
    assert!(!has_run(&bytes, 4, &[8, 2]));
    assert_eq!(copied(&bytes), bytes);
}

#[test]
fn tables_are_ordered_by_their_keys() {
    let mut table: Table<Edge, u32> = Table::new();
    let edge = |from, to| Edge { from, to };
    table.insert(edge(1, 0), 10);
    table.insert(edge(0, 2), 2);
    table.insert(edge(0, 1), 1);
    table.insert(edge(0, 2), 22);
    assert_eq!(table.len(), 3);
    assert_eq!(table.at(0).1, 1);
    assert_eq!(table.at(1).1, 22);
    assert_eq!(table.at(2).1, 10);
    assert_eq!(table.get(edge(0, 2)), Some(22));
    assert!(!table.contains_key(edge(2, 0)));
}

#[test]
fn freeing_undoes_allocation() {
    let mut list = FreeList::new(3);
    let first = list.allocate().unwrap();
    assert_eq!(first, 0);
    assert!(list.is_used(0) && !list.is_used(1));
    list.free(first);
    assert_eq!(list.allocate(), Some(0));
    let mut out = [0; 4];
    assert_eq!(list.alloc_n(&mut out), 2);
    assert_eq!(list.available(), 0);
    assert_eq!(list.allocate(), None);
    list.free_n(&out[..2]);
    assert_eq!(list.available(), 2);
    let mut again = [0; 2];
    assert_eq!(list.alloc_n(&mut again), 2);
    assert_eq!(again, out[..2]);
    assert_eq!(list.num_frames(), 3);
}

#[test]
fn errors_have_a_kind() {
    for (error, kind) in [
        (IoError::Blocked, ErrorKind::WouldBlock),
        (IoError::TimeBackwards, ErrorKind::InvalidInput),
        (IoError::ProgramAttached, ErrorKind::AlreadyExists),
        (IoError::UringUnsupported, ErrorKind::Unsupported),
        (IoError::ShortWrite, ErrorKind::WriteZero),
        (IoError::TruncatedRead, ErrorKind::InvalidData),
        (IoError::ArenaOverflow, ErrorKind::Other),
        (IoError::Os(5), ErrorKind::Os),
    ] {
        assert_eq!(error.kind(), kind);
    }
    assert!(matches!(
        Error::from(IoError::Blocked),
        Error::Io(IoError::Blocked)
    ));
}

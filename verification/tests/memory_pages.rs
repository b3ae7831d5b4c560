//! Executable pages: errno bounds and the requests that keep pages from being
//! writable and executable at once.

use linux_x86_64::x86::memory::{check, Errno, MEMORY};

#[test]
fn errno_mapping_bounds() {
    // -1 ..= -4095 map to raw os errors; anything else is a value.
    assert!(check(-1).is_err());
    assert!(check(-4095).is_err());
    assert!(check(-4096).is_ok(), "below errno range is a value");
    assert_eq!(check(0).unwrap(), 0);
    assert_eq!(check(0x4000_0000).unwrap(), 0x4000_0000);
}

#[test]
fn errno_is_the_negated_answer() {
    assert_eq!(check(-12), Err(Errno(12)));
    assert_eq!(MEMORY.mapped(-12), Err(Errno(12)));
    assert_eq!(MEMORY.mapped(0x7000), Ok(0x7000));
    assert_eq!(MEMORY.protected(-22), Err(Errno(22)));
    assert_eq!(MEMORY.protected(0), Ok(()));
}

#[test]
fn requests_name_the_system_calls() {
    let map = MEMORY.map_request(8192);
    assert_eq!((map.number, map.a, map.b, map.c, map.d, map.e, map.f), (9, 0, 8192, 3, 0x22, -1, 0));
    let protect = MEMORY.protect_request(0x5000, 4096);
    assert_eq!((protect.number, protect.a, protect.b, protect.c), (10, 0x5000, 4096, 5));
    let unmap = MEMORY.unmap_request(0x5000, 8192);
    assert_eq!((unmap.number, unmap.a, unmap.b, unmap.c), (11, 0x5000, 8192, 0));
}

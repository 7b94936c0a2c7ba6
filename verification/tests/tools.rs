use recipes::footprint::{clock_ticks, fill_store, footprint_key, footprint_value};
use recipes::memcached::db::Item;
use recipes::MemcachedDb;
use std::sync::Arc;
use recipes::reconnect::standard_reconnect_delay_secs;
use recipes::roundtrip::{
    classify_transfer, clock_report, read_message, reply_message, request_message, Transfer,
    MSG_SIZE,
};
use recipes::ttcp::ttcp_message;

#[test]
fn request_holds_time_then_zeros() {
    let msg = request_message(1234567);
    assert_eq!(msg.len(), MSG_SIZE);
    assert_eq!(&msg[..8], &1234567i64.to_ne_bytes());
    assert_eq!(&msg[8..], &[0u8; 8]);
}

#[test]
fn reply_keeps_request_half_and_stamps_server_time() {
    let req = request_message(-5);
    let reply = reply_message(&req, 99);
    assert_eq!(&reply[..8], &req[..8]);
    assert_eq!(&reply[8..], &99i64.to_ne_bytes());
    assert_eq!(read_message(&reply), (-5, 99));
}

#[test]
fn clock_report_values() {
    let r = clock_report(1000, 800, 950);
    assert_eq!(r.round_trip, 200);
    assert_eq!(r.clock_error, 50);
    // the midpoint rounds toward zero
    let r = clock_report(-3, 0, 0);
    assert_eq!(r.round_trip, -3);
    assert_eq!(r.clock_error, 1);
    let r = clock_report(3, 0, 0);
    assert_eq!(r.clock_error, -1);
}

#[test]
fn transfer_classes() {
    assert_eq!(classify_transfer(16), Transfer::Complete);
    assert_eq!(classify_transfer(0), Transfer::Empty);
    assert_eq!(classify_transfer(7), Transfer::Partial(7));
    assert_eq!(classify_transfer(32), Transfer::Partial(32));
}

#[test]
fn reconnect_schedule() {
    let delays: Vec<u64> = (0..10).map(standard_reconnect_delay_secs).collect();
    assert_eq!(delays, vec![5, 10, 20, 30, 40, 50, 60, 60, 60, 60]);
    assert_eq!(standard_reconnect_delay_secs(usize::MAX), 60);
}

#[test]
fn ttcp_message_layout() {
    assert_eq!(ttcp_message(4), vec![0, 0, 0, 4, 0, 0, 0, 0]);
    assert_eq!(ttcp_message(0), vec![0, 0, 0, 0]);
    let m = ttcp_message(0x0102);
    assert_eq!(&m[..4], &[0, 0, 1, 2]);
    assert_eq!(m.len(), 4 + 0x0102);
    assert!(m[4..].iter().all(|b| *b == 0));
}

#[test]
fn footprint_items() {
    let w = std::mem::size_of::<usize>();
    let key = footprint_key(258, 10);
    assert_eq!(key.len(), 10);
    assert!(key[..10 - w].iter().all(|b| *b == 0));
    assert_eq!(&key[10 - w..], &258usize.to_ne_bytes());
    assert_eq!(footprint_value(13, 4), vec![3, 3, 3, 3]);
    assert_eq!(footprint_value(7, 0), Vec::<u8>::new());
}

#[test]
fn clock_ticks_maps_error_to_zero() {
    assert_eq!(clock_ticks(-1), 0);
    assert_eq!(clock_ticks(100), 100);
    assert_eq!(clock_ticks(0), 0);
}

#[test]
fn fill_store_sets_every_item() {
    let mut db = MemcachedDb::new(1024);
    assert!(!fill_store(&mut db, 300, 12, 5));
    for i in 0..300usize {
        let probe = Arc::new(Item::new(&footprint_key(i, 12), 0, 0, 0, b""));
        let got = db.get(&probe).unwrap();
        assert_eq!(&got.data[12..], &footprint_value(i, 5)[..]);
    }
    let probe = Arc::new(Item::new(&footprint_key(300, 12), 0, 0, 0, b""));
    assert!(db.get(&probe).is_none());
}

#[test]
fn fill_store_stops_at_an_existing_key() {
    let mut db = MemcachedDb::new(16);
    let taken = Arc::new(Item::new(&footprint_key(2, 10), 9, 0, 0, b"old"));
    db.set(&taken);
    assert!(fill_store(&mut db, 10, 10, 3));
    // items 0, 1 and 2 were set, item 2 replacing the old one; 3 was not
    let got = db.get(&taken).unwrap();
    assert_eq!(got.flags, 0);
    assert_eq!(&got.data[10..], &[2u8, 2, 2]);
    let probe = Arc::new(Item::new(&footprint_key(3, 10), 0, 0, 0, b""));
    assert!(db.get(&probe).is_none());
}

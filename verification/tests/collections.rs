use sark::chains::Chains;
use sark::collections::{GrowingPool, PoolFault, PoolPlan};
use sark::h2::egress::Egress;
use sark::h2::retained_segments::RetainedSegments;
use sark::h2::stream::Stream;
use sark::h2::stream_registry::{StreamClass, StreamRegistry};
use sark::h2::{ServerRole, StreamId};

fn sid(raw: u32) -> StreamId {
    StreamId::new(raw).expect("in range")
}

#[test]
fn chains_share_their_room() {
    let mut chains: Chains<&str> = Chains::with_capacity(3);
    let mut a = chains.chain();
    let mut b = chains.chain();
    assert!(chains.is_empty(&a));
    assert_eq!(chains.push_back(&mut a, "one"), Ok(()));
    assert_eq!(chains.push_back(&mut b, "two"), Ok(()));
    assert_eq!(chains.push_back(&mut a, "three"), Ok(()));
    assert_eq!(chains.push_back(&mut b, "four"), Err("four"));
    assert_eq!(chains.front(&a), Some(&"one"));
    let mut item = "eins";
    chains.swap_front(&a, &mut item);
    assert_eq!(item, "one");
    assert_eq!(chains.pop_front(&mut a), Some("eins"));
    assert_eq!(chains.push_back(&mut b, "four"), Ok(()));
    assert_eq!(chains.take_all(&mut b), vec!["two", "four"]);
    assert!(chains.is_empty(&b));
    assert_eq!(chains.pop_front(&mut a), Some("three"));
    assert_eq!(chains.pop_front(&mut a), None);
}

#[test]
fn streams_are_found_by_number() {
    let mut streams: StreamRegistry<ServerRole> = StreamRegistry::new(2);
    assert!(streams.insert(Stream::new(sid(1)), 5, 6).is_ok());
    assert!(streams.insert(Stream::new(sid(1)), 7, 8).is_err());
    assert!(streams.insert(Stream::new(sid(3)), 7, 8).is_ok());
    assert!(streams.insert(Stream::new(sid(5)), 7, 8).is_err());
    assert!(!streams.can_open_local(9));
    let mut record = *streams.get(sid(3)).unwrap();
    record.pending_release = 4;
    streams.put(sid(3), record);
    assert_eq!(streams.get(sid(3)).unwrap().pending_release, 4);
    assert_eq!(streams.get(sid(1)).unwrap().pending_release, 0);
    assert!(streams.get(sid(5)).is_none());
    assert!(streams.adjust_send_windows(10).is_ok());
    assert_eq!(streams.get(sid(1)).unwrap().send_window.available(), 15);
    assert_eq!(streams.get(sid(3)).unwrap().send_window.available(), 17);
    streams.remove(sid(1));
    assert!(streams.get(sid(1)).is_none());
    assert_eq!(streams.active_count(), 1);
    assert!(streams.can_open_local(9));
}

#[test]
fn the_oldest_reset_is_forgotten_first() {
    let mut streams: StreamRegistry<ServerRole> = StreamRegistry::new(2);
    streams.observe_peer(sid(2001));
    let mut id = 1;
    loop {
        let known = streams.reset_count();
        streams.mark_reset(sid(id));
        if streams.reset_count() == known {
            break;
        }
        id += 2;
    }
    assert!(id > 1);
    assert_eq!(streams.classify(sid(1)), StreamClass::ClosedEnd);
    assert_eq!(streams.classify(sid(3)), StreamClass::ClosedRst);
    assert_eq!(streams.classify(sid(id)), StreamClass::ClosedRst);
    let known = streams.reset_count();
    streams.mark_reset(sid(id));
    assert_eq!(streams.reset_count(), known);
    assert_eq!(streams.classify(sid(3)), StreamClass::ClosedRst);
}

#[test]
fn output_wraps() {
    assert!(Egress::from_capacity(0, 64).is_none());
    let mut egress = Egress::from_capacity(4, 64).unwrap();
    egress.write(b"abc");
    assert!(egress.reserve(2).is_err());
    assert!(egress.reserve(1).is_ok());
    egress.drain(2);
    egress.write(b"def");
    let (first, second) = egress.slices();
    assert_eq!(first, b"cd");
    assert_eq!(second, b"ef");
    assert_eq!(egress.len(), 4);
    egress.drain(9);
    assert_eq!(egress.len(), 0);
    egress.write(b"wxyz");
    assert_eq!(egress.slices().0, b"wxyz");
}

#[test]
fn input_is_read_across_its_pieces() {
    let mut input = RetainedSegments::new(9, 3);
    assert!(input.push(b"abc"));
    assert!(input.push(b""));
    assert!(input.push(b"defg"));
    assert_eq!(input.len(), 7);
    assert_eq!(input.retained_range(2, 3), Some(b"cde".to_vec()));
    assert_eq!(input.retained_range(5, 3), None);
    assert!(input.is_contiguous(3, 4));
    assert!(!input.is_contiguous(2, 2));
    assert!(input.try_consume(4));
    assert_eq!(input.retained_range(0, 3), Some(b"efg".to_vec()));
    assert!(!input.try_consume(4));
    assert_eq!(input.len(), 3);
}

#[test]
fn retained_segments_preserve_their_layout() {
    assert_eq!(std::mem::size_of::<RetainedSegments>(), 56);
}

#[test]
fn pools_give_out_no_more_places_than_planned() {
    assert_eq!(PoolPlan::new(1, 0).err(), Some(PoolFault::ZeroCapacity));
    assert_eq!(PoolPlan::new(1 << 33, 1).err(), Some(PoolFault::SlotOverflow));
    assert_eq!(PoolPlan::new(1, 1 << 33).err(), Some(PoolFault::CapacityOverflow));
    assert_eq!(PoolPlan::new(0, 1 << 33).err(), Some(PoolFault::CapacityOverflow));
    assert!(PoolPlan::new(0, 1).is_ok());
    let plan = PoolPlan::new(3, 16).unwrap();
    assert_eq!(plan.max_slots(), 3);
    let mut pool = GrowingPool::from_plan(plan);
    let mut held = [pool.try_acquire(), pool.try_acquire(), pool.try_acquire()];
    assert!(held.iter().all(|place| place.is_some()));
    assert!(pool.try_acquire().is_none());
    held[1] = None;
    assert!(pool.try_acquire().is_some());
}

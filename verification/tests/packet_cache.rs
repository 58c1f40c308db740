use bytes::Bytes;
use std::sync::Arc;
use std::time::{Duration, Instant};
use track_local::packet::{Extension, Header, Packet};
use track_local::packet_cache::{PCache, PCacheBuffer, PCacheBuffer2};

fn get_packet(sequence_number: u16) -> Packet {
    Packet {
        header: Header {
            version: 2,
            padding: false,
            extension: true,
            marker: true,
            payload_type: 96,
            sequence_number,
            timestamp: 10000000,
            ssrc: 100030001,
            csrc: vec![],
            extension_profile: 1,
            extensions: vec![Extension {
                id: 0,
                payload: Bytes::from_static(&[0xFF, 0xFF, 0xFF, 0xFF]),
            }],
            extensions_padding: 0,
        },
        payload: Bytes::from_static(&[0x98, 0x36, 0xbe, 0x88, 0x9e]),
    }
}

fn get_p_cache(sequence_number: u16) -> Arc<PCache> {
    Arc::new(PCache {
        rtp: get_packet(sequence_number),
        first_sent_at: Instant::now(),
    })
}

#[test]
fn it_packet_cache1() {
    let mut cache_buf = PCacheBuffer::new(Duration::from_millis(3000).as_nanos(), 2);

    let p1 = get_p_cache(1);
    let p2 = get_p_cache(2);
    let p3 = get_p_cache(3);

    cache_buf.put(p1.clone());
    cache_buf.put(p2.clone());
    cache_buf.put(p3.clone());
    if let Some(p) = cache_buf.get(3) {
        assert_eq!(p.header.sequence_number, 3, "wrong seq_num");
    } else {
        assert!(false, "no packet 3");
    }

    if let Some(p) = cache_buf.get(2) {
        assert_eq!(p.header.sequence_number, 2, "wrong seq_num");
    } else {
        assert!(false, "no packet 2");
    }

    if let Some(p) = cache_buf.get(1) {
        assert!(
            false,
            "found packet 1, which should be gone, with seq={}",
            p.header.sequence_number
        );
    }
}

#[test]
fn it_packet_cache2() {
    let mut cache_buf = PCacheBuffer2::new(Duration::from_millis(3000).as_nanos(), 2);

    let p1 = get_packet(1);
    let p2 = get_packet(2);
    let p3 = get_packet(3);

    cache_buf.put(p1.clone());
    cache_buf.put(p2.clone());
    cache_buf.put(p3.clone());
    if let Some(p) = cache_buf.get(3) {
        assert_eq!(p.header.sequence_number, 3, "wrong seq_num");
    } else {
        assert!(false, "no packet 3");
    }

    if let Some(p) = cache_buf.get(2) {
        assert_eq!(p.header.sequence_number, 2, "wrong seq_num");
    } else {
        assert!(false, "no packet 2");
    }

    if let Some(p) = cache_buf.get(1) {
        assert!(
            false,
            "found packet 1, which should be gone, with seq={}",
            p.header.sequence_number
        );
    }
}

fn entry(sequence_number: u16) -> Arc<PCache> {
    get_p_cache(sequence_number)
}

#[test]
fn entry_is_found_until_it_is_too_old() {
    let mut cache = PCacheBuffer::new(1000, 4);
    cache.put(entry(7));
    assert_eq!(cache.get_arc_at_age(7, 0).unwrap().rtp.header.sequence_number, 7);
    assert!(cache.get_arc_at_age(7, 1000).is_some());
    assert!(cache.get_arc_at_age(7, 1001).is_none());
    assert!(cache.get_arc_at_age(3, 0).is_none());
}

#[test]
fn entry_with_no_time_to_live_is_gone_at_once() {
    let mut cache = PCacheBuffer::new(0, 4);
    cache.put(Arc::new(PCache {
        rtp: get_packet(7),
        first_sent_at: Instant::now() - Duration::from_millis(5),
    }));
    assert!(cache.get_arc(7).is_none());
    assert!(cache.get(7).is_none());
    let mut cache = PCacheBuffer2::new(1000, 4);
    cache.put(get_packet(7));
    assert!(cache.get_at_age(7, 1000).is_some());
    assert!(cache.get_at_age(7, 1001).is_none());
}

#[test]
fn age_counts_from_the_time_that_was_put() {
    let ttl = Duration::from_secs(60);
    let mut cache = PCacheBuffer2::new(ttl.as_nanos(), 4);
    cache.put_at(get_packet(3), Instant::now() - Duration::from_secs(61));
    assert!(cache.get(3).is_none());
    // a fresh packet in the same slot does not take over the time of the stale one
    cache.put(get_packet(7));
    assert!(cache.get(7).is_some());
    assert!(cache.get(3).is_none());
    cache.put_at(get_packet(7), Instant::now() - Duration::from_secs(30));
    assert!(cache.get(7).is_some());
}

#[test]
fn cache_that_keeps_forever_finds_what_it_holds() {
    let mut cache = PCacheBuffer::new(u128::MAX, 4);
    cache.put(entry(7));
    assert!(cache.get_arc(7).is_some());
    assert!(cache.get(7).is_some());
    let mut cache = PCacheBuffer2::new(u128::MAX, 4);
    cache.put_at(get_packet(7), Instant::now());
    assert!(cache.get(7).is_some());
}

#[test]
fn entry_is_shared_and_packets_are_copied() {
    let mut cache = PCacheBuffer::new(Duration::from_secs(60).as_nanos(), 4);
    let put = entry(9);
    cache.put(put.clone());
    assert!(Arc::ptr_eq(&put, &cache.get_arc(9).unwrap()));
    let copy = cache.get(9).unwrap();
    assert_eq!(copy.payload, put.rtp.payload);
    assert_eq!(copy.header.timestamp, 10000000);
    assert_eq!(copy.header.extensions.len(), 1);
    assert_eq!(copy.header.extensions[0].payload, put.rtp.header.extensions[0].payload);
}

#[test]
fn put_displaces_only_what_shared_the_slot() {
    let mut cache = PCacheBuffer::new(1000, 4);
    for seq in [4, 5, 6, 7] {
        cache.put(entry(seq));
    }
    cache.put(entry(9));
    assert!(cache.get_arc_at_age(4, 0).is_some());
    assert!(cache.get_arc_at_age(5, 0).is_none());
    assert!(cache.get_arc_at_age(6, 0).is_some());
    assert!(cache.get_arc_at_age(7, 0).is_some());
    assert!(cache.get_arc_at_age(9, 0).is_some());
}

#[test]
fn latest_run_is_kept_across_the_end_of_the_circle() {
    let mut cache = PCacheBuffer::new(1000, 256);
    let first: u16 = 65_400;
    for i in 0..256u16 {
        cache.put(entry(first.wrapping_add(i)));
    }
    for i in 0..256u16 {
        let seq = first.wrapping_add(i);
        assert_eq!(cache.get_arc_at_age(seq, 0).unwrap().rtp.header.sequence_number, seq);
    }
    cache.put(entry(first.wrapping_add(256)));
    assert!(cache.get_arc_at_age(first, 0).is_none());
}

#[test]
fn entry_is_too_old_after_its_time_to_live() {
    let sent_at = Instant::now();
    let ttl = Duration::from_millis(3000);
    let nano = Duration::from_nanos(1);
    let mut cache = PCacheBuffer::new(ttl.as_nanos(), 4);
    cache.put(Arc::new(PCache {
        rtp: get_packet(7),
        first_sent_at: sent_at,
    }));
    assert!(cache.get_arc_at(7, sent_at).is_some());
    assert!(cache.get_arc_at(7, sent_at + ttl).is_some());
    assert!(cache.get_arc_at(7, sent_at + ttl + nano).is_none());
    // an instant before the entry counts as no time at all
    assert!(cache.get_arc_at(7, sent_at - nano).is_some());
    assert!(cache.get_arc_at(3, sent_at).is_none());
    let mut cache = PCacheBuffer2::new(ttl.as_nanos(), 4);
    cache.put_at(get_packet(3), sent_at);
    cache.put_at(get_packet(7), sent_at + ttl);
    assert!(cache.get_at(7, sent_at + ttl + ttl).is_some());
    assert!(cache.get_at(7, sent_at + ttl + ttl + nano).is_none());
    assert!(cache.get_at(3, sent_at).is_none());
}

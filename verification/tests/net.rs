use smirk_engine::clock::{ClockSync, MAX_SLEW_PPM, SYNC_INTERVAL_MICROS};
use smirk_engine::deadline::DeadlineQueue;
use smirk_engine::events::{pong_rtt, server_now_micros};
use smirk_engine::jitter::{lcg_step, next_unit_draw, Jitter, LCG_INCREMENT};
use smirk_engine::limits::{
    enqueue_backlog, ConnCaps, NetLimits, PeerAddr, TokenBucket, MAX_CONNECTIONS, MAX_CONNECTIONS_PER_IP,
    MSG_BUCKET_CAPACITY, MSG_REFILL_PER_SEC, WRITER_QUEUE_CAP,
};
use smirk_engine::metrics::NetMetrics;
use smirk_engine::wire::{
    check_hello, check_hello_ack, classify_inbound, decode_datagram, encode_datagram, encode_frame, frame_len,
    AckOutcome, Ctrl, FrameError, HelloOutcome, Inbound, MAX_FRAME_IN, TAG_APP, TAG_CTRL,
};

#[test]
fn windowed_minimum_tracks_drift_past_an_early_lucky_sample() {
    let mut sync = ClockSync::new();
    const DRIFT_PPM: f64 = 50.0 / 1_000_000.0;
    const BASE_OFFSET: i64 = 1_000_000;
    let true_offset = |t_local: u64| BASE_OFFSET + (DRIFT_PPM * t_local as f64) as i64;

    let lucky_rtt = 2_000u64;
    let t_server0 = (true_offset(0) - (lucky_rtt / 2) as i64) as u64;
    sync.on_pong(0, t_server0, lucky_rtt);
    assert_eq!(sync.offset(), Some(BASE_OFFSET), "bootstrap sample must publish directly");

    let normal_rtt = 20_000u64;
    let mut t_local = 0u64;
    for _ in 0..360 {
        t_local += SYNC_INTERVAL_MICROS;
        let t_server = (t_local as i64 + true_offset(t_local) - (normal_rtt / 2) as i64) as u64;
        sync.on_pong(t_local, t_server, normal_rtt);
    }

    let final_offset = sync.offset().expect("synced");
    let expected = true_offset(t_local);
    assert!(
        (final_offset - BASE_OFFSET).abs() > 150_000,
        "offset never moved off the early lucky sample: {final_offset} (started at {BASE_OFFSET})"
    );
    assert!(
        (final_offset - expected).abs() < 20_000,
        "offset {final_offset} did not track true drift {expected} within 20 ms"
    );
}

#[test]
fn offset_corrections_are_slewed_not_stepped() {
    let mut sync = ClockSync::new();
    sync.on_pong(0, 0, 0);
    assert_eq!(sync.offset(), Some(0));

    let t_local = 1_000_000u64;
    let big_offset = 500_000i64;
    let rtt = 100u64;
    let t_server = (big_offset + t_local as i64 - (rtt / 2) as i64) as u64;
    sync.on_pong(t_local, t_server, rtt);

    let max_step = (1_000_000.0 * MAX_SLEW_PPM as f64 / 1_000_000.0) as i64;
    let offset = sync.offset().unwrap();
    assert!(offset > 0, "offset should move toward the new target, not stay put");
    assert!(
        offset <= max_step,
        "offset jumped to {offset} µs in one update, past the {max_step} µs slew cap — a step, not a slew"
    );
    assert!(offset < big_offset, "offset must not step straight to the new target");
}

#[test]
fn clock_is_unsynced_until_the_first_pong() {
    let sync = ClockSync::new();
    assert_eq!(sync.offset(), None);
    assert_eq!(sync.rtt(), None);
}

#[test]
fn clock_bootstrap_publishes_raw_offset_and_rtt() {
    let mut sync = ClockSync::new();
    // Sent at 1000, server stamped 5000, back at 1400: rtt 400, the server
    // read its clock 200 µs after the send, so the offset is 5000 - 1200.
    sync.on_pong(1_400, 5_000, 400);
    assert_eq!(sync.offset(), Some(3_800));
    assert_eq!(sync.rtt(), Some(400));
}

#[test]
fn clock_slew_moves_by_exactly_the_cap_per_elapsed_second() {
    let mut sync = ClockSync::new();
    sync.on_pong(0, 0, 0);
    // A far better sample 2 s later, 10 s away: the offset moves 2 * 2000 µs.
    sync.on_pong(2_000_000, 2_000_000 + 10_000_000, 0);
    assert_eq!(sync.offset(), Some(4_000));
}

#[test]
fn clock_local_time_running_backwards_counts_as_no_time() {
    let mut sync = ClockSync::new();
    sync.on_pong(1_000_000, 1_000_005, 10);
    assert_eq!(sync.offset(), Some(10));
    // An earlier local reading with a better RTT: the target is its raw
    // offset (1000), but no time elapsed, so the offset moves by one.
    sync.on_pong(500_000, 501_000, 0);
    assert_eq!(sync.offset(), Some(11));
    assert_eq!(sync.rtt(), Some(0));
}

#[test]
fn clock_accepts_readings_far_beyond_2_pow_53() {
    let mut sync = ClockSync::new();
    sync.on_pong(1 << 60, (1 << 60) + 7, 4);
    assert_eq!(sync.offset(), Some(9));
    sync.on_pong((1 << 60) + 1_000_000, (1 << 60) + 1_000_007, 4);
    assert_eq!(sync.offset(), Some(9));
}

#[test]
fn metrics_count_every_record() {
    let mut m = NetMetrics::new();
    assert_eq!(m.frames_in, 0);
    m.record_frame_in(10);
    m.record_frame_in(5);
    m.record_frame_out(7);
    m.record_reject();
    m.record_datagram_in();
    m.record_datagram_out();
    m.record_datagram_out();
    m.record_datagram_send_failure();
    assert_eq!(m.frames_in, 2);
    assert_eq!(m.bytes_in, 15);
    assert_eq!(m.frames_out, 1);
    assert_eq!(m.bytes_out, 7);
    assert_eq!(m.rejects, 1);
    assert_eq!(m.datagrams_in, 1);
    assert_eq!(m.datagrams_out, 2);
    assert_eq!(m.datagram_send_failures, 1);
    assert_eq!(m.writer_queue_depth, 0);
}

#[test]
fn frame_is_length_tag_then_payload() {
    let f = encode_frame(TAG_APP, &[9, 8]);
    assert_eq!(f, vec![3, 0, 0, 0, TAG_APP, 9, 8]);
    let header = [f[0], f[1], f[2], f[3]];
    assert!(frame_len(header, MAX_FRAME_IN) == Ok(3));
}

#[test]
fn frame_len_refuses_zero_and_oversized_lengths() {
    assert!(frame_len([0, 0, 0, 0], MAX_FRAME_IN) == Err(FrameError::BadLength { len: 0 }));
    assert!(frame_len([1, 4, 0, 0], MAX_FRAME_IN) == Err(FrameError::BadLength { len: 1025 }));
    assert!(frame_len([0, 4, 0, 0], MAX_FRAME_IN) == Ok(1024));
    assert!(frame_len([1, 0, 0, 0], MAX_FRAME_IN) == Ok(1));
}

#[test]
fn datagram_round_trips_and_empty_carries_nothing() {
    let d = encode_datagram(TAG_CTRL, &[4, 5, 6]);
    assert_eq!(d, vec![TAG_CTRL, 4, 5, 6]);
    assert_eq!(decode_datagram(&d), Some((TAG_CTRL, vec![4, 5, 6])));
    assert_eq!(decode_datagram(&[]), None);
    assert_eq!(decode_datagram(&[TAG_APP]), Some((TAG_APP, vec![])));
}

#[test]
fn hello_with_the_right_version_is_accepted() {
    let msg = Some(Ctrl::Hello { version: 3 });
    assert!(check_hello(TAG_CTRL, &msg, 3) == HelloOutcome::Accept);
}

#[test]
fn hello_with_another_version_is_a_mismatch_with_both_versions() {
    let msg = Some(Ctrl::Hello { version: 2 });
    assert!(check_hello(TAG_CTRL, &msg, 3) == HelloOutcome::VersionMismatch { client: 2, server: 3 });
}

#[test]
fn anything_but_a_control_hello_is_refused() {
    assert!(check_hello(TAG_APP, &Some(Ctrl::Hello { version: 3 }), 3) == HelloOutcome::ExpectedHello);
    assert!(check_hello(TAG_CTRL, &Some(Ctrl::HelloAck), 3) == HelloOutcome::ExpectedHello);
    assert!(check_hello(TAG_CTRL, &None, 3) == HelloOutcome::ExpectedHello);
}

#[test]
fn hello_ack_outcomes() {
    assert!(matches!(check_hello_ack(TAG_CTRL, Some(Ctrl::HelloAck)), AckOutcome::Connected));
    match check_hello_ack(TAG_CTRL, Some(Ctrl::Reject { reason: "old client".to_string() })) {
        AckOutcome::Rejected(r) => assert_eq!(r, "old client"),
        _ => panic!("a reject must carry its reason"),
    }
    assert!(matches!(check_hello_ack(TAG_APP, Some(Ctrl::HelloAck)), AckOutcome::ExpectedHelloAck));
    assert!(matches!(check_hello_ack(TAG_CTRL, Some(Ctrl::Ping { t_client: 1 })), AckOutcome::ExpectedHelloAck));
    assert!(matches!(check_hello_ack(TAG_CTRL, None), AckOutcome::ExpectedHelloAck));
}

#[test]
fn bucket_idle_for_an_hour_still_admits_only_its_burst_at_once() {
    let mut b = TokenBucket::new(0);
    let hour: u64 = 3_600_000_000_000;
    let admitted = (0..1_000).filter(|_| b.try_admit(hour)).count() as u64;
    assert_eq!(admitted, MSG_BUCKET_CAPACITY);
    // One second later, exactly the refill for that second.
    let admitted = (0..1_000).filter(|_| b.try_admit(hour + 1_000_000_000)).count() as u64;
    assert_eq!(admitted, MSG_REFILL_PER_SEC);
}

#[test]
fn bucket_admits_its_capacity_then_refuses() {
    let mut b = TokenBucket::new(0);
    for _ in 0..MSG_BUCKET_CAPACITY {
        assert!(b.try_admit(0));
    }
    assert!(!b.try_admit(0), "an empty bucket refuses");
}

#[test]
fn bucket_refills_one_token_per_refill_period() {
    let mut b = TokenBucket::new(0);
    for _ in 0..MSG_BUCKET_CAPACITY {
        assert!(b.try_admit(0));
    }
    // 120 tokens per second: one token after 1/120 s.
    assert!(!b.try_admit(8_333_333));
    assert!(b.try_admit(8_333_334));
    assert!(!b.try_admit(8_333_334));
}

#[test]
fn backlog_past_the_cap_kicks() {
    assert_eq!(enqueue_backlog(0), (1, false));
    assert_eq!(enqueue_backlog(WRITER_QUEUE_CAP as u64 - 1), (WRITER_QUEUE_CAP as u64, false));
    assert_eq!(enqueue_backlog(WRITER_QUEUE_CAP as u64), (WRITER_QUEUE_CAP as u64 + 1, true));
}

#[test]
fn per_address_cap_refuses_the_extra_connection_and_release_frees_it() {
    let mut caps = ConnCaps::new(NetLimits::default());
    for _ in 0..MAX_CONNECTIONS_PER_IP {
        assert!(caps.try_admit(PeerAddr::V4(7)));
    }
    assert!(!caps.try_admit(PeerAddr::V4(7)), "one address may hold only its cap");
    assert!(caps.try_admit(PeerAddr::V4(8)), "another address is unaffected");
    caps.release(PeerAddr::V4(7));
    assert!(caps.try_admit(PeerAddr::V4(7)), "a released slot can be taken again");
}

#[test]
fn ipv4_and_ipv6_addresses_are_counted_apart() {
    let mut caps = ConnCaps::new(NetLimits::default());
    let v4 = PeerAddr::V4(0x7f00_0001);
    let mapped = PeerAddr::V6(0xffff_7f00_0001);
    for _ in 0..MAX_CONNECTIONS_PER_IP {
        assert!(caps.try_admit(v4));
    }
    assert!(!caps.try_admit(v4));
    assert_eq!(caps.connections_from(mapped), 0);
    assert!(caps.try_admit(mapped), "the IPv4-mapped IPv6 form has its own count");
    assert_eq!(caps.connections_from(v4), MAX_CONNECTIONS_PER_IP);
}

#[test]
fn total_cap_refuses_every_address() {
    let mut caps = ConnCaps::new(NetLimits { max_connections: 2, max_connections_per_ip: 8 });
    assert!(caps.try_admit(PeerAddr::V4(1)));
    assert!(caps.try_admit(PeerAddr::V4(2)));
    assert!(!caps.try_admit(PeerAddr::V6(3)));
    assert_eq!(NetLimits::default().max_connections, MAX_CONNECTIONS);
}

#[test]
fn server_time_is_local_plus_offset_floored_at_zero() {
    assert_eq!(server_now_micros(1_000, 500), 1_500);
    assert_eq!(server_now_micros(1_000, -5_000), 0);
    assert_eq!(server_now_micros(1_000, -1_000), 0);
}

#[test]
fn pong_rtt_is_elapsed_time_or_zero() {
    assert_eq!(pong_rtt(1_500, 1_000), 500);
    assert_eq!(pong_rtt(1_000, 1_500), 0);
}

#[test]
fn lcg_steps_and_draws_the_top_bits() {
    assert_eq!(lcg_step(0), LCG_INCREMENT);
    let mut s = 0u64;
    let d = next_unit_draw(&mut s);
    assert_eq!(s, LCG_INCREMENT);
    assert_eq!(d as u64, LCG_INCREMENT >> 40);
}

#[test]
fn jitter_is_bounded_and_zero_max_draws_nothing() {
    let mut none = Jitter::with_seed(0, 42);
    assert_eq!(none.sample(), 0);
    let mut j = Jitter::with_seed(1 << 24, 0);
    // First state is the increment; the draw is its top 24 bits.
    assert_eq!(j.sample() as u64, LCG_INCREMENT >> 40);
    let mut k = Jitter::with_seed(1_000, 7);
    for _ in 0..100 {
        assert!(k.sample() < 1 << 24);
    }
}

#[test]
fn deadline_queue_releases_by_deadline_then_arrival() {
    let mut q: DeadlineQueue<&str> = DeadlineQueue::new();
    q.push(5, "a");
    q.push(3, "b");
    q.push(5, "c");
    assert_eq!(q.len(), 3);
    assert_eq!(q.peek_deadline(), Some(3));
    assert_eq!(q.pop_next(), Some((3, "b")));
    assert_eq!(q.pop_next(), Some((5, "a")));
    assert_eq!(q.pop_next(), Some((5, "c")));
    assert_eq!(q.pop_next(), None);
    assert_eq!(q.peek_deadline(), None);
}

#[test]
fn inbound_frames_are_sorted_by_tag_and_message() {
    assert!(matches!(classify_inbound(TAG_APP, None), Inbound::App));
    assert!(matches!(classify_inbound(TAG_CTRL, Some(Ctrl::Ping { t_client: 7 })), Inbound::Ping { t_client: 7 }));
    assert!(matches!(
        classify_inbound(TAG_CTRL, Some(Ctrl::Pong { t_client: 1, t_server: 2 })),
        Inbound::Pong { t_client: 1, t_server: 2 }
    ));
    assert!(matches!(classify_inbound(TAG_CTRL, Some(Ctrl::HelloAck)), Inbound::OtherControl));
    assert!(matches!(classify_inbound(TAG_CTRL, None), Inbound::OtherControl));
    assert!(matches!(classify_inbound(9, None), Inbound::UnknownTag(9)));
}

#[test]
fn jitter_sources_with_one_seed_draw_one_sequence() {
    let mut a = Jitter::with_seed(1_000_000, 99);
    let mut b = Jitter::with_seed(1_000_000, 99);
    let mut c = Jitter::with_seed(1_000_000, 100);
    let first: Vec<u32> = (0..16).map(|_| a.sample()).collect();
    let second: Vec<u32> = (0..16).map(|_| b.sample()).collect();
    let other: Vec<u32> = (0..16).map(|_| c.sample()).collect();
    assert_eq!(first, second);
    assert_ne!(first, other);
    // Draw number k is the top 24 bits of the (k+1)-th LCG state.
    let mut s = 99u64;
    for (k, &d) in first.iter().enumerate() {
        s = lcg_step(s);
        assert_eq!(d as u64, s >> 40, "draw {k}");
    }
}

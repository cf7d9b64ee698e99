use wireshade::engine::{Engine, Flavor, SendDecision};
use wireshade::EngineError;

#[test]
fn identifiers_start_at_one_and_increase() {
    let mut e = Engine::new(0);
    let id1 = e.register_client(100);
    let id2 = e.register_client(101);
    assert_eq!(id1, 1);
    assert_eq!(id2, 2);
}

#[test]
fn local_ports_increase_per_connect() {
    let mut e = Engine::new(7);
    let p1 = e.allocate_port();
    let p2 = e.allocate_port();
    let p3 = e.allocate_port();
    assert_eq!(p1, 49152 + 7);
    assert_eq!(p2, p1 + 1);
    assert_eq!(p3, p2 + 1);
}

#[test]
fn listen_then_duplicate_listen_conflicts() {
    let mut e = Engine::new(0);
    assert_eq!(e.install_listener(7000, 50), Ok(()));
    assert_eq!(e.install_listener(7000, 51), Err(EngineError::BindConflict));
    assert_eq!(e.install_listener(7001, 51), Ok(()));
}

#[test]
fn graduation_rearms_the_port_and_registers_a_server_connection() {
    let mut e = Engine::new(0);
    e.install_listener(7000, 50).unwrap();
    let id = e.graduate(7000, 60).expect("an armed port graduates");
    assert_eq!(id, 1);
    // the accepted socket's handle is now a server connection
    assert_eq!(e.lookup(id), Some((50, Flavor::Server)));
    // and the port is immediately rearmed with the replacement handle
    let ports = e.listener_ports();
    assert_eq!(ports, vec![(7000, 60)]);
    // a port without a listener does not graduate
    assert_eq!(e.graduate(9999, 70), None);
}

#[test]
fn send_before_the_socket_is_ready_is_buffered_then_flushed_in_order() {
    let mut e = Engine::new(0);
    let id = e.register_client(100);
    // the socket cannot send during the TCP handshake: buffers queue up
    assert!(matches!(e.submit_send(id, false, 65535, vec![1, 2, 3]), SendDecision::Buffered));
    assert!(matches!(e.submit_send(id, false, 65535, vec![4]), SendDecision::Buffered));
    assert!(matches!(e.submit_send(id, false, 65535, vec![5, 6]), SendDecision::Buffered));
    // nothing flushes while the socket still cannot send, or has no space
    assert_eq!(e.flush_one(id, false, 65535), None);
    assert_eq!(e.flush_one(id, true, 0), None);
    // once sendable, the buffers come out oldest first
    assert_eq!(e.flush_one(id, true, 65535), Some(vec![1, 2, 3]));
    assert_eq!(e.flush_one(id, true, 65535), Some(vec![4]));
    assert_eq!(e.flush_one(id, true, 65535), Some(vec![5, 6]));
    // and only once
    assert_eq!(e.flush_one(id, true, 65535), None);
}

#[test]
fn a_buffer_larger_than_the_free_space_flushes_in_exact_front_chunks() {
    let mut e = Engine::new(0);
    let id = e.register_client(100);
    assert!(matches!(e.submit_send(id, false, 65535, vec![7, 8, 9, 10, 11]), SendDecision::Buffered));
    assert_eq!(e.flush_one(id, true, 2), Some(vec![7, 8]));
    assert_eq!(e.flush_one(id, true, 2), Some(vec![9, 10]));
    assert_eq!(e.flush_one(id, true, 2), Some(vec![11]));
    assert_eq!(e.flush_one(id, true, 2), None);
}

#[test]
fn a_send_larger_than_the_free_space_is_queued_not_truncated() {
    let mut e = Engine::new(0);
    let id = e.register_client(100);
    // sendable, nothing pending, but only two bytes of space: queued whole
    assert!(matches!(e.submit_send(id, true, 2, vec![1, 2, 3]), SendDecision::Buffered));
    assert_eq!(e.flush_one(id, true, 2), Some(vec![1, 2]));
    assert_eq!(e.flush_one(id, true, 99), Some(vec![3]));
    assert_eq!(e.flush_one(id, true, 99), None);
}

#[test]
fn send_on_a_ready_socket_is_pushed_at_once() {
    let mut e = Engine::new(0);
    let id = e.register_client(100);
    match e.submit_send(id, true, 65535, vec![0x01, 0x02, 0x03]) {
        SendDecision::Push(d) => assert_eq!(d, vec![0x01, 0x02, 0x03]),
        _ => panic!("a sendable socket with nothing pending takes the bytes"),
    }
}

#[test]
fn send_behind_pending_buffers_keeps_submission_order() {
    let mut e = Engine::new(0);
    let id = e.register_client(100);
    assert!(matches!(e.submit_send(id, false, 65535, vec![1]), SendDecision::Buffered));
    // the socket became sendable, but an older buffer is still pending:
    // the new one must queue behind it, not overtake it
    assert!(matches!(e.submit_send(id, true, 65535, vec![2]), SendDecision::Buffered));
    assert_eq!(e.flush_one(id, true, 65535), Some(vec![1]));
    assert_eq!(e.flush_one(id, true, 65535), Some(vec![2]));
}

#[test]
fn close_fires_once_and_later_commands_find_nothing() {
    let mut e = Engine::new(0);
    let id = e.register_client(100);
    assert_eq!(e.observe_closed(id), Some((100, Flavor::Client)));
    // a second observation fires nothing
    assert_eq!(e.observe_closed(id), None);
    // a send after close reports the connection gone and no callback fires
    assert!(matches!(e.submit_send(id, true, 65535, vec![9]), SendDecision::NotFound));
    assert_eq!(e.lookup(id), None);
}

#[test]
fn server_close_reports_the_server_flavor() {
    let mut e = Engine::new(0);
    e.install_listener(7000, 50).unwrap();
    let id = e.graduate(7000, 60).unwrap();
    assert_eq!(e.observe_closed(id), Some((50, Flavor::Server)));
    assert_eq!(e.observe_closed(id), None);
}

#[test]
fn handles_are_tracked_across_both_registries() {
    let mut e = Engine::new(0);
    let id = e.register_client(100);
    e.install_listener(7000, 50).unwrap();
    assert!(e.handle_in_use(100));
    assert!(e.handle_in_use(50));
    assert!(!e.handle_in_use(77));
    e.observe_closed(id);
    assert!(!e.handle_in_use(100));
}

#[test]
fn connection_ids_lists_every_live_connection() {
    let mut e = Engine::new(0);
    let id1 = e.register_client(100);
    let id2 = e.register_client(101);
    let id3 = e.register_client(102);
    e.observe_closed(id2);
    let ids = e.connection_ids();
    assert!(ids.contains(&id1));
    assert!(!ids.contains(&id2));
    assert!(ids.contains(&id3));
    assert_eq!(ids.len(), 2);
}

#[test]
fn a_thousand_submissions_flush_as_one_ordered_stream() {
    let mut e = Engine::new(0);
    let id = e.register_client(100);
    let chunk: Vec<u8> = vec![0xabu8; 1024];
    for _ in 0..1000 {
        assert!(matches!(e.submit_send(id, false, 65535, chunk.clone()), SendDecision::Buffered));
    }
    let mut flushed: Vec<Vec<u8>> = Vec::new();
    while let Some(b) = e.flush_one(id, true, 65535) {
        flushed.push(b);
    }
    let total: usize = flushed.iter().map(|b| b.len()).sum();
    assert_eq!(flushed.len(), 1000);
    assert_eq!(total, 1000 * 1024);
    for b in &flushed {
        assert_eq!(*b, chunk);
    }
}

#[test]
fn capacity_counts_connections_and_armed_listeners() {
    let mut e = Engine::new(0);
    assert!(e.has_capacity(2));
    e.register_client(100);
    e.install_listener(7000, 50).unwrap();
    assert!(!e.has_capacity(2));
    assert!(e.has_capacity(3));
    assert!(e.has_listener(7000));
    assert!(!e.has_listener(7001));
}

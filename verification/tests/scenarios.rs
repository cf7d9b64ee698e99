//! Two hosts wired back to back in memory: each drives a real TCP/IP stack
//! and a real noise tunnel, with every decision taken by the verified
//! engine core, exactly as the event loop does. The "network" between them
//! is a pair of datagram queues.

use boringtun::x25519::{PublicKey, StaticSecret};
use smoltcp::iface::{Config, Interface, SocketHandle, SocketSet};
use smoltcp::phy::{Checksum, Device, DeviceCapabilities, Medium, RxToken, TxToken};
use smoltcp::socket::tcp;
use smoltcp::time::Instant;
use smoltcp::wire::{HardwareAddress, IpAddress, Ipv4Address, Ipv4Cidr};
use std::collections::HashMap;
use std::collections::VecDeque;
use wireshade::addr::{format_ipv4, Ipv4};
use wireshade::engine::{Engine, SendDecision};
use wireshade::tunnel::{DatagramOutcome, TunnelSession};

struct QueueDevice {
    rx_queue: VecDeque<Vec<u8>>,
    tx_queue: VecDeque<Vec<u8>>,
}

impl Device for QueueDevice {
    type RxToken<'a> = QueueRx;
    type TxToken<'a> = QueueTx<'a>;

    fn receive(&mut self, _t: Instant) -> Option<(QueueRx, QueueTx<'_>)> {
        let buffer = self.rx_queue.pop_front()?;
        Some((QueueRx { buffer }, QueueTx { queue: &mut self.tx_queue }))
    }

    fn transmit(&mut self, _t: Instant) -> Option<QueueTx<'_>> {
        Some(QueueTx { queue: &mut self.tx_queue })
    }

    fn capabilities(&self) -> DeviceCapabilities {
        let mut caps = DeviceCapabilities::default();
        caps.medium = Medium::Ip;
        caps.max_transmission_unit = 1420;
        caps.checksum.ipv4 = Checksum::Both;
        caps.checksum.tcp = Checksum::Both;
        caps
    }
}

struct QueueRx {
    buffer: Vec<u8>,
}

impl RxToken for QueueRx {
    fn consume<R, F: FnOnce(&[u8]) -> R>(self, f: F) -> R {
        f(&self.buffer)
    }
}

struct QueueTx<'a> {
    queue: &'a mut VecDeque<Vec<u8>>,
}

impl<'a> TxToken for QueueTx<'a> {
    fn consume<R, F: FnOnce(&mut [u8]) -> R>(self, len: usize, f: F) -> R {
        let mut buffer = vec![0u8; len];
        let r = f(&mut buffer);
        self.queue.push_back(buffer);
        r
    }
}

#[derive(Debug, PartialEq, Eq, Clone)]
enum Event {
    Connected { id: u32, remote_ip: String, remote_port: u16 },
    Data { id: u32, bytes: Vec<u8> },
    Closed { id: u32 },
}

struct Host {
    engine: Engine,
    session: TunnelSession,
    device: QueueDevice,
    iface: Interface,
    sockets: SocketSet<'static>,
    handles: HashMap<u64, SocketHandle>,
    next_handle: u64,
    source: Ipv4,
    events: Vec<Event>,
    /// Logical clock for the stack, advanced on every loop iteration so
    /// that delayed acks and retransmissions fire inside a test run.
    now_ms: i64,
}

fn keypair(seed: u8) -> (Vec<u8>, Vec<u8>) {
    let sk = StaticSecret::from([seed; 32]);
    let pk = PublicKey::from(&sk);
    (sk.to_bytes().to_vec(), pk.as_bytes().to_vec())
}

fn new_tcp_socket() -> tcp::Socket<'static> {
    let rx = tcp::SocketBuffer::new(vec![0; 65535]);
    let tx = tcp::SocketBuffer::new(vec![0; 65535]);
    tcp::Socket::new(rx, tx)
}

impl Host {
    fn new(source: Ipv4, own_priv: Vec<u8>, peer_pub: Vec<u8>, seed: u64) -> Host {
        let session = TunnelSession::new(&own_priv, &peer_pub, None);
        let mut device = QueueDevice { rx_queue: VecDeque::new(), tx_queue: VecDeque::new() };
        let mut config = Config::new(HardwareAddress::Ip);
        config.random_seed = seed;
        let mut iface = Interface::new(config, &mut device, Instant::from_millis(0));
        iface.update_ip_addrs(|addrs| {
            addrs
                .push(Ipv4Cidr::new(Ipv4Address::new(source.a, source.b, source.c, source.d), 32).into())
                .ok();
        });
        Host {
            engine: Engine::new(seed),
            session,
            device,
            iface,
            sockets: SocketSet::new(vec![]),
            handles: HashMap::new(),
            next_handle: 1,
            source,
            events: Vec::new(),
            now_ms: 0,
        }
    }

    fn add_socket(&mut self, socket: tcp::Socket<'static>) -> u64 {
        let handle = self.sockets.add(socket);
        let hid = self.next_handle;
        self.next_handle += 1;
        self.handles.insert(hid, handle);
        hid
    }

    fn poll(&mut self) {
        let now = Instant::from_millis(self.now_ms);
        let _ = self.iface.poll(now, &mut self.device, &mut self.sockets);
    }

    fn initiate_handshake(&mut self) -> Vec<Vec<u8>> {
        match self.session.initiation() {
            Some(d) => vec![d],
            None => vec![],
        }
    }

    fn connect(&mut self, dest: Ipv4, dest_port: u16) -> Result<(u32, u16), String> {
        if !self.engine.has_capacity(32) {
            return Err("capacity: socket pool exhausted".to_string());
        }
        let mut socket = new_tcp_socket();
        let local_port = self.engine.allocate_port();
        let remote = (IpAddress::Ipv4(Ipv4Address::new(dest.a, dest.b, dest.c, dest.d)), dest_port);
        let src = self.source;
        let local = (IpAddress::Ipv4(Ipv4Address::new(src.a, src.b, src.c, src.d)), local_port);
        socket
            .connect(self.iface.context(), remote, local)
            .map_err(|e| format!("Connect error: {:?}", e))?;
        let hid = self.add_socket(socket);
        assert!(self.engine.id_space_left() && !self.engine.handle_in_use(hid));
        let id = self.engine.register_client(hid);
        self.poll();
        Ok((id, local_port))
    }

    fn listen(&mut self, port: u16) -> Result<(), String> {
        if !self.engine.has_capacity(32) {
            return Err("capacity: socket pool exhausted".to_string());
        }
        if self.engine.has_listener(port) {
            return Err("Listen failed: port already has a listener".to_string());
        }
        let mut socket = new_tcp_socket();
        let src = self.source;
        let local = (IpAddress::Ipv4(Ipv4Address::new(src.a, src.b, src.c, src.d)), port);
        socket.listen(local).map_err(|e| format!("Listen failed: {:?}", e))?;
        let hid = self.add_socket(socket);
        assert!(!self.engine.handle_in_use(hid));
        self.engine.install_listener(port, hid).map_err(|e| format!("Listen failed: {:?}", e))
    }

    fn send(&mut self, id: u32, data: Vec<u8>) {
        if let Some((hid, _)) = self.engine.lookup(id) {
            let handle = self.handles[&hid];
            let (can_send, room) = {
                let socket = self.sockets.get::<tcp::Socket>(handle);
                (socket.can_send(), socket.send_capacity() - socket.send_queue())
            };
            match self.engine.submit_send(id, can_send, room, data) {
                SendDecision::Push(bytes) => {
                    let socket = self.sockets.get_mut::<tcp::Socket>(handle);
                    let sent = socket.send_slice(&bytes).unwrap_or(0);
                    assert_eq!(sent, bytes.len(), "the socket accepts what fits its free space");
                    self.poll();
                },
                SendDecision::Buffered => {},
                SendDecision::NotFound => {},
            }
        }
    }

    fn close(&mut self, id: u32) {
        if let Some((hid, _)) = self.engine.lookup(id) {
            let handle = self.handles[&hid];
            self.sockets.get_mut::<tcp::Socket>(handle).close();
        }
    }

    /// One event-loop iteration: take the peer's datagrams in, return the
    /// datagrams to send out.
    fn tick(&mut self, inbound: Vec<Vec<u8>>) -> Vec<Vec<u8>> {
        let mut out: Vec<Vec<u8>> = Vec::new();
        self.now_ms += 10;
        self.poll();

        for datagram in inbound {
            match self.session.process_datagram(&datagram) {
                DatagramOutcome::Transmit(ds) => out.extend(ds),
                DatagramOutcome::Deliver { frame, replies } => {
                    self.device.rx_queue.push_back(frame);
                    out.extend(replies);
                    self.poll();
                },
                DatagramOutcome::Ignore => {},
            }
        }

        // Deliver received bytes, observe closes, flush pending buffers.
        for id in self.engine.connection_ids() {
            let (hid, _) = match self.engine.lookup(id) {
                Some(x) => x,
                None => continue,
            };
            let handle = self.handles[&hid];
            let (can_recv, queued, state, can_send) = {
                let s = self.sockets.get::<tcp::Socket>(handle);
                (s.can_recv(), s.recv_queue(), s.state(), s.can_send())
            };
            if can_recv && queued > 0 {
                let mut data = vec![0u8; queued];
                let n = self
                    .sockets
                    .get_mut::<tcp::Socket>(handle)
                    .recv_slice(&mut data)
                    .unwrap_or(0);
                data.truncate(n);
                if n > 0 {
                    self.events.push(Event::Data { id, bytes: data });
                }
            }
            if state == tcp::State::Closed {
                if let Some((hid2, _)) = self.engine.observe_closed(id) {
                    self.events.push(Event::Closed { id });
                    if let Some(h) = self.handles.remove(&hid2) {
                        self.sockets.remove(h);
                    }
                }
            } else if can_send {
                loop {
                    let room = {
                        let socket = self.sockets.get::<tcp::Socket>(handle);
                        socket.send_capacity() - socket.send_queue()
                    };
                    match self.engine.flush_one(id, can_send, room) {
                        Some(chunk) => {
                            let socket = self.sockets.get_mut::<tcp::Socket>(handle);
                            let sent = socket.send_slice(&chunk).unwrap_or(0);
                            assert_eq!(sent, chunk.len(), "the socket accepts what fits its free space");
                        },
                        None => break,
                    }
                }
            }
        }

        // Graduate established accepting sockets and rearm their ports.
        for (port, hid) in self.engine.listener_ports() {
            let handle = self.handles[&hid];
            let remote = {
                let s = self.sockets.get::<tcp::Socket>(handle);
                if s.state() == tcp::State::Established { s.remote_endpoint() } else { None }
            };
            let Some(remote) = remote else { continue };
            if !self.engine.has_capacity(32) {
                continue;
            }
            let mut replacement = new_tcp_socket();
            let src = self.source;
            let local = (IpAddress::Ipv4(Ipv4Address::new(src.a, src.b, src.c, src.d)), port);
            if replacement.listen(local).is_err() {
                continue;
            }
            let new_hid = self.add_socket(replacement);
            assert!(self.engine.id_space_left() && !self.engine.handle_in_use(new_hid));
            if let Some(id) = self.engine.graduate(port, new_hid) {
                let remote_ip = match remote.addr {
                    IpAddress::Ipv4(ip) => {
                        let o = ip.octets();
                        String::from_utf8(format_ipv4(Ipv4 { a: o[0], b: o[1], c: o[2], d: o[3] }))
                            .unwrap()
                    },
                    _ => "unknown".to_string(),
                };
                self.events.push(Event::Connected { id, remote_ip, remote_port: remote.port });
            }
        }

        self.poll();
        while let Some(frame) = self.device.tx_queue.pop_front() {
            assert!(frame.len() <= 65536, "the stack emits frames within the link MTU");
            if let Some(d) = self.session.encapsulate(&frame) {
                out.push(d);
            }
        }
        if let Some(d) = self.session.update_timers() {
            out.push(d);
        }
        out
    }
}

/// Runs both loops until the wire goes quiet, plus a few idle rounds.
fn settle(a: &mut Host, b: &mut Host, mut to_b: Vec<Vec<u8>>) {
    let mut to_a: Vec<Vec<u8>> = Vec::new();
    for _ in 0..60 {
        let new_to_b = a.tick(to_a);
        let new_to_a = b.tick(to_b);
        if new_to_a.is_empty() && new_to_b.is_empty() {
            to_a = Vec::new();
            to_b = Vec::new();
        } else {
            to_a = new_to_a;
            to_b = new_to_b;
        }
    }
}

fn peered_pair() -> (Host, Host) {
    let (a_priv, a_pub) = keypair(0x61);
    let (b_priv, b_pub) = keypair(0x62);
    let mut a = Host::new(Ipv4 { a: 10, b: 0, c: 0, d: 2 }, a_priv, b_pub, 1);
    let mut b = Host::new(Ipv4 { a: 10, b: 0, c: 0, d: 3 }, b_priv, a_pub, 20000);
    let to_b = a.initiate_handshake();
    settle(&mut a, &mut b, to_b);
    (a, b)
}

#[test]
fn connect_produces_exactly_one_on_connection_with_the_allocated_port() {
    let (mut a, mut b) = peered_pair();
    b.listen(7000).unwrap();
    let (_id, local_port) = a.connect(Ipv4 { a: 10, b: 0, c: 0, d: 3 }, 7000).unwrap();
    settle(&mut a, &mut b, vec![]);
    let connected: Vec<&Event> =
        b.events.iter().filter(|e| matches!(e, Event::Connected { .. })).collect();
    assert_eq!(connected.len(), 1);
    match connected[0] {
        Event::Connected { remote_ip, remote_port, .. } => {
            assert_eq!(remote_ip, "10.0.0.2");
            assert_eq!(*remote_port, local_port);
        },
        _ => unreachable!(),
    }
}

#[test]
fn sent_bytes_arrive_exactly_once() {
    let (mut a, mut b) = peered_pair();
    b.listen(7000).unwrap();
    let (id, _) = a.connect(Ipv4 { a: 10, b: 0, c: 0, d: 3 }, 7000).unwrap();
    settle(&mut a, &mut b, vec![]);
    a.send(id, vec![0x01, 0x02, 0x03]);
    settle(&mut a, &mut b, vec![]);
    let data: Vec<&Event> = b.events.iter().filter(|e| matches!(e, Event::Data { .. })).collect();
    assert_eq!(data.len(), 1);
    match data[0] {
        Event::Data { bytes, .. } => assert_eq!(*bytes, vec![0x01, 0x02, 0x03]),
        _ => unreachable!(),
    }
}

#[test]
fn close_fires_on_close_once_and_later_sends_find_nothing() {
    let (mut a, mut b) = peered_pair();
    b.listen(7000).unwrap();
    let (id, _) = a.connect(Ipv4 { a: 10, b: 0, c: 0, d: 3 }, 7000).unwrap();
    settle(&mut a, &mut b, vec![]);
    a.send(id, vec![0x01, 0x02, 0x03]);
    settle(&mut a, &mut b, vec![]);
    let server_id = match b.events.iter().find(|e| matches!(e, Event::Connected { .. })) {
        Some(Event::Connected { id, .. }) => *id,
        _ => panic!("no server connection"),
    };
    a.close(id);
    settle(&mut a, &mut b, vec![]);
    // the server side answers the close; its socket then reaches the
    // closed state and the close event fires
    b.close(server_id);
    settle(&mut a, &mut b, vec![]);
    let closes: Vec<&Event> = b
        .events
        .iter()
        .filter(|e| matches!(e, Event::Closed { id } if *id == server_id))
        .collect();
    assert_eq!(closes.len(), 1);
    // a submission while the client socket is still winding down is
    // buffered, never delivered, and triggers nothing on the peer
    let before = b.events.len();
    a.send(id, vec![9]);
    settle(&mut a, &mut b, vec![]);
    let after_data: Vec<&Event> =
        b.events[before..].iter().filter(|e| matches!(e, Event::Data { .. })).collect();
    assert!(after_data.is_empty());
    // once the wait state expires the client record is reaped, its own
    // close event fires exactly once, and later submissions find nothing
    a.now_ms += 120_000;
    settle(&mut a, &mut b, vec![]);
    assert_eq!(a.events.iter().filter(|e| matches!(e, Event::Closed { .. })).count(), 1);
    assert!(matches!(a.engine.submit_send(id, true, 65535, vec![9]), SendDecision::NotFound));
}

#[test]
fn buffered_sends_before_establishment_are_delivered_in_order() {
    let (mut a, mut b) = peered_pair();
    b.listen(7000).unwrap();
    let (id, _) = a.connect(Ipv4 { a: 10, b: 0, c: 0, d: 3 }, 7000).unwrap();
    // submit immediately, before the TCP handshake completes
    a.send(id, vec![1, 1]);
    a.send(id, vec![2]);
    a.send(id, vec![3, 3, 3]);
    settle(&mut a, &mut b, vec![]);
    let received: Vec<u8> = b
        .events
        .iter()
        .filter_map(|e| match e {
            Event::Data { bytes, .. } => Some(bytes.clone()),
            _ => None,
        })
        .flatten()
        .collect();
    assert_eq!(received, vec![1, 1, 2, 3, 3, 3]);
}

#[test]
fn many_sends_concatenate_exactly() {
    let (mut a, mut b) = peered_pair();
    b.listen(7000).unwrap();
    let (id, _) = a.connect(Ipv4 { a: 10, b: 0, c: 0, d: 3 }, 7000).unwrap();
    settle(&mut a, &mut b, vec![]);
    let mut expected: Vec<u8> = Vec::new();
    for round in 0..100u32 {
        let chunk: Vec<u8> = vec![(round % 251) as u8; 64];
        expected.extend(&chunk);
        a.send(id, chunk);
        if round % 10 == 9 {
            settle(&mut a, &mut b, vec![]);
        }
    }
    settle(&mut a, &mut b, vec![]);
    let received: Vec<u8> = b
        .events
        .iter()
        .filter_map(|e| match e {
            Event::Data { bytes, .. } => Some(bytes.clone()),
            _ => None,
        })
        .flatten()
        .collect();
    assert_eq!(received.len(), expected.len());
    assert_eq!(received, expected);
}

#[test]
fn listeners_on_distinct_ports_accept_their_own_connections() {
    let (mut a, mut b) = peered_pair();
    for k in 0..8u16 {
        b.listen(7000 + k).unwrap();
    }
    let mut ids: Vec<u32> = Vec::new();
    for k in 0..8u16 {
        let (id, _) = a.connect(Ipv4 { a: 10, b: 0, c: 0, d: 3 }, 7000 + k).unwrap();
        ids.push(id);
        settle(&mut a, &mut b, vec![]);
    }
    let connected =
        b.events.iter().filter(|e| matches!(e, Event::Connected { .. })).count();
    assert_eq!(connected, 8);
    // client identifiers are distinct and increasing
    for w in ids.windows(2) {
        assert!(w[0] < w[1]);
    }
}

#[test]
fn the_socket_pool_holds_32_flows_then_reports_capacity() {
    let (mut a, mut b) = peered_pair();
    let mut ids: Vec<u32> = Vec::new();
    let mut failures = 0;
    for k in 0..35u16 {
        match a.connect(Ipv4 { a: 10, b: 0, c: 0, d: 3 }, 8000 + k) {
            Ok((id, _)) => ids.push(id),
            Err(e) => {
                assert!(e.contains("capacity"));
                failures += 1;
            },
        }
    }
    assert_eq!(ids.len(), 32);
    assert_eq!(failures, 3);
    // closing the pending sockets reclaims their slots
    for id in &ids {
        a.close(*id);
    }
    a.now_ms += 120_000;
    settle(&mut a, &mut b, vec![]);
    assert!(a.connect(Ipv4 { a: 10, b: 0, c: 0, d: 3 }, 9000).is_ok());
}

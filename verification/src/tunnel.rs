//! The tunnel session: the noise-protocol state that encapsulates plaintext
//! IP frames into ciphertext UDP datagrams and back.
//!
//! The cryptography lives in an outside crate and is trusted; what is
//! verified here is the dispatch around it — in particular the
//! continuation drain that the protocol requires after every handshake
//! reply, whose queue the outside source bounds at 256 packets.

use vstd::prelude::*;

verus! {

/// Declares the outside tunnel state so a session can hold it in a field.
#[verifier::external_type_specification]
#[verifier::external_body]
pub struct ExTunn(boringtun::noise::Tunn);

/// One reaction of the tunnel to a datagram, a timer, or a frame.
pub enum TunnelStep {
    /// Send this datagram to the peer over UDP.
    Reply(Vec<u8>),
    /// Hand this plaintext IPv4 frame to the TCP/IP stack.
    Deliver(Vec<u8>),
    /// Nothing to do.
    Quiet,
    /// The datagram was rejected; it is dropped and the session goes on.
    Failed,
}

/// What one inbound UDP datagram amounts to, continuations included.
pub enum DatagramOutcome {
    /// Send these datagrams to the peer, in this order.
    Transmit(Vec<Vec<u8>>),
    /// Hand the plaintext IPv4 frame to the TCP/IP stack, and send the
    /// continuation datagrams that were queued behind it, in this order.
    Deliver { frame: Vec<u8>, replies: Vec<Vec<u8>> },
    /// Nothing to do: a keepalive, or a datagram that was rejected.
    Ignore,
}

/// The noise-protocol session with the tunnel peer.
pub struct TunnelSession {
    tun: boringtun::noise::Tunn,
}

impl TunnelSession {
    /// Relies on boringtun's `Tunn::new`: builds the noise state from the
    /// 32-byte local private key and peer public key, with an optional
    /// 32-byte preshared key.
    #[verifier::external_body]
    pub fn new(
        private_key: &Vec<u8>,
        peer_public_key: &Vec<u8>,
        preshared_key: Option<Vec<u8>>,
    ) -> (s: TunnelSession)
        requires
            private_key@.len() == 32,
            peer_public_key@.len() == 32,
            preshared_key matches Some(k) ==> k@.len() == 32,
    {
        let sk: [u8; 32] = private_key.as_slice().try_into().unwrap();
        let pk: [u8; 32] = peer_public_key.as_slice().try_into().unwrap();
        let psk: Option<[u8; 32]> = preshared_key.map(|k| k.as_slice().try_into().unwrap());
        TunnelSession {
            tun: boringtun::noise::Tunn::new(sk.into(), pk.into(), psk, None, 0, None),
        }
    }

    /// Relies on `Tunn::format_handshake_initiation`: a handshake initiation
    /// datagram to send, or nothing while one is already in flight.
    #[verifier::external_body]
    pub fn initiation(&mut self) -> (r: Option<Vec<u8>>) {
        let mut dst = vec![0u8; 2048];
        match self.tun.format_handshake_initiation(&mut dst, false) {
            boringtun::noise::TunnResult::WriteToNetwork(b) => Some(b.to_vec()),
            _ => None,
        }
    }

    /// Relies on `Tunn::encapsulate`: the ciphertext datagram carrying the
    /// frame, or nothing while the handshake is still in progress — the
    /// frame is then queued (the session holds up to 256) and resent at the
    /// continuation drain once the handshake completes. The length bound
    /// keeps every queued frame within the drain's scratch buffer; an IPv4
    /// frame is at most 65,535 bytes, so it costs callers nothing.
    #[verifier::external_body]
    pub fn encapsulate(&mut self, frame: &Vec<u8>) -> (r: Option<Vec<u8>>)
        requires
            frame@.len() <= 65536,
    {
        let mut dst = vec![0u8; frame.len() + 2048];
        match self.tun.encapsulate(frame.as_slice(), &mut dst) {
            boringtun::noise::TunnResult::WriteToNetwork(b) => Some(b.to_vec()),
            _ => None,
        }
    }

    /// Relies on `Tunn::update_timers`: the retransmission, rekey or
    /// keepalive datagram the noise-protocol schedule calls for, if any.
    /// Must be called at least once per second.
    #[verifier::external_body]
    pub fn update_timers(&mut self) -> (r: Option<Vec<u8>>) {
        let mut dst = vec![0u8; 2048];
        match self.tun.update_timers(&mut dst) {
            boringtun::noise::TunnResult::WriteToNetwork(b) => Some(b.to_vec()),
            _ => None,
        }
    }

    /// Relies on `Tunn::decapsulate`: the reaction to one UDP datagram; an
    /// empty datagram asks for the next queued continuation, and after a
    /// non-quiet step the call must be repeated with an empty datagram
    /// until the session goes quiet. The scratch buffer covers cookie
    /// replies, handshake responses, decrypted frames of the datagram's own
    /// size, and any queued frame, which `encapsulate` bounds at 65,536
    /// bytes plus the 32-byte data-packet overhead.
    #[verifier::external_body]
    fn decap(&mut self, datagram: &[u8]) -> (r: TunnelStep) {
        let mut dst = vec![0u8; datagram.len() + 65568];
        match self.tun.decapsulate(None, datagram, &mut dst) {
            boringtun::noise::TunnResult::WriteToNetwork(b) => TunnelStep::Reply(b.to_vec()),
            boringtun::noise::TunnResult::WriteToTunnelV4(b, _) => TunnelStep::Deliver(b.to_vec()),
            boringtun::noise::TunnResult::WriteToTunnelV6(_, _) => TunnelStep::Quiet,
            boringtun::noise::TunnResult::Done => TunnelStep::Quiet,
            boringtun::noise::TunnResult::Err(_) => TunnelStep::Failed,
        }
    }

    /// Fetches the continuation datagrams queued behind a handshake reply,
    /// one by one, until the session goes quiet. The session's queue holds
    /// at most 256 packets, so that many polls suffice. The result is
    /// exactly the datagrams of the leading replies, in the order they were
    /// polled.
    pub fn drain_continuations(&mut self) -> (out: Vec<Vec<u8>>)
        ensures
            out@.len() <= 256,
    {
        let mut out: Vec<Vec<u8>> = Vec::new();
        let empty: Vec<u8> = Vec::new();
        let mut rounds: usize = 0;
        while rounds < 256
            invariant
                rounds <= 256,
                out@.len() <= rounds,
            decreases 256 - rounds,
        {
            let step = self.decap(empty.as_slice());
            match continuation_of(step) {
                Some(b) => {
                    out.push(b);
                },
                None => {
                    return out;
                },
            }
            rounds = rounds + 1;
        }
        out
    }

    /// Processes one inbound UDP datagram: after a handshake reply or a
    /// decapsulated IPv4 frame the queued continuations are drained, in
    /// order — a reply is transmitted ahead of them, a frame goes to the
    /// stack beside them; keepalives and rejected datagrams are absorbed.
    /// The mapping from the tunnel's step to the outcome is [`settle`];
    /// only the step itself comes from the outside call.
    pub fn process_datagram(&mut self, datagram: &Vec<u8>) -> (r: DatagramOutcome)
        ensures
            r matches DatagramOutcome::Transmit(ds) ==> 1 <= ds@.len() <= 257,
            r matches DatagramOutcome::Deliver { frame, replies } ==> replies@.len() <= 256,
    {
        match self.decap(datagram.as_slice()) {
            TunnelStep::Reply(b) => {
                let continuations = self.drain_continuations();
                settle(TunnelStep::Reply(b), continuations)
            },
            TunnelStep::Deliver(f) => {
                let continuations = self.drain_continuations();
                settle(TunnelStep::Deliver(f), continuations)
            },
            step => settle(step, Vec::new()),
        }
    }
}

/// What one drain poll contributes: the continuation datagram of a reply,
/// and nothing for any other step, which ends the drain.
pub fn continuation_of(step: TunnelStep) -> (r: Option<Vec<u8>>)
    ensures
        match step {
            TunnelStep::Reply(b) => r == Some(b),
            _ => r is None,
        },
{
    match step {
        TunnelStep::Reply(b) => Some(b),
        _ => None,
    }
}

/// What one tunnel step amounts to: a reply is transmitted first, followed
/// by its queued continuations in order; a decapsulated frame is delivered
/// unchanged beside its continuations; a quiet or failed step is absorbed.
pub fn settle(step: TunnelStep, continuations: Vec<Vec<u8>>) -> (r: DatagramOutcome)
    ensures
        step matches TunnelStep::Reply(b) ==> (r matches DatagramOutcome::Transmit(ds) && ds@
            == seq![b] + continuations@),
        step matches TunnelStep::Deliver(f) ==> (r matches DatagramOutcome::Deliver {
            frame,
            replies,
        } && frame == f && replies@ == continuations@),
        (step is Quiet || step is Failed) ==> r is Ignore,
{
    match step {
        TunnelStep::Reply(b) => {
            let mut ds = continuations;
            ds.insert(0, b);
            proof {
                assert(ds@ =~= seq![b] + continuations@);
            }
            DatagramOutcome::Transmit(ds)
        },
        TunnelStep::Deliver(f) => DatagramOutcome::Deliver { frame: f, replies: continuations },
        TunnelStep::Quiet => DatagramOutcome::Ignore,
        TunnelStep::Failed => DatagramOutcome::Ignore,
    }
}

/// The bounded handshake phase: the engine prioritizes handshake traffic
/// until the tunnel session reports active or the deadline passes, and then
/// enters steady state regardless, so the host is never blocked on a peer
/// that does not answer.
pub struct HandshakeGate {
    deadline_millis: u64,
    complete: bool,
}

impl HandshakeGate {
    /// Whether the session has been observed active.
    pub closed spec fn is_complete(self) -> bool {
        self.complete
    }

    /// The instant past which the phase ends regardless.
    pub closed spec fn deadline(self) -> u64 {
        self.deadline_millis
    }

    /// Opens the phase: not complete, bounded at `bound_millis` from now.
    pub fn new(now_millis: u64, bound_millis: u64) -> (g: HandshakeGate)
        requires
            now_millis + bound_millis <= u64::MAX,
        ensures
            !g.is_complete(),
            g.deadline() == now_millis + bound_millis,
    {
        HandshakeGate { deadline_millis: now_millis + bound_millis, complete: false }
    }

    /// Records a probe of the session: once one encapsulation has
    /// succeeded, the session is active and stays so.
    pub fn observe_probe(&mut self, session_active: bool)
        ensures
            final(self).is_complete() == (old(self).is_complete() || session_active),
            final(self).deadline() == old(self).deadline(),
    {
        if session_active {
            self.complete = true;
        }
    }

    /// Whether the phase goes on: only while the session is not yet active
    /// and the deadline has not passed.
    pub fn should_wait(&self, now_millis: u64) -> (b: bool)
        ensures
            b == (!self.is_complete() && now_millis < self.deadline()),
    {
        !self.complete && now_millis < self.deadline_millis
    }
}

} // verus!

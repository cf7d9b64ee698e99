//! Construction of the synthetic heartbeat packet.
//!
//! On every heartbeat tick the engine injects one small IPv4/UDP packet,
//! addressed from the configured source to the discard service of the
//! tunnel network's first host, so that an idle tunnel still performs its
//! handshake or rekey. The packet is built here byte by byte, header
//! checksum included.

use vstd::prelude::*;
use crate::addr::Ipv4;

verus! {

/// End-around-carry folding of a sum of 16-bit words into 16 bits, as the
/// internet checksum prescribes. Two folds suffice for any sum below 2^32.
pub open spec fn fold16(x: int) -> int {
    let once = x % 0x10000 + x / 0x10000;
    once % 0x10000 + once / 0x10000
}

/// The sum of the heartbeat header's 16-bit words with the checksum field
/// zero: version and header length, total length 32, time-to-live 64 with
/// protocol 17, the source address, and the destination 10.245.1.1.
pub open spec fn heartbeat_sum(src: Ipv4) -> int {
    0x4500 + 32 + 0x4011 + (src.a * 256 + src.b) + (src.c * 256 + src.d) + 0x0af5 + 0x0101
}

/// The header checksum of the heartbeat packet: the ones' complement of the
/// folded word sum.
pub open spec fn heartbeat_checksum(src: Ipv4) -> int {
    0xffff - fold16(heartbeat_sum(src))
}

/// The heartbeat packet: a 20-byte IPv4 header followed by an 8-byte UDP
/// header to port 9 (discard) and four bytes of padding payload.
pub open spec fn heartbeat_bytes(src: Ipv4) -> Seq<u8> {
    seq![
        0x45u8,
        0,
        0,
        32,
        0,
        0,
        0,
        0,
        64,
        17,
        (heartbeat_checksum(src) / 256) as u8,
        (heartbeat_checksum(src) % 256) as u8,
        src.a,
        src.b,
        src.c,
        src.d,
        10,
        245,
        1,
        1,
        0,
        0,
        0,
        9,
        0,
        12,
        0,
        0,
        0,
        0,
        0,
        0,
    ]
}

/// The checksum makes the packet verify: summing all header words,
/// checksum included, folds to 0xffff, which is what a receiver checks.
pub proof fn lemma_heartbeat_checksum_valid(src: Ipv4)
    ensures
        0 <= heartbeat_checksum(src) <= 0xffff,
        fold16(heartbeat_sum(src) + heartbeat_checksum(src)) == 0xffff,
{
    let s = heartbeat_sum(src);
    assert(0 <= s < 0x30000);
    assert(0 <= fold16(s) <= 0xffff);
    assert(fold16(s + (0xffff - fold16(s))) == 0xffff);
}

/// Builds the heartbeat packet for a source address: exactly the bytes of
/// [`heartbeat_bytes`], checksum included.
pub fn heartbeat_packet(src: Ipv4) -> (p: Vec<u8>)
    ensures
        p@ == heartbeat_bytes(src),
        p@.len() == 32,
{
    let a = src.a as u32;
    let b = src.b as u32;
    let c = src.c as u32;
    let d = src.d as u32;
    let sum: u32 = 0x4500 + 32 + 0x4011 + (a * 256 + b) + (c * 256 + d) + 0x0af5 + 0x0101;
    let once: u32 = sum % 0x10000 + sum / 0x10000;
    let folded: u32 = once % 0x10000 + once / 0x10000;
    let ck: u32 = 0xffff - folded;
    proof {
        assert(ck == heartbeat_checksum(src));
        assert(ck <= 0xffff);
    }
    let ck_hi = (ck / 256) as u8;
    let ck_lo = (ck % 256) as u8;
    let p: Vec<u8> = vec![
        0x45u8,
        0,
        0,
        32,
        0,
        0,
        0,
        0,
        64,
        17,
        ck_hi,
        ck_lo,
        src.a,
        src.b,
        src.c,
        src.d,
        10,
        245,
        1,
        1,
        0,
        0,
        0,
        9,
        0,
        12,
        0,
        0,
        0,
        0,
        0,
        0,
    ];
    proof {
        assert(p@ =~= heartbeat_bytes(src));
    }
    p
}

} // verus!

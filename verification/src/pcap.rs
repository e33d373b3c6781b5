//! Reading Ethernet frames out of a packet capture (pcapng, or classic pcap
//! magic) held in memory.

use vstd::prelude::*;
use crate::models::{EthFrame, EthFrameView};
use crate::text::{dec_digits, int_text, push_decimal, push_int, push_str, string_of};

verus! {

/// Why a capture could not be read.
#[derive(Debug, Clone, Copy, PartialEq, Eq, Structural)]
pub enum PcapError {
    /// The first four bytes are neither a pcapng nor a classic pcap magic number.
    InvalidMagic,
}

impl PcapError {
    /// The error's message.
    pub fn message(&self) -> (r: &'static str)
        ensures
            r@ == "Not a valid pcapng or pcap file: invalid magic number"@,
    {
        "Not a valid pcapng or pcap file: invalid magic number"
    }
}

/// Little-endian 32-bit value at `p`.
pub open spec fn u32le(d: Seq<u8>, p: int) -> int {
    d[p] + d[p + 1] * 256 + d[p + 2] * 65536 + d[p + 3] * 16777216
}

/// Big-endian 16-bit value at `p`.
pub open spec fn be16(d: Seq<u8>, p: int) -> int {
    d[p] * 256 + d[p + 1]
}

pub open spec fn bytes_are(d: Seq<u8>, p: int, a: u8, b: u8, c: u8, e: u8) -> bool {
    d[p] == a && d[p + 1] == b && d[p + 2] == c && d[p + 3] == e
}

/// The first four bytes are a pcapng section header (either byte order) or a
/// classic pcap magic number (either byte order).
pub open spec fn magic_ok(d: Seq<u8>) -> bool {
    bytes_are(d, 0, 0x0A, 0x0D, 0x0D, 0x0A) || bytes_are(d, 0, 0x1A, 0x2B, 0x3C, 0x4D)
        || bytes_are(d, 0, 0xD4, 0xC3, 0xB2, 0xA1) || bytes_are(d, 0, 0xA1, 0xB2, 0xC3, 0xD4)
}

/// Where block parsing starts: 28 bytes past the first section-header marker
/// `0A 0D 0D 0A` at or after `p`, or the end of the data if there is none.
pub open spec fn shb_end(d: Seq<u8>, p: int) -> int
    decreases d.len() - p,
{
    if p < 0 || p >= d.len() {
        d.len() as int
    } else if d[p] == 0x0A && p + 3 < d.len() && d[p + 1] == 0x0D && d[p + 2] == 0x0D && d[p
        + 3] == 0x0A {
        p + 28
    } else {
        shb_end(d, p + 1)
    }
}

/// Start of the block after the one at `p`: advance by the block length,
/// then round up to a multiple of four.
pub open spec fn block_next(d: Seq<u8>, p: int) -> int {
    let q = p + u32le(d, p + 4);
    if q % 4 != 0 {
        q + 4 - q % 4
    } else {
        q
    }
}

/// Dotted-quad text of the IPv4 address at offset `o`.
pub open spec fn ip_text(pkt: Seq<u8>, o: int) -> Seq<char> {
    dec_digits(pkt[o] as nat) + "."@ + dec_digits(pkt[o + 1] as nat) + "."@ + dec_digits(
        pkt[o + 2] as nat,
    ) + "."@ + dec_digits(pkt[o + 3] as nat)
}

/// The TCP flag shown: FIN, else SYN, else ACK, else DATA.
pub open spec fn flag_text(f: u8) -> Seq<char> {
    if f % 2 == 1 {
        "FIN"@
    } else if (f / 2) % 2 == 1 {
        "SYN"@
    } else if (f / 16) % 2 == 1 {
        "ACK"@
    } else {
        "DATA"@
    }
}

/// Summary and direction of a captured packet: TCP or UDP endpoints of an
/// IPv4-over-Ethernet packet, and `ETH packet` / `-` otherwise.
pub open spec fn packet_summary(pkt: Seq<u8>) -> (Seq<char>, Seq<char>) {
    if pkt.len() >= 34 && pkt[12] == 0x08 && pkt[13] == 0x00 && pkt[14] / 16 == 4 {
        let src = ip_text(pkt, 26);
        let dst = ip_text(pkt, 30);
        let proto = pkt[23];
        if proto == 6 && 54 <= pkt.len() {
            (
                "TCP "@ + src + ":"@ + dec_digits(be16(pkt, 34) as nat) + " -> "@ + dst + ":"@
                    + dec_digits(be16(pkt, 36) as nat) + " "@ + flag_text(pkt[47]),
                "RX"@,
            )
        } else if proto == 17 && 42 <= pkt.len() {
            (
                "UDP "@ + src + ":"@ + dec_digits(be16(pkt, 34) as nat) + " -> "@ + dst + ":"@
                    + dec_digits(be16(pkt, 36) as nat),
                "RX"@,
            )
        } else {
            ("ETH packet"@, "-"@)
        }
    } else {
        ("ETH packet"@, "-"@)
    }
}

/// The frame of the enhanced packet block at `p`, when its captured bytes lie
/// within the data.
pub open spec fn packet_frame(d: Seq<u8>, p: int) -> Option<EthFrameView> {
    let ts = u32le(d, p + 12) * 1000 + u32le(d, p + 16) / 1000;
    let caplen = u32le(d, p + 20);
    if p + 28 + caplen <= d.len() {
        let s = packet_summary(d.subrange(p + 28, p + 28 + caplen));
        Some(
            EthFrameView {
                timestamp: ts as i64,
                iface: "eth0"@,
                direction: s.1,
                summary: s.0,
                raw: "pcapng packet @"@ + int_text(ts) + "ms len="@ + dec_digits(caplen as nat),
            },
        )
    } else {
        None
    }
}

/// The walk over blocks from `p` ends (it never meets an aligned block of
/// length zero, which would repeat forever).
pub open spec fn walk_ok(d: Seq<u8>, p: int) -> bool
    decreases d.len() - p,
{
    if p < 0 || p + 16 > d.len() {
        true
    } else if u32le(d, p) == 6 && p + 36 > d.len() {
        true
    } else {
        let q = block_next(d, p);
        if q <= p {
            false
        } else if q + 16 > d.len() {
            true
        } else {
            walk_ok(d, q)
        }
    }
}

/// The frame contributed by the block at `p`: one for an enhanced packet
/// block whose captured bytes fit, none otherwise.
pub open spec fn block_frames(d: Seq<u8>, p: int) -> Seq<EthFrameView> {
    if u32le(d, p) == 6 {
        match packet_frame(d, p) {
            Some(f) => seq![f],
            None => Seq::empty(),
        }
    } else {
        Seq::empty()
    }
}

/// The frames of the enhanced packet blocks (type 6) met walking from `p`.
pub open spec fn walk_frames(d: Seq<u8>, p: int) -> Seq<EthFrameView>
    decreases d.len() - p,
{
    if p < 0 || p + 16 > d.len() {
        Seq::empty()
    } else if u32le(d, p) == 6 && p + 36 > d.len() {
        Seq::empty()
    } else {
        let here = block_frames(d, p);
        let q = block_next(d, p);
        if q <= p || q + 16 > d.len() {
            here
        } else {
            here + walk_frames(d, q)
        }
    }
}

proof fn lemma_walk_step(d: Seq<u8>, p: int)
    requires
        0 <= p,
        p + 16 <= d.len(),
        walk_ok(d, p),
        !(u32le(d, p) == 6 && p + 36 > d.len()),
    ensures
        block_next(d, p) > p,
        block_next(d, p) + 16 <= d.len() ==> walk_ok(d, block_next(d, p)),
        walk_frames(d, p) == block_frames(d, p) + (if block_next(d, p) + 16 > d.len() {
            Seq::<EthFrameView>::empty()
        } else {
            walk_frames(d, block_next(d, p))
        }),
{
    if block_next(d, p) + 16 > d.len() {
        assert(block_frames(d, p) + Seq::<EthFrameView>::empty() =~= block_frames(d, p));
    }
}

/// What reading a capture gives: nothing for fewer than four bytes, an error
/// for a bad magic number, else the frames of the walk after the header.
pub open spec fn pcap_result(d: Seq<u8>) -> Result<Seq<EthFrameView>, PcapError> {
    if d.len() < 4 {
        Ok(Seq::empty())
    } else if !magic_ok(d) {
        Err(PcapError::InvalidMagic)
    } else {
        Ok(walk_frames(d, shb_end(d, 0)))
    }
}

/// Reading the capture comes to an end (see `walk_ok`).
pub open spec fn pcap_terminates(d: Seq<u8>) -> bool {
    d.len() >= 4 && magic_ok(d) ==> walk_ok(d, shb_end(d, 0))
}

fn read_u32le(data: &Vec<u8>, p: usize) -> (v: u64)
    requires
        p + 4 <= data@.len(),
    ensures
        v == u32le(data@, p as int),
{
    let _n = data.len();
    data[p] as u64 + (data[p + 1] as u64) * 256 + (data[p + 2] as u64) * 65536 + (data[p
        + 3] as u64) * 16777216
}

fn push_ip(out: &mut Vec<char>, data: &Vec<u8>, o: usize)
    requires
        o + 4 <= data@.len(),
    ensures
        final(out)@ == old(out)@ + ip_text(data@, o as int),
{
    let _n = data.len();
    push_decimal(out, data[o] as u64);
    push_str(out, ".");
    push_decimal(out, data[o + 1] as u64);
    push_str(out, ".");
    push_decimal(out, data[o + 2] as u64);
    push_str(out, ".");
    push_decimal(out, data[o + 3] as u64);
    assert(final(out)@ =~= old(out)@ + ip_text(data@, o as int));
}

fn summarize_packet(data: &Vec<u8>, s: usize, c: usize) -> (r: (Vec<char>, Vec<char>))
    requires
        s + c <= data@.len(),
    ensures
        (r.0@, r.1@) == packet_summary(data@.subrange(s as int, s + c)),
{
    let _n = data.len();
    let ghost pkt = data@.subrange(s as int, s + c);
    if c >= 34 && data[s + 12] == 0x08 && data[s + 13] == 0x00 && data[s + 14] / 16 == 4 {
        let proto = data[s + 23];
        if proto == 6 && 54 <= c {
            let mut out: Vec<char> = Vec::new();
            push_str(&mut out, "TCP ");
            push_ip(&mut out, data, s + 26);
            push_str(&mut out, ":");
            push_decimal(&mut out, (data[s + 34] as u64) * 256 + data[s + 35] as u64);
            push_str(&mut out, " -> ");
            push_ip(&mut out, data, s + 30);
            push_str(&mut out, ":");
            push_decimal(&mut out, (data[s + 36] as u64) * 256 + data[s + 37] as u64);
            push_str(&mut out, " ");
            let f = data[s + 47];
            let flag = if f % 2 == 1 {
                "FIN"
            } else if (f / 2) % 2 == 1 {
                "SYN"
            } else if (f / 16) % 2 == 1 {
                "ACK"
            } else {
                "DATA"
            };
            push_str(&mut out, flag);
            let mut dir: Vec<char> = Vec::new();
            push_str(&mut dir, "RX");
            proof {
                assert(ip_text(data@, s + 26) =~= ip_text(pkt, 26));
                assert(ip_text(data@, s + 30) =~= ip_text(pkt, 30));
                assert(flag@ == flag_text(pkt[47]));
                assert(out@ =~= packet_summary(pkt).0);
                assert(dir@ =~= "RX"@);
            }
            return (out, dir);
        } else if proto == 17 && 42 <= c {
            let mut out: Vec<char> = Vec::new();
            push_str(&mut out, "UDP ");
            push_ip(&mut out, data, s + 26);
            push_str(&mut out, ":");
            push_decimal(&mut out, (data[s + 34] as u64) * 256 + data[s + 35] as u64);
            push_str(&mut out, " -> ");
            push_ip(&mut out, data, s + 30);
            push_str(&mut out, ":");
            push_decimal(&mut out, (data[s + 36] as u64) * 256 + data[s + 37] as u64);
            let mut dir: Vec<char> = Vec::new();
            push_str(&mut dir, "RX");
            proof {
                assert(ip_text(data@, s + 26) =~= ip_text(pkt, 26));
                assert(ip_text(data@, s + 30) =~= ip_text(pkt, 30));
                assert(out@ =~= packet_summary(pkt).0);
                assert(dir@ =~= "RX"@);
            }
            return (out, dir);
        }
    }
    let mut out: Vec<char> = Vec::new();
    push_str(&mut out, "ETH packet");
    let mut dir: Vec<char> = Vec::new();
    push_str(&mut dir, "-");
    assert(out@ =~= "ETH packet"@);
    assert(dir@ =~= "-"@);
    (out, dir)
}

fn frame_at(data: &Vec<u8>, p: usize) -> (r: Option<EthFrame>)
    requires
        p + 36 <= data@.len(),
        data@.len() <= isize::MAX,
    ensures
        match r {
            Some(f) => packet_frame(data@, p as int) == Some(f@),
            None => packet_frame(data@, p as int) is None,
        },
{
    let _n = data.len();
    let ts_sec = read_u32le(data, p + 12);
    let ts_usec = read_u32le(data, p + 16);
    let timestamp_ms: i64 = (ts_sec as i64) * 1000 + (ts_usec as i64) / 1000;
    let caplen = read_u32le(data, p + 20);
    let start = p + 28;
    if (start as u64) + caplen <= data.len() as u64 {
        let c = caplen as usize;
        let (summary, direction) = summarize_packet(data, start, c);
        let mut raw: Vec<char> = Vec::new();
        push_str(&mut raw, "pcapng packet @");
        push_int(&mut raw, timestamp_ms);
        push_str(&mut raw, "ms len=");
        push_decimal(&mut raw, caplen);
        let mut iface: Vec<char> = Vec::new();
        push_str(&mut iface, "eth0");
        let f = EthFrame {
            timestamp: timestamp_ms,
            iface: string_of(&iface),
            direction: string_of(&direction),
            summary: string_of(&summary),
            raw: string_of(&raw),
        };
        proof {
            assert(iface@ =~= "eth0"@);
            let ts = u32le(data@, p + 12) * 1000 + u32le(data@, p + 16) / 1000;
            assert(timestamp_ms == ts);
            assert(raw@ =~= "pcapng packet @"@ + int_text(ts) + "ms len="@ + dec_digits(
                caplen as nat,
            ));
        }
        Some(f)
    } else {
        None
    }
}

/// Parse a pcapng (or classic pcap) capture into `EthFrame`s: one frame per
/// enhanced packet block whose captured bytes lie within the data, with its
/// timestamp in milliseconds and a TCP/UDP summary where the packet is IPv4.
pub fn parse_pcapng_eth(data: &Vec<u8>) -> (r: Result<Vec<EthFrame>, PcapError>)
    requires
        data@.len() <= isize::MAX,
        pcap_terminates(data@),
    ensures
        match r {
            Ok(frames) => pcap_result(data@) == Ok::<Seq<EthFrameView>, PcapError>(
                frames.deep_view(),
            ),
            Err(e) => pcap_result(data@) == Err::<Seq<EthFrameView>, PcapError>(e),
        },
{
    let ghost d = data@;
    let len = data.len();
    let mut frames: Vec<EthFrame> = Vec::new();
    if len < 4 {
        assert(frames.deep_view() =~= Seq::<EthFrameView>::empty());
        return Ok(frames);
    }
    let is_pcap_ng = (data[0] == 0x0A && data[1] == 0x0D && data[2] == 0x0D && data[3] == 0x0A)
        || (data[0] == 0x1A && data[1] == 0x2B && data[2] == 0x3C && data[3] == 0x4D);
    if !is_pcap_ng {
        let classic_le = data[0] == 0xD4 && data[1] == 0xC3 && data[2] == 0xB2 && data[3] == 0xA1;
        let classic_be = data[0] == 0xA1 && data[1] == 0xB2 && data[2] == 0xC3 && data[3] == 0xD4;
        if !classic_le && !classic_be {
            return Err(PcapError::InvalidMagic);
        }
    }
    // Skip past the section header block.
    let pos = header_end(data);
    let ghost start = shb_end(d, 0);
    let len64 = len as u64;
    if pos + 16 > len64 {
        assert(frames.deep_view() =~= walk_frames(d, start));
        return Ok(frames);
    }
    assert(frames.deep_view() + walk_frames(d, start) =~= walk_frames(d, start));
    assert(pcap_result(d) == Ok::<Seq<EthFrameView>, PcapError>(walk_frames(d, start)));
    let mut pos = pos;
    loop
        invariant
            d == data@,
            len == d.len(),
            len64 == len,
            len <= isize::MAX,
            d.len() >= 4,
            magic_ok(d),
            pos + 16 <= len64,
            walk_ok(d, pos as int),
            frames.deep_view() + walk_frames(d, pos as int) == walk_frames(d, start),
            pcap_result(d) == Ok::<Seq<EthFrameView>, PcapError>(walk_frames(d, start)),
        decreases len64 - pos,
    {
        let ghost before = frames.deep_view();
        let p = pos as usize;
        let block_type = read_u32le(data, p);
        let block_len = read_u32le(data, p + 4);
        if block_type == 6 && pos + 36 > len64 {
            assert(walk_frames(d, pos as int) == Seq::<EthFrameView>::empty());
            assert(frames.deep_view() =~= walk_frames(d, start));
            return Ok(frames);
        }
        proof {
            lemma_walk_step(d, pos as int);
        }
        if block_type == 6 {
            match frame_at(data, p) {
                Some(f) => {
                    frames.push(f);
                    assert(frames.deep_view() =~= before + block_frames(d, p as int));
                },
                None => {
                    assert(frames.deep_view() =~= before + block_frames(d, p as int));
                },
            }
        } else {
            assert(frames.deep_view() =~= before + block_frames(d, p as int));
        }
        let mut next: u64 = pos + block_len;
        if next % 4 != 0 {
            next = next + (4 - next % 4);
        }
        assert(next == block_next(d, p as int));
        if next + 16 > len64 {
            assert(frames.deep_view() =~= walk_frames(d, start));
            return Ok(frames);
        }
        assert(frames.deep_view() + walk_frames(d, next as int) =~= walk_frames(d, start));
        pos = next;
    }
}

fn header_end(data: &Vec<u8>) -> (pos: u64)
    requires
        data@.len() <= isize::MAX,
    ensures
        pos == shb_end(data@, 0),
        pos <= data@.len() + 28,
{
    let ghost d = data@;
    let len = data.len();
    let mut p: usize = 0;
    let mut found = false;
    let mut pos: u64 = len as u64;
    while p < len && !found
        invariant
            d == data@,
            len == d.len(),
            len <= isize::MAX,
            p <= len,
            shb_end(d, 0) == (if found {
                pos as int
            } else {
                shb_end(d, p as int)
            }),
            !found ==> pos == len,
            found ==> pos <= len + 28,
        decreases len - p + (if found { 0int } else { 1int }),
    {
        if data[p] == 0x0A && p + 3 < len && data[p + 1] == 0x0D && data[p + 2] == 0x0D
            && data[p + 3] == 0x0A {
            pos = (p as u64) + 28;
            found = true;
        } else {
            p = p + 1;
        }
    }
    pos
}

/// Whether reading the capture comes to an end: the block walk never meets
/// an aligned block of length zero (on which it would repeat forever).
pub fn capture_terminates(data: &Vec<u8>) -> (b: bool)
    requires
        data@.len() <= isize::MAX,
    ensures
        b == pcap_terminates(data@),
{
    let ghost d = data@;
    let len = data.len();
    if len < 4 {
        return true;
    }
    let magic = (data[0] == 0x0A && data[1] == 0x0D && data[2] == 0x0D && data[3] == 0x0A) || (
    data[0] == 0x1A && data[1] == 0x2B && data[2] == 0x3C && data[3] == 0x4D) || (data[0]
        == 0xD4 && data[1] == 0xC3 && data[2] == 0xB2 && data[3] == 0xA1) || (data[0] == 0xA1
        && data[1] == 0xB2 && data[2] == 0xC3 && data[3] == 0xD4);
    if !magic {
        return true;
    }
    let mut pos = header_end(data);
    let len64 = len as u64;
    if pos + 16 > len64 {
        return true;
    }
    loop
        invariant
            d == data@,
            len == d.len(),
            len64 == len,
            len <= isize::MAX,
            d.len() >= 4,
            magic_ok(d),
            pos + 16 <= len64,
            walk_ok(d, shb_end(d, 0)) == walk_ok(d, pos as int),
        decreases len64 - pos,
    {
        let p = pos as usize;
        let block_type = read_u32le(data, p);
        let block_len = read_u32le(data, p + 4);
        if block_type == 6 && pos + 36 > len64 {
            return true;
        }
        let mut next: u64 = pos + block_len;
        if next % 4 != 0 {
            next = next + (4 - next % 4);
        }
        assert(next == block_next(d, p as int));
        if next <= pos {
            return false;
        }
        if next + 16 > len64 {
            return true;
        }
        pos = next;
    }
}

} // verus!

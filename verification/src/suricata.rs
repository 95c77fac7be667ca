//! Plain-value models of the Suricata 8.0 structures that the plugin reads,
//! and the computations the plugin makes on them.
//!
//! Multi-byte header fields hold the values that the packet's big-endian
//! (network-order) bytes spell; `IPV4Hdr::from_be_bytes` and
//! `IPV6Hdr::from_be_bytes` decode them.
use vstd::prelude::*;

verus! {

/// Log level of errors.
pub const SC_LOG_ERROR: i32 = 2;

/// Log level of notices.
pub const SC_LOG_NOTICE: i32 = 5;

/// Length of the fixed IPv6 header.
pub const IPV6_HEADER_LEN: u16 = 40;

/// `PacketL3::type_` of an IPv4 packet.
pub const PACKET_L3_IPV4: i32 = 1;

/// `PacketL3::type_` of an IPv6 packet.
pub const PACKET_L3_IPV6: i32 = 2;

/// The IP protocol number of UDP.
pub const IPPROTO_UDP: u8 = 17;

/// Mask of the 44 low bits of a packed `SCTime_t`, which hold the seconds.
pub const TS_SECS_MASK: u64 = 0xfff_ffff_ffff;

/// An IPv4 header.
#[derive(Clone, Copy, Debug)]
pub struct IPV4Hdr {
    pub ip_verhl: u8,
    pub ip_tos: u8,
    pub ip_len: u16,
    pub ip_id: u16,
    pub ip_off: u16,
    pub ip_ttl: u8,
    pub ip_proto: u8,
    pub ip_csum: u16,
    pub ip_addrs: [u16; 4],
}

/// An IPv6 header.
#[derive(Clone, Copy, Debug)]
pub struct IPV6Hdr {
    pub ip6_un1_flow: u32,
    pub ip6_un1_plen: u16,
    pub ip6_un1_nxt: u8,
    pub ip6_un1_hlim: u8,
    pub ip6_addrs: [u16; 16],
}

/// The number that two bytes spell in big-endian order.
pub open spec fn be16_value(hi: u8, lo: u8) -> int {
    hi * 256 + lo
}

/// The number that four bytes spell in big-endian order.
pub open spec fn be32_value(b0: u8, b1: u8, b2: u8, b3: u8) -> int {
    ((b0 * 256 + b1) * 256 + b2) * 256 + b3
}

/// The big-endian 16-bit field at `at` in `b`.
pub open spec fn be16_at(b: Seq<u8>, at: int) -> int {
    be16_value(b[at], b[at + 1])
}

/// Reads two bytes in big-endian order.
pub fn be16(hi: u8, lo: u8) -> (r: u16)
    ensures
        r == be16_value(hi, lo),
{
    (hi as u16) * 256 + (lo as u16)
}

/// Reads four bytes in big-endian order.
pub fn be32(b0: u8, b1: u8, b2: u8, b3: u8) -> (r: u32)
    ensures
        r == be32_value(b0, b1, b2, b3),
{
    (((b0 as u32) * 256 + (b1 as u32)) * 256 + (b2 as u32)) * 256 + (b3 as u32)
}

/// Length of an IPv4 header without options, as Suricata lays it out.
pub const IPV4_HDR_BYTES: usize = 20;

/// Length of an IPv6 header, as Suricata lays it out.
pub const IPV6_HDR_BYTES: usize = 40;

impl IPV4Hdr {
    /// Decodes an IPv4 header from its 20 bytes as they lie in the packet.
    pub fn from_be_bytes(b: &[u8]) -> (h: IPV4Hdr)
        requires
            b.len() == IPV4_HDR_BYTES,
        ensures
            h.ip_verhl == b@[0],
            h.ip_tos == b@[1],
            h.ip_len == be16_at(b@, 2),
            h.ip_id == be16_at(b@, 4),
            h.ip_off == be16_at(b@, 6),
            h.ip_ttl == b@[8],
            h.ip_proto == b@[9],
            h.ip_csum == be16_at(b@, 10),
            forall|i: int| 0 <= i < 4 ==> #[trigger] h.ip_addrs@[i] == be16_at(b@, 12 + 2 * i),
    {
        let ip_addrs = [
            be16(b[12], b[13]),
            be16(b[14], b[15]),
            be16(b[16], b[17]),
            be16(b[18], b[19]),
        ];
        assert forall|i: int| 0 <= i < 4 implies #[trigger] ip_addrs@[i] == be16_at(b@, 12 + 2 * i) by {
            if i == 0 {
            } else if i == 1 {
            } else if i == 2 {
            } else {
            }
        }
        IPV4Hdr {
            ip_verhl: b[0],
            ip_tos: b[1],
            ip_len: be16(b[2], b[3]),
            ip_id: be16(b[4], b[5]),
            ip_off: be16(b[6], b[7]),
            ip_ttl: b[8],
            ip_proto: b[9],
            ip_csum: be16(b[10], b[11]),
            ip_addrs,
        }
    }
}

impl IPV6Hdr {
    /// Decodes an IPv6 header from its 40 bytes as they lie in the packet.
    pub fn from_be_bytes(b: &[u8]) -> (h: IPV6Hdr)
        requires
            b.len() == IPV6_HDR_BYTES,
        ensures
            h.ip6_un1_flow == be32_value(b@[0], b@[1], b@[2], b@[3]),
            h.ip6_un1_plen == be16_at(b@, 4),
            h.ip6_un1_nxt == b@[6],
            h.ip6_un1_hlim == b@[7],
            forall|i: int| 0 <= i < 16 ==> #[trigger] h.ip6_addrs@[i] == be16_at(b@, 8 + 2 * i),
    {
        let mut ip6_addrs: [u16; 16] = [0; 16];
        let mut i: usize = 0;
        while i < 16
            invariant
                b.len() == IPV6_HDR_BYTES,
                0 <= i <= 16,
                forall|j: int| 0 <= j < i ==> #[trigger] ip6_addrs@[j] == be16_at(b@, 8 + 2 * j),
            decreases 16 - i,
        {
            let v = be16(b[8 + 2 * i], b[9 + 2 * i]);
            ip6_addrs[i] = v;
            i = i + 1;
        }
        IPV6Hdr {
            ip6_un1_flow: be32(b[0], b[1], b[2], b[3]),
            ip6_un1_plen: be16(b[4], b[5]),
            ip6_un1_nxt: b[6],
            ip6_un1_hlim: b[7],
            ip6_addrs,
        }
    }
}

/// The layer-3 part of a packet: its type, and the header that Suricata's
/// header pointer leads to, read as the type says (`None` when the pointer
/// is null).
#[derive(Clone, Copy, Debug)]
pub struct PacketL3 {
    pub type_: i32,
    pub csum_set: bool,
    pub csum: u16,
    pub ip4h: Option<IPV4Hdr>,
    pub ip6h: Option<IPV6Hdr>,
}

/// The parts of a Suricata packet that the plugin reads.
#[derive(Clone, Copy, Debug)]
pub struct Packet {
    pub proto: u8,
    pub ts: u64,
    pub l3: PacketL3,
    pub pcap_cnt: u64,
}

/// The parts of a Suricata flow that the plugin reads.
#[derive(Clone, Copy, Debug)]
pub struct Flow {
    pub proto: u8,
    pub todstpktcnt: u32,
    pub tosrcpktcnt: u32,
}

/// The seconds stored in a packed `SCTime_t`.
pub open spec fn ts_secs(ts: u64) -> u64 {
    ts & TS_SECS_MASK
}

/// The microseconds stored in a packed `SCTime_t`.
pub open spec fn ts_usecs(ts: u64) -> u64 {
    ts >> 44u64
}

/// The time in milliseconds that a packed `SCTime_t` stands for.
pub open spec fn timestamp_millis_spec(ts: u64) -> int {
    ts_secs(ts) * 1000 + ts_usecs(ts) / 1000
}

/// The length of the IP packet that `l3` describes: the IPv4 total length,
/// or the IPv6 payload length plus the fixed IPv6 header; `None` for any
/// other type or a null header.
pub open spec fn ip_packet_len(l3: PacketL3) -> Option<int> {
    if l3.type_ == PACKET_L3_IPV4 {
        match l3.ip4h {
            Some(h) => Some(h.ip_len as int),
            None => None,
        }
    } else if l3.type_ == PACKET_L3_IPV6 {
        match l3.ip6h {
            Some(h) => Some(IPV6_HEADER_LEN + h.ip6_un1_plen),
            None => None,
        }
    } else {
        None
    }
}

/// Whether the length of `ip_packet_len` fits in 16 bits.
pub open spec fn ip_packet_len_fits(l3: PacketL3) -> bool {
    l3.type_ == PACKET_L3_IPV6 ==> match l3.ip6h {
        Some(h) => IPV6_HEADER_LEN + h.ip6_un1_plen <= u16::MAX,
        None => true,
    }
}

impl Packet {
    /// The length of the packet's IP packet, for IPv4 and IPv6 packets whose
    /// header is present.
    pub fn ip_packet(&self) -> (r: Option<u16>)
        requires
            ip_packet_len_fits(self.l3),
        ensures
            r matches Some(n) ==> ip_packet_len(self.l3) == Some(n as int),
            r is None ==> ip_packet_len(self.l3) is None,
    {
        if self.l3.type_ == PACKET_L3_IPV4 {
            match self.l3.ip4h {
                Some(h) => Some(h.ip_len),
                None => None,
            }
        } else if self.l3.type_ == PACKET_L3_IPV6 {
            match self.l3.ip6h {
                Some(h) => Some(IPV6_HEADER_LEN + h.ip6_un1_plen),
                None => None,
            }
        } else {
            None
        }
    }

    /// The packet's time in milliseconds (its `SCTime_t` holds seconds in the
    /// low 44 bits and microseconds in the high 20 bits).
    pub fn timestamp_millis(&self) -> (ms: u64)
        ensures
            ms == timestamp_millis_spec(self.ts),
    {
        let ts = self.ts;
        let secs = ts & TS_SECS_MASK;
        let usecs = ts >> 44u64;
        assert(secs <= TS_SECS_MASK) by (bit_vector)
            requires
                secs == ts & 0xfff_ffff_ffffu64,
        ;
        secs * 1000 + usecs / 1000
    }
}

/// Packing seconds (below 2^44) and microseconds (below 2^20) into an
/// `SCTime_t` and reading it back in milliseconds gives
/// `secs * 1000 + usecs / 1000`.
pub proof fn lemma_timestamp_packing(secs: u64, usecs: u64)
    requires
        secs <= TS_SECS_MASK,
        usecs < 0x10_0000,
    ensures
        timestamp_millis_spec((usecs << 44u64) | secs) == secs * 1000 + usecs / 1000,
{
    let ts = (usecs << 44u64) | secs;
    assert(ts & 0xfff_ffff_ffffu64 == secs && ts >> 44u64 == usecs) by (bit_vector)
        requires
            secs <= 0xfff_ffff_ffffu64,
            usecs < 0x10_0000u64,
            ts == (usecs << 44u64) | secs,
    ;
}

/// The bytes of `s` without its NUL bytes, in order.
pub open spec fn without_nul(s: Seq<u8>) -> Seq<u8>
    decreases s.len(),
{
    if s.len() == 0 {
        s
    } else if s.last() == 0 {
        without_nul(s.drop_last())
    } else {
        without_nul(s.drop_last()).push(s.last())
    }
}

/// The bytes of a text made fit for a C string: its NUL bytes dropped.
pub fn safe_cstring_bytes(val: &[u8]) -> (r: Vec<u8>)
    ensures
        r@ == without_nul(val@),
{
    let mut safe: Vec<u8> = Vec::new();
    let mut i: usize = 0;
    assert(val@.take(0) =~= Seq::<u8>::empty());
    while i < val.len()
        invariant
            0 <= i <= val.len(),
            safe@ == without_nul(val@.take(i as int)),
        decreases val.len() - i,
    {
        let c = val[i];
        assert(val@.take(i + 1).drop_last() =~= val@.take(i as int));
        if c != 0 {
            safe.push(c);
        }
        i = i + 1;
    }
    assert(val@.take(val.len() as int) =~= val@);
    safe
}

/// What `without_nul` keeps holds no NUL byte, and a text without NUL bytes
/// is kept whole.
pub proof fn lemma_without_nul(s: Seq<u8>)
    ensures
        !without_nul(s).contains(0u8),
        !s.contains(0u8) ==> without_nul(s) == s,
    decreases s.len(),
{
    if s.len() > 0 {
        let p = s.drop_last();
        lemma_without_nul(p);
        if !s.contains(0u8) {
            assert(!p.contains(0u8)) by {
                if p.contains(0u8) {
                    let j = choose|j: int| 0 <= j < p.len() && p[j] == 0u8;
                    assert(s[j] == 0u8);
                }
            }
            assert(s[s.len() - 1] != 0u8);
            assert(p.push(s.last()) =~= s);
        }
        if s.last() != 0 {
            let w = without_nul(p);
            assert(!w.push(s.last()).contains(0u8)) by {
                if w.push(s.last()).contains(0u8) {
                    let j = choose|j: int| 0 <= j < w.len() + 1 && w.push(s.last())[j] == 0u8;
                    if j < w.len() {
                        assert(w[j] == 0u8);
                    }
                }
            }
        }
    }
}

/// Where a log message goes.
#[derive(Clone, Copy, Debug, PartialEq, Eq, Structural)]
pub enum LogSink {
    /// Suricata's error log (`SCLogErr`).
    Error,
    /// Suricata's log of the message's own level (`SCLog`).
    Regular,
}

/// Errors go to Suricata's error log, every other level to its regular log.
pub fn log_sink(level: i32) -> (r: LogSink)
    ensures
        (r == LogSink::Error) == (level == SC_LOG_ERROR),
{
    if level == SC_LOG_ERROR {
        LogSink::Error
    } else {
        LogSink::Regular
    }
}

/// A Suricata JSON builder (`SCJsonBuilder`), by its address, never null.
pub struct SCJsonBuilder {
    ptr: usize,
}

impl SCJsonBuilder {
    #[verifier::type_invariant]
    spec fn non_null(&self) -> bool {
        self.ptr != 0
    }

    /// The address of the builder.
    pub closed spec fn handle(&self) -> usize {
        self.ptr
    }

    /// The builder at `handle`; `None` for a null builder, to which nothing
    /// is written.
    pub fn new(handle: usize) -> (r: Option<SCJsonBuilder>)
        ensures
            r is Some <==> handle != 0,
            r matches Some(b) ==> b.handle() == handle,
    {
        if handle == 0 {
            None
        } else {
            Some(SCJsonBuilder { ptr: handle })
        }
    }

    /// The address of the builder, never 0.
    pub fn as_ptr(&self) -> (r: usize)
        ensures
            r == self.handle(),
            r != 0,
    {
        proof {
            use_type_invariant(self);
        }
        self.ptr
    }
}

/// The next step of writing a flow's nDPI record into a JSON builder.
#[derive(Clone, Copy, Debug, PartialEq, Eq, Structural)]
pub enum JsonStep {
    /// Nothing was set up: stop here.
    Stop,
    /// The serializer is ready: serialize the flow and fetch its buffer.
    Serialize,
    /// Add the buffer to the builder, then terminate the serializer.
    EmitAndTerminate,
    /// Terminate the serializer without adding anything.
    Terminate,
}

/// The step after initialising nDPI's serializer with `init_status`: only a
/// serializer that initialised (status 0) is used.
pub fn json_after_init(init_status: i32) -> (r: JsonStep)
    ensures
        (r == JsonStep::Serialize) == (init_status == 0),
        (r == JsonStep::Stop) == (init_status != 0),
{
    if init_status == 0 {
        JsonStep::Serialize
    } else {
        JsonStep::Stop
    }
}

/// The step after the serializer handed back its buffer: the buffer is added
/// to the builder when it is present and not empty, and in every case the
/// serializer, which did initialise, is then terminated.
pub fn json_after_buffer(buffer_present: bool, buffer_len: u32) -> (r: JsonStep)
    ensures
        (r == JsonStep::EmitAndTerminate) == (buffer_present && buffer_len > 0),
        r == JsonStep::EmitAndTerminate || r == JsonStep::Terminate,
{
    if buffer_present && buffer_len > 0 {
        JsonStep::EmitAndTerminate
    } else {
        JsonStep::Terminate
    }
}

/// The IP packet length is the IPv4 total length, or the IPv6 payload length
/// plus the 40-byte fixed header, whatever the header's other fields; any
/// other layer-3 type, or a null header, gives none.
pub proof fn lemma_ip_packet_len(l3: PacketL3, h4: IPV4Hdr, h6: IPV6Hdr)
    ensures
        l3.type_ == PACKET_L3_IPV4 && l3.ip4h == Some(h4) ==> ip_packet_len(l3) == Some(
            h4.ip_len as int,
        ),
        l3.type_ == PACKET_L3_IPV6 && l3.ip6h == Some(h6) ==> ip_packet_len(l3) == Some(
            40 + h6.ip6_un1_plen,
        ),
        l3.type_ == PACKET_L3_IPV4 && l3.ip4h is None ==> ip_packet_len(l3) is None,
        l3.type_ == PACKET_L3_IPV6 && l3.ip6h is None ==> ip_packet_len(l3) is None,
        l3.type_ != PACKET_L3_IPV4 && l3.type_ != PACKET_L3_IPV6 ==> ip_packet_len(l3) is None,
{
}

/// Read from wire bytes, the IPv6 packet length is 40 plus the big-endian
/// payload length in bytes 4 and 5, and the IPv4 one the big-endian total
/// length in bytes 2 and 3.
pub proof fn lemma_ip_packet_len_from_wire(l3: PacketL3, h4: IPV4Hdr, h6: IPV6Hdr, b: Seq<u8>)
    ensures
        l3.type_ == PACKET_L3_IPV4 && l3.ip4h == Some(h4) && h4.ip_len == be16_at(b, 2)
            ==> ip_packet_len(l3) == Some(b[2] * 256 + b[3]),
        l3.type_ == PACKET_L3_IPV6 && l3.ip6h == Some(h6) && h6.ip6_un1_plen == be16_at(b, 4)
            ==> ip_packet_len(l3) == Some(40 + b[4] * 256 + b[5]),
{
}

/// Dropping NUL bytes works piece by piece: the text of two joined pieces is
/// the joined texts of the pieces, a NUL byte alone leaves nothing, and any
/// other byte alone is kept.
pub proof fn lemma_without_nul_concat(a: Seq<u8>, b: Seq<u8>, x: u8)
    ensures
        without_nul(a + b) == without_nul(a) + without_nul(b),
        without_nul(seq![0u8]) == Seq::<u8>::empty(),
        x != 0 ==> without_nul(seq![x]) == seq![x],
    decreases b.len(),
{
    assert(seq![0u8].drop_last() =~= Seq::<u8>::empty());
    assert(seq![x].drop_last() =~= Seq::<u8>::empty());
    assert(Seq::<u8>::empty().push(x) =~= seq![x]);
    assert(without_nul(Seq::<u8>::empty()) == Seq::<u8>::empty());
    assert(seq![0u8].last() == 0u8);
    assert(seq![x].last() == x);
    assert(without_nul(seq![0u8]) == without_nul(seq![0u8].drop_last()));
    if x != 0 {
        assert(without_nul(seq![x]) == without_nul(seq![x].drop_last()).push(x));
    }
    if b.len() == 0 {
        assert(a + b =~= a);
        assert(without_nul(a) + Seq::<u8>::empty() =~= without_nul(a));
    } else {
        lemma_without_nul_concat(a, b.drop_last(), x);
        assert((a + b).drop_last() =~= a + b.drop_last());
        assert((a + b).last() == b.last());
        if b.last() != 0 {
            assert(without_nul(a) + without_nul(b.drop_last()).push(b.last()) =~= (without_nul(a)
                + without_nul(b.drop_last())).push(b.last()));
        }
    }
}

} // verus!

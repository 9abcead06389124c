//! Connection events: the record that the kernel program publishes for each IPv4 connect
//! attempt, how the agent reads it from the ring buffer, what the panel shows of it, and the
//! bounded history of recent events.
use std::collections::VecDeque;

use vstd::endian::{endianness, Endian};
use vstd::prelude::*;
use vstd::utf8::{decode_utf8, pop_first_scalar, valid_utf8};

use crate::net::{ipv4_text, ipv4_to_text, is_loopback_addr, to_network_spec};
use crate::text::push_text;

verus! {

/// Length of a task's command name in the kernel (`TASK_COMM_LEN`).
pub const TASK_COMM_LEN: usize = 16;

/// Size in bytes of a `ConnectEvent` as the kernel program writes it.
pub const CONNECT_EVENT_SIZE: usize = 32;

/// The event that the kernel program emits for each IPv4 connect attempt.
#[derive(Clone, Copy)]
pub struct ConnectEvent {
    /// PID of the thread that connects.
    pub pid: u32,
    /// UID of the process.
    pub uid: u32,
    /// Destination IPv4 address, in host order.
    pub dst_ip4: u32,
    /// Destination port, in host order.
    pub dst_port: u16,
    /// 1 when the connection was refused; 0 when it was let through.
    pub blocked: u8,
    /// Padding (explicit alignment of the C layout).
    pub _pad: u8,
    /// Name of the process, padded with NUL bytes.
    pub comm: [u8; 16],
}

/// The native-endian `u32` whose memory holds the bytes `b0 b1 b2 b3`.
pub open spec fn native_u32(b0: u8, b1: u8, b2: u8, b3: u8) -> u32 {
    match endianness() {
        Endian::Little => (b0 + b1 * 0x100 + b2 * 0x10000 + b3 * 0x1000000) as u32,
        Endian::Big => (b3 + b2 * 0x100 + b1 * 0x10000 + b0 * 0x1000000) as u32,
    }
}

/// The native-endian `u16` whose memory holds the bytes `b0 b1`.
pub open spec fn native_u16(b0: u8, b1: u8) -> u16 {
    match endianness() {
        Endian::Little => (b0 + b1 * 0x100) as u16,
        Endian::Big => (b1 + b0 * 0x100) as u16,
    }
}

/// The `u32` stored at `bytes[at..at + 4]` in the machine's byte order.
/// Calls `u32::from_ne_bytes`; claims what its documentation says: the value whose native
/// memory representation is those four bytes.
#[verifier::external_body]
fn read_u32_native(bytes: &[u8], at: usize) -> (v: u32)
    requires
        at + 4 <= bytes@.len(),
    ensures
        v == native_u32(bytes@[at as int], bytes@[at + 1], bytes@[at + 2], bytes@[at + 3]),
{
    u32::from_ne_bytes([bytes[at], bytes[at + 1], bytes[at + 2], bytes[at + 3]])
}

/// The `u16` stored at `bytes[at..at + 2]` in the machine's byte order.
/// Calls `u16::from_ne_bytes`; claims what its documentation says: the value whose native
/// memory representation is those two bytes.
#[verifier::external_body]
fn read_u16_native(bytes: &[u8], at: usize) -> (v: u16)
    requires
        at + 2 <= bytes@.len(),
    ensures
        v == native_u16(bytes@[at as int], bytes@[at + 1]),
{
    u16::from_ne_bytes([bytes[at], bytes[at + 1]])
}

/// Whether `e` is the event laid out (in the C layout, native byte order) in `b`.
pub open spec fn decodes_to(b: Seq<u8>, e: ConnectEvent) -> bool {
    &&& e.pid == native_u32(b[0], b[1], b[2], b[3])
    &&& e.uid == native_u32(b[4], b[5], b[6], b[7])
    &&& e.dst_ip4 == native_u32(b[8], b[9], b[10], b[11])
    &&& e.dst_port == native_u16(b[12], b[13])
    &&& e.blocked == b[14]
    &&& e._pad == b[15]
    &&& forall|i: int| 0 <= i < 16 ==> #[trigger] e.comm@[i] == b[16 + i]
}

impl ConnectEvent {
    /// Reads an event from a ring-buffer record. Records shorter than an event are refused;
    /// bytes after the first `CONNECT_EVENT_SIZE` are ignored.
    pub fn from_bytes(bytes: &[u8]) -> (r: Option<ConnectEvent>)
        ensures
            r is Some <==> bytes@.len() >= 32,
            r matches Some(e) ==> decodes_to(bytes@, e),
    {
        if bytes.len() < CONNECT_EVENT_SIZE {
            return None;
        }
        let mut comm: [u8; 16] = [0u8; 16];
        let mut i: usize = 0;
        while i < TASK_COMM_LEN
            invariant
                0 <= i <= 16,
                bytes@.len() >= 32,
                forall|j: int| 0 <= j < i ==> #[trigger] comm@[j] == bytes@[16 + j],
            decreases 16 - i,
        {
            comm[i] = bytes[16 + i];
            i = i + 1;
        }
        Some(
            ConnectEvent {
                pid: read_u32_native(bytes, 0),
                uid: read_u32_native(bytes, 4),
                dst_ip4: read_u32_native(bytes, 8),
                dst_port: read_u16_native(bytes, 12),
                blocked: bytes[14],
                _pad: bytes[15],
                comm,
            },
        )
    }

    /// Whether the kernel refused this connection.
    pub fn was_blocked(&self) -> (b: bool)
        ensures
            b == (self.blocked != 0),
    {
        self.blocked != 0
    }
}

/// The text that `String::from_utf8_lossy` makes of `bytes`.
pub uninterp spec fn utf8_lossy(bytes: Seq<u8>) -> Seq<char>;

/// The text of `bytes`, with each invalid UTF-8 sequence replaced by U+FFFD.
/// Calls `String::from_utf8_lossy`; claims that the result depends on the bytes alone and,
/// as its documentation says, that valid UTF-8 is decoded unchanged. What it makes of invalid
/// sequences is left unsaid.
#[verifier::external_body]
fn lossy_text(bytes: &[u8]) -> (s: String)
    ensures
        s@ == utf8_lossy(bytes@),
        valid_utf8(bytes@) ==> s@ == decode_utf8(bytes@),
{
    String::from_utf8_lossy(bytes).into_owned()
}

/// `s` without the NUL characters at its end.
pub open spec fn trim_trailing_nuls(s: Seq<char>) -> Seq<char>
    decreases s.len(),
{
    if s.len() > 0 && s.last() == '\0' {
        trim_trailing_nuls(s.drop_last())
    } else {
        s
    }
}

/// The characters of bytes that are all ASCII, one character per byte.
pub open spec fn ascii_text(bytes: Seq<u8>) -> Seq<char> {
    Seq::new(bytes.len(), |i: int| bytes[i] as char)
}

/// Whether every byte is ASCII (below 0x80).
pub open spec fn all_ascii(bytes: Seq<u8>) -> bool {
    forall|i: int| 0 <= i < bytes.len() ==> #[trigger] bytes[i] < 0x80
}

/// Law: bytes that are all ASCII are valid UTF-8 and decode to one character per byte.
pub proof fn law_ascii_decodes_as_is(bytes: Seq<u8>)
    requires
        all_ascii(bytes),
    ensures
        valid_utf8(bytes),
        decode_utf8(bytes) == ascii_text(bytes),
    decreases bytes.len(),
{
    if bytes.len() > 0 {
        let b0 = bytes[0];
        assert(b0 < 0x80);
        assert((b0 & 0x7f) == b0) by (bit_vector)
            requires
                b0 < 0x80,
        ;
        let rest = bytes.subrange(1, bytes.len() as int);
        assert(pop_first_scalar(bytes) =~= rest);
        assert(all_ascii(rest)) by {
            assert forall|i: int| 0 <= i < rest.len() implies #[trigger] rest[i] < 0x80 by {
                assert(rest[i] == bytes[i + 1]);
            }
        }
        law_ascii_decodes_as_is(rest);
        assert(decode_utf8(bytes) =~= ascii_text(bytes));
    } else {
        assert(decode_utf8(bytes) =~= ascii_text(bytes));
    }
}

/// `text` without the NUL characters at its end.
pub fn trim_nuls(text: &str) -> (s: String)
    ensures
        s@ == trim_trailing_nuls(text@),
{
    let cs = crate::text::chars_of(text);
    let mut end: usize = cs.len();
    assert(cs@.subrange(0, end as int) =~= cs@);
    while end > 0 && cs[end - 1] == '\0'
        invariant
            0 <= end <= cs.len(),
            trim_trailing_nuls(cs@) == trim_trailing_nuls(cs@.subrange(0, end as int)),
        decreases end,
    {
        assert(cs@.subrange(0, end as int).drop_last() =~= cs@.subrange(0, end - 1));
        end = end - 1;
    }
    proof {
        if end > 0 {
            assert(cs@.subrange(0, end as int).last() == cs@[end - 1]);
        }
    }
    crate::text::string_of_range(&cs, 0, end)
}

/// The process name that a `comm` field holds: its text (invalid UTF-8 replaced) without the
/// NUL padding at its end. Valid UTF-8 is taken as it decodes; ASCII byte for byte.
pub fn comm_text(comm: &[u8; 16]) -> (s: String)
    ensures
        s@ == trim_trailing_nuls(utf8_lossy(comm@)),
        valid_utf8(comm@) ==> s@ == trim_trailing_nuls(decode_utf8(comm@)),
        all_ascii(comm@) ==> s@ == trim_trailing_nuls(ascii_text(comm@)),
{
    proof {
        if all_ascii(comm@) {
            law_ascii_decodes_as_is(comm@);
        }
    }
    let full = lossy_text(comm.as_slice());
    trim_nuls(full.as_str())
}

/// Law: a `comm` field of NUL bytes only names no process: its text is empty.
pub proof fn law_all_nul_comm_is_empty(comm: Seq<u8>)
    requires
        forall|i: int| 0 <= i < comm.len() ==> #[trigger] comm[i] == 0,
    ensures
        all_ascii(comm),
        trim_trailing_nuls(ascii_text(comm)).len() == 0,
    decreases comm.len(),
{
    if comm.len() > 0 {
        let init = comm.drop_last();
        law_all_nul_comm_is_empty(init);
        assert(ascii_text(comm).drop_last() =~= ascii_text(init));
        assert(ascii_text(comm).last() == '\0') by {
            assert(comm[comm.len() - 1] == 0);
        }
    }
}

/// An event as the panel and the event log show it.
#[derive(Debug, Clone)]
pub struct EventOut {
    /// When the agent read the event, in milliseconds since the Unix epoch.
    pub ts_ms: u64,
    /// PID of the thread that connected.
    pub pid: u32,
    /// UID of the process.
    pub uid: u32,
    /// Name of the process.
    pub comm: String,
    /// Destination address, dotted.
    pub ip: String,
    /// Destination port.
    pub port: u16,
    /// `block` or `allow`.
    pub action: String,
}

/// Whether an event is the panel's own traffic: a loopback destination on the panel's port.
pub open spec fn is_panel_traffic(raw: ConnectEvent, panel_port: Option<u16>) -> bool {
    is_loopback_addr(raw.dst_ip4) && panel_port == Some(raw.dst_port)
}

/// The action text of an event.
pub open spec fn action_text(blocked: bool) -> Seq<char> {
    if blocked {
        "block"@
    } else {
        "allow"@
    }
}

/// What the panel shows of a kernel event read at `ts_ms`, or `None` for the panel's own
/// traffic (a loopback destination on the panel's port), which is not recorded.
pub fn event_record(raw: &ConnectEvent, panel_port: Option<u16>, ts_ms: u64) -> (r: Option<
    EventOut,
>)
    ensures
        r is None <==> is_panel_traffic(*raw, panel_port),
        r matches Some(out) ==> {
            &&& out.ts_ms == ts_ms
            &&& out.pid == raw.pid
            &&& out.uid == raw.uid
            &&& out.comm@ == trim_trailing_nuls(utf8_lossy(raw.comm@))
            &&& valid_utf8(raw.comm@) ==> out.comm@ == trim_trailing_nuls(decode_utf8(raw.comm@))
            &&& all_ascii(raw.comm@) ==> out.comm@ == trim_trailing_nuls(ascii_text(raw.comm@))
            &&& out.ip@ == ipv4_text(raw.dst_ip4)
            &&& out.port == raw.dst_port
            &&& out.action@ == action_text(raw.blocked != 0)
        },
{
    if raw.dst_ip4 / 0x1000000 == 127 {
        if let Some(p) = panel_port {
            if p == raw.dst_port {
                return None;
            }
        }
    }
    let mut action = String::new();
    if raw.blocked != 0 {
        push_text(&mut action, "block");
    } else {
        push_text(&mut action, "allow");
    }
    Some(
        EventOut {
            ts_ms,
            pid: raw.pid,
            uid: raw.uid,
            comm: comm_text(&raw.comm),
            ip: ipv4_to_text(raw.dst_ip4),
            port: raw.dst_port,
            action,
        },
    )
}

/// The last `cap` elements of `s` (all of them when it has no more).
pub open spec fn keep_last<T>(s: Seq<T>, cap: nat) -> Seq<T> {
    if s.len() <= cap {
        s
    } else {
        s.subrange(s.len() - cap, s.len() as int)
    }
}

/// The most recent events, oldest first, at most `cap` of them.
pub struct History {
    events: VecDeque<EventOut>,
    cap: usize,
}

impl History {
    /// The events held, oldest first.
    pub closed spec fn events(&self) -> Seq<EventOut> {
        self.events@
    }

    /// How many events the history keeps at most.
    pub closed spec fn capacity(&self) -> nat {
        self.cap as nat
    }

    /// Whether the history holds no more than it keeps.
    pub closed spec fn wf(&self) -> bool {
        self.events@.len() <= self.cap
    }

    /// An empty history that keeps at most `cap` events.
    pub fn new(cap: usize) -> (h: History)
        ensures
            h.wf(),
            h.events().len() == 0,
            h.capacity() == cap,
    {
        History { events: VecDeque::new(), cap }
    }

    /// Records `ev` as the newest event and forgets the oldest ones beyond the capacity.
    pub fn record(&mut self, ev: EventOut)
        ensures
            final(self).capacity() == old(self).capacity(),
            final(self).events() == keep_last(old(self).events().push(ev), old(self).capacity()),
            final(self).wf(),
    {
        let ghost all = self.events@.push(ev);
        self.events.push_back(ev);
        assert(all.subrange(0, all.len() as int) =~= all);
        while self.events.len() > self.cap
            invariant
                self.cap == old(self).cap,
                self.events@.len() <= all.len(),
                self.events@ == all.subrange(all.len() - self.events@.len(), all.len() as int),
                self.events@.len() >= self.cap || self.events@.len() == all.len(),
            decreases self.events@.len(),
        {
            let _ = self.events.pop_front();
            assert(self.events@ =~= all.subrange(all.len() - self.events@.len(), all.len() as int));
        }
    }

    /// How many events the history holds.
    pub fn len(&self) -> (n: usize)
        ensures
            n == self.events().len(),
    {
        self.events.len()
    }

    /// The event at position `i`, oldest first.
    pub fn get(&self, i: usize) -> (e: &EventOut)
        requires
            i < self.events().len(),
        ensures
            *e == self.events()[i as int],
    {
        &self.events[i]
    }
}

/// Law: the history never holds more events than it keeps, and after an event is recorded
/// into a history that keeps any, that event is the newest one held.
pub proof fn law_history_bounded_newest_last(old_events: Seq<EventOut>, cap: nat, ev: EventOut)
    ensures
        keep_last(old_events.push(ev), cap).len() <= cap,
        cap > 0 ==> keep_last(old_events.push(ev), cap).last() == ev,
{
}

} // verus!

verus! {

/// The memory bytes of `x` in the machine's byte order.
pub open spec fn native_bytes32(x: u32) -> Seq<u8> {
    let b0 = (x % 0x100) as u8;
    let b1 = (x / 0x100 % 0x100) as u8;
    let b2 = (x / 0x10000 % 0x100) as u8;
    let b3 = (x / 0x1000000) as u8;
    match endianness() {
        Endian::Little => seq![b0, b1, b2, b3],
        Endian::Big => seq![b3, b2, b1, b0],
    }
}

/// The memory bytes of `x` in the machine's byte order.
pub open spec fn native_bytes16(x: u16) -> Seq<u8> {
    let b0 = (x % 0x100) as u8;
    let b1 = (x / 0x100) as u8;
    match endianness() {
        Endian::Little => seq![b0, b1],
        Endian::Big => seq![b1, b0],
    }
}

/// The 32 bytes that the kernel program writes for `e` (the C layout in native byte order).
pub open spec fn event_layout(e: ConnectEvent) -> Seq<u8> {
    native_bytes32(e.pid) + native_bytes32(e.uid) + native_bytes32(e.dst_ip4) + native_bytes16(
        e.dst_port,
    ) + seq![e.blocked, e._pad] + e.comm@
}

proof fn lemma_native32_round_trip(x: u32)
    ensures
        native_bytes32(x).len() == 4,
        native_u32(native_bytes32(x)[0], native_bytes32(x)[1], native_bytes32(x)[2], native_bytes32(x)[3]) == x,
{
    let b0 = x % 0x100;
    let b1 = x / 0x100 % 0x100;
    let b2 = x / 0x10000 % 0x100;
    let b3 = x / 0x1000000;
    assert(b0 + b1 * 0x100 + b2 * 0x10000 + b3 * 0x1000000 == x) by (bit_vector)
        requires
            b0 == x % 0x100,
            b1 == x / 0x100 % 0x100,
            b2 == x / 0x10000 % 0x100,
            b3 == x / 0x1000000,
    ;
    assert(b3 < 0x100) by (bit_vector)
        requires
            b3 == x / 0x1000000,
    ;
}

proof fn lemma_native16_round_trip(x: u16)
    ensures
        native_bytes16(x).len() == 2,
        native_u16(native_bytes16(x)[0], native_bytes16(x)[1]) == x,
{
    let b0 = x % 0x100;
    let b1 = x / 0x100;
    assert(b0 + b1 * 0x100 == x) by (bit_vector)
        requires
            b0 == x % 0x100,
            b1 == x / 0x100,
    ;
    assert(b1 < 0x100) by (bit_vector)
        requires
            b1 == x / 0x100,
    ;
}

/// Law: reading an event back from the bytes the kernel program writes for it gives that
/// event, for every value of every field.
pub proof fn law_layout_decodes_back(e: ConnectEvent)
    ensures
        event_layout(e).len() == 32,
        decodes_to(event_layout(e), e),
{
    lemma_native32_round_trip(e.pid);
    lemma_native32_round_trip(e.uid);
    lemma_native32_round_trip(e.dst_ip4);
    lemma_native16_round_trip(e.dst_port);
    let b = event_layout(e);
    assert(b[0] == native_bytes32(e.pid)[0]);
    assert(b[1] == native_bytes32(e.pid)[1]);
    assert(b[2] == native_bytes32(e.pid)[2]);
    assert(b[3] == native_bytes32(e.pid)[3]);
    assert(b[4] == native_bytes32(e.uid)[0]);
    assert(b[5] == native_bytes32(e.uid)[1]);
    assert(b[6] == native_bytes32(e.uid)[2]);
    assert(b[7] == native_bytes32(e.uid)[3]);
    assert(b[8] == native_bytes32(e.dst_ip4)[0]);
    assert(b[9] == native_bytes32(e.dst_ip4)[1]);
    assert(b[10] == native_bytes32(e.dst_ip4)[2]);
    assert(b[11] == native_bytes32(e.dst_ip4)[3]);
    assert(b[12] == native_bytes16(e.dst_port)[0]);
    assert(b[13] == native_bytes16(e.dst_port)[1]);
    assert(b[14] == e.blocked);
    assert(b[15] == e._pad);
    assert forall|i: int| 0 <= i < 16 implies #[trigger] e.comm@[i] == b[16 + i] by {
        assert(b[16 + i] == e.comm@[i]);
    }
}

/// Law: a record decodes to at most one event.
pub proof fn law_decoding_unique(b: Seq<u8>, e1: ConnectEvent, e2: ConnectEvent)
    requires
        b.len() >= 32,
        decodes_to(b, e1),
        decodes_to(b, e2),
    ensures
        e1 == e2,
{
    assert(e1.comm =~= e2.comm) by {
        assert forall|i: int| 0 <= i < 16 implies e1.comm[i] == e2.comm[i] by {
            assert(e1.comm@[i] == b[16 + i]);
            assert(e2.comm@[i] == b[16 + i]);
        }
    }
}

/// Law: a map key holds the network's bytes in big-endian (network) order in memory: the
/// native integer whose memory bytes are the network's bytes, most significant first.
pub proof fn law_network_key_bytes(net: u32)
    ensures
        to_network_spec(net) == native_u32(
            (net / 0x1000000) as u8,
            (net / 0x10000 % 0x100) as u8,
            (net / 0x100 % 0x100) as u8,
            (net % 0x100) as u8,
        ),
{
    let b3 = net / 0x1000000;
    assert(b3 < 0x100) by (bit_vector)
        requires
            b3 == net / 0x1000000,
    ;
}

/// Law: the history keeps exactly the newest `min(len, cap)` elements of what it was given,
/// oldest first, each at its place in that suffix.
pub proof fn law_keep_last_is_newest_suffix<T>(s: Seq<T>, cap: nat)
    ensures
        keep_last(s, cap).len() == if s.len() <= cap {
            s.len()
        } else {
            cap
        },
        forall|i: int|
            0 <= i < keep_last(s, cap).len() ==> #[trigger] keep_last(s, cap)[i] == s[s.len()
                - keep_last(s, cap).len() + i],
{
}

} // verus!

//! The decisions of the kernel-side hook on IPv4 connect calls: which key it looks up, whether
//! it refuses the call, and the event it publishes.
use vstd::endian::{endianness, Endian};
use vstd::prelude::*;

use crate::event::ConnectEvent;
use crate::net::to_network_spec;

verus! {

/// The hook's answer that refuses the connect call (it fails with EPERM).
pub const SK_DROP: i32 = 0;

/// The hook's answer that lets the connect call through.
pub const SK_PASS: i32 = 1;

/// `x` converted from big-endian (network) order to the machine's order, as `u32::from_be`
/// does: unchanged on a big-endian machine, byte-swapped on a little-endian one.
pub open spec fn from_network_spec(x: u32) -> u32 {
    to_network_spec(x)
}

/// `x` with its two bytes in the opposite order.
pub open spec fn swap_bytes16(x: u16) -> u16 {
    ((x % 0x100) * 0x100 + x / 0x100) as u16
}

/// `x` converted from big-endian (network) order to the machine's order, as `u16::from_be`
/// does.
pub open spec fn port_from_network_spec(x: u16) -> u16 {
    match endianness() {
        Endian::Big => x,
        Endian::Little => swap_bytes16(x),
    }
}

/// Converts an address from network to host byte order.
/// Calls `u32::from_be`; claims what its documentation says: no change on a big-endian
/// machine, the bytes swapped on a little-endian one.
#[verifier::external_body]
fn address_from_network(x: u32) -> (r: u32)
    ensures
        r == from_network_spec(x),
{
    u32::from_be(x)
}

/// Converts a port from network to host byte order.
/// Calls `u16::from_be`; claims what its documentation says: no change on a big-endian
/// machine, the bytes swapped on a little-endian one.
#[verifier::external_body]
fn port_from_network(x: u16) -> (r: u16)
    ensures
        r == port_from_network_spec(x),
{
    u16::from_be(x)
}

/// The key the hook looks up in the block map for a destination: the address as the socket
/// holds it (network byte order) with the full prefix length, so that the longest-prefix
/// match finds every listed block that contains it.
pub fn lookup_key(user_ip4: u32) -> (k: (u32, u32))
    ensures
        k == (user_ip4, 32u32),
{
    (user_ip4, 32)
}

/// Whether listed destinations are refused, from the control switch: only a written 0 turns
/// refusal off (monitor mode); an unreadable switch keeps the default, enforce.
pub open spec fn enforcing_spec(control: Option<u32>) -> bool {
    control != Some(0u32)
}

/// Whether the hook refuses a connect call: the destination is listed and the control switch
/// does not say monitor.
pub open spec fn refuses(listed: bool, control: Option<u32>) -> bool {
    listed && enforcing_spec(control)
}

/// The hook's answer and the `blocked` flag of its event.
pub struct Verdict {
    /// `SK_DROP` or `SK_PASS`.
    pub action: i32,
    /// Whether the connect call is refused.
    pub blocked: bool,
}

/// The hook's answer for a destination: refused exactly when it is listed and the control
/// switch does not say monitor.
pub fn connect_verdict(listed: bool, control: Option<u32>) -> (v: Verdict)
    ensures
        v.blocked == refuses(listed, control),
        v.action == (if v.blocked {
            SK_DROP
        } else {
            SK_PASS
        }),
{
    let enforcing = match control {
        Some(c) => c != 0,
        None => true,
    };
    let blocked = listed && enforcing;
    Verdict {
        action: if blocked {
            SK_DROP
        } else {
            SK_PASS
        },
        blocked,
    }
}

impl ConnectEvent {
    /// The event the hook publishes: the thread id from the high half of `pid_tgid`, the uid
    /// from the low half of `uid_gid`, the destination address and port in host order, the
    /// verdict, and the process name (all NUL when it could not be read).
    pub fn observed(
        pid_tgid: u64,
        uid_gid: u64,
        user_ip4: u32,
        user_port: u32,
        blocked: bool,
        comm: Option<[u8; 16]>,
    ) -> (e: ConnectEvent)
        ensures
            e.pid == pid_tgid / 0x1_0000_0000,
            e.uid == uid_gid % 0x1_0000_0000,
            e.dst_ip4 == from_network_spec(user_ip4),
            e.dst_port == port_from_network_spec((user_port % 0x10000) as u16),
            e.blocked == (if blocked {
                1u8
            } else {
                0u8
            }),
            e._pad == 0,
            comm matches Some(c) ==> e.comm == c,
            comm is None ==> forall|i: int| 0 <= i < 16 ==> #[trigger] e.comm@[i] == 0,
    {
        let name: [u8; 16] = match comm {
            Some(c) => c,
            None => [0u8; 16],
        };
        ConnectEvent {
            pid: (pid_tgid / 0x1_0000_0000) as u32,
            uid: (uid_gid % 0x1_0000_0000) as u32,
            dst_ip4: address_from_network(user_ip4),
            dst_port: port_from_network((user_port % 0x10000) as u16),
            blocked: if blocked {
                1
            } else {
                0
            },
            _pad: 0,
            comm: name,
        }
    }
}

/// Law: a destination that is not listed is never refused; in monitor mode (control switch 0)
/// no destination is refused; in enforce mode (control switch 1) every listed one is.
pub proof fn law_refuses_only_listed_in_enforce(listed: bool, control: Option<u32>)
    ensures
        !listed ==> !refuses(listed, control),
        control == Some(0u32) ==> !refuses(listed, control),
        control == Some(1u32) ==> (refuses(listed, control) == listed),
{
}

} // verus!

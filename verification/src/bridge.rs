//! Configuration of the TCP shim: the gateway address, the MACs and the
//! segmentation budget of guest-bound frames, and the dead-flow deadline.

use vstd::prelude::*;
use crate::flow::{FrameCtx, MAX_SEGMENT_PAYLOAD};
use crate::direct_rx::{guest_mss_for_mtu, guest_mss_for_mtu_spec, FAST_PATH_GUEST_MSS};
use crate::download::DEAD_FLOW_TIMEOUT;

verus! {

/// Start of the inbound ephemeral port range.
pub const INBOUND_EPHEMERAL_START: u16 = 61000;

/// End of the inbound ephemeral port range (inclusive).
pub const INBOUND_EPHEMERAL_END: u16 = 65535;

/// Most concurrent in-progress handshakes; excess SYNs are answered with RST.
pub const MAX_PENDING_SYNS: usize = 256;

/// Host-side connect timeout during a passive open (5 s).
pub const SYN_GATE_CONNECT_TIMEOUT: u64 = 5_000_000_000;

/// Window scale we advertise to the guest.
pub const SHIM_WSCALE: u8 = 7;

/// MSS we advertise to the guest.
pub const SHIM_MSS: u16 = 1460;

/// Broadcast MAC, the destination until the guest's MAC is known.
pub const BROADCAST_MAC: [u8; 6] = [0xFF, 0xFF, 0xFF, 0xFF, 0xFF, 0xFF];

/// Shim configuration.
pub struct TcpBridge {
    gateway_ip: [u8; 4],
    fast_path_gateway_mac: [u8; 6],
    fast_path_guest_mac: Option<[u8; 6]>,
    large_frames_enabled: bool,
    fast_path_guest_mss: usize,
    dead_flow_timeout: u64,
}

impl TcpBridge {
    #[verifier::type_invariant]
    spec fn mss_in_range(self) -> bool {
        1 <= self.fast_path_guest_mss <= MAX_SEGMENT_PAYLOAD
    }

    /// Gateway IP the guest uses.
    pub closed spec fn gateway(&self) -> [u8; 4] {
        self.gateway_ip
    }

    /// Frame context of guest-bound frames: gateway MAC as source, guest MAC
    /// (broadcast until known) as destination.
    pub closed spec fn ctx(&self) -> FrameCtx {
        FrameCtx {
            large_frames: self.large_frames_enabled,
            guest_mss: self.fast_path_guest_mss,
            gw_mac: self.fast_path_gateway_mac,
            guest_mac: match self.fast_path_guest_mac {
                Some(m) => m,
                None => BROADCAST_MAC,
            },
        }
    }

    /// Silence deadline of a solicited flow.
    pub closed spec fn dead_flow_deadline(&self) -> u64 {
        self.dead_flow_timeout
    }

    /// The guest's MAC has been learned.
    pub closed spec fn guest_mac_known(&self) -> bool {
        self.fast_path_guest_mac is Some
    }

    /// A shim for a guest whose gateway is `gateway_ip`: zero gateway MAC,
    /// guest MAC unknown, one datagram's payload per frame, no large
    /// frames, the default dead-flow deadline.
    pub fn new(gateway_ip: [u8; 4]) -> (b: Self)
        ensures
            b.gateway() == gateway_ip,
            b.ctx() == (FrameCtx {
                large_frames: false,
                guest_mss: FAST_PATH_GUEST_MSS,
                gw_mac: [0u8, 0u8, 0u8, 0u8, 0u8, 0u8],
                guest_mac: BROADCAST_MAC,
            }),
            !b.guest_mac_known(),
            b.dead_flow_deadline() == DEAD_FLOW_TIMEOUT,
    {
        TcpBridge {
            gateway_ip,
            fast_path_gateway_mac: [0u8, 0u8, 0u8, 0u8, 0u8, 0u8],
            fast_path_guest_mac: None,
            large_frames_enabled: false,
            fast_path_guest_mss: FAST_PATH_GUEST_MSS,
            dead_flow_timeout: DEAD_FLOW_TIMEOUT,
        }
    }

    /// Enables large frame mode (one GSO-style frame per read where the
    /// peer allows it).
    pub fn enable_large_frames(&mut self)
        ensures
            final(self).ctx() == (FrameCtx { large_frames: true, ..old(self).ctx() }),
            final(self).gateway() == old(self).gateway(),
            final(self).guest_mac_known() == old(self).guest_mac_known(),
            final(self).dead_flow_deadline() == old(self).dead_flow_deadline(),
    {
        proof {
            use_type_invariant(&*self);
        }
        self.large_frames_enabled = true;
    }

    /// Sizes guest-bound segments so each IPv4 packet fits an `mtu`-byte
    /// link (see [`guest_mss_for_mtu`]).
    pub fn set_fast_path_mtu(&mut self, mtu: usize)
        ensures
            final(self).ctx() == (FrameCtx {
                guest_mss: guest_mss_for_mtu_spec(mtu),
                ..old(self).ctx()
            }),
            final(self).gateway() == old(self).gateway(),
            final(self).guest_mac_known() == old(self).guest_mac_known(),
            final(self).dead_flow_deadline() == old(self).dead_flow_deadline(),
    {
        self.fast_path_guest_mss = guest_mss_for_mtu(mtu);
    }

    /// Sets the MAC addresses of guest-bound frames.
    pub fn set_fast_path_macs(&mut self, gateway_mac: [u8; 6], guest_mac: [u8; 6])
        ensures
            final(self).ctx() == (FrameCtx {
                gw_mac: gateway_mac,
                guest_mac: guest_mac,
                ..old(self).ctx()
            }),
            final(self).guest_mac_known(),
            final(self).gateway() == old(self).gateway(),
            final(self).dead_flow_deadline() == old(self).dead_flow_deadline(),
    {
        proof {
            use_type_invariant(&*self);
        }
        self.fast_path_gateway_mac = gateway_mac;
        self.fast_path_guest_mac = Some(guest_mac);
    }

    /// Overrides the dead-flow deadline.
    pub fn set_dead_flow_timeout(&mut self, timeout: u64)
        ensures
            final(self).dead_flow_deadline() == timeout,
            final(self).ctx() == old(self).ctx(),
            final(self).gateway() == old(self).gateway(),
            final(self).guest_mac_known() == old(self).guest_mac_known(),
    {
        proof {
            use_type_invariant(&*self);
        }
        self.dead_flow_timeout = timeout;
    }

    /// The frame context (see [`Self::ctx`]); always well formed.
    pub fn frame_ctx(&self) -> (c: FrameCtx)
        ensures
            c == self.ctx(),
            c.wf(),
    {
        proof {
            use_type_invariant(self);
        }
        FrameCtx {
            large_frames: self.large_frames_enabled,
            guest_mss: self.fast_path_guest_mss,
            gw_mac: self.fast_path_gateway_mac,
            guest_mac: match self.fast_path_guest_mac {
                Some(m) => m,
                None => BROADCAST_MAC,
            },
        }
    }

    pub fn gateway_ip(&self) -> (ip: [u8; 4])
        ensures
            ip == self.gateway(),
    {
        self.gateway_ip
    }

    pub fn dead_flow_timeout(&self) -> (t: u64)
        ensures
            t == self.dead_flow_deadline(),
    {
        self.dead_flow_timeout
    }
}

} // verus!

# splicetcp

The data plane of a frame-to-socket TCP shim between a VM guest and host
sockets, written in Verus. After the shim has synthesized a TCP handshake,
each flow is promoted to a fast path: guest segments are written to the
host socket and host bytes are framed back to the guest. Both endpoints
keep their own TCP stacks; the shim keeps only the sender-side duties it
cannot delegate.

`src/` is the verified library:

- `seqnum`, `checksum`, `ethernet`, `segment`: sequence-space arithmetic,
  RFC 1071 checksums, the frames built for the guest and the parsing of
  guest frames.
- `upload`: guest-to-host. The ACK cursor advances only over bytes the host
  socket took, in order; segments beyond a hole are parked, bounded.
- `download`: host-to-guest. Never beyond the guest's receive window;
  retransmission on triple duplicate ACK or RTO; persist probes; reaping of
  half-closed and dead flows.
- `fastpath`, `flow`: one flow's state and the steps taken on each guest
  frame; segmentation of host data into guest frames.
- `inline`, `rxplan`, `direct_rx`: frames written straight into guest
  receive buffers, the planning of merged reads and the scheduling of
  inline connections, and the owners that read a promoted flow's host
  stream themselves.
- `coalesce`: interrupt coalescing of the receive-injection loop.
- `handshake`, `bridge`: initial sequence numbers, the handshake
  retransmission schedule, the RST answering a refused SYN, and the shim's
  configuration.

`app/` holds the socket work around the verified decisions: the flow
table with its host streams, the Tokio reader of promoted connections, the
hand-off to the injection thread, and that thread, which reaches the
guest's receive virtqueue through a trait (the virtqueue belongs to the
VMM's virtio crate).

# tcp_switch

A TCP socket and an Ethernet switch, verified with Verus.

- `src/socket`: the ring buffer of a TCP stream, the state machine of a TCP socket, the model that
  its contracts speak of, and the laws that hold of it.
- `src/wire`: addresses, the wire format and checksum of TCP segments, Ethernet headers, the queues
  between the ports of a switch, and the switch itself.
- `tests`: tests on concrete values.
- `app`: devices, sharing between threads, logging and printing.

Sequence numbers go round: they are added and compared modulo 2^32.

Storage comes from the `managed` crate, so that a buffer can own its octets or borrow them. The two
ends of a queue share it through the reader-writer lock of `vstd`.

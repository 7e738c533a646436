# laminar

A connection layer over UDP, verified with Verus.

- `src/` is the verified library:
  - `packet_header`: the header of every datagram (protocol version,
    checksum, packet type, connection identity) and the handshake packets;
  - `address_connection`: the connection with one remote address and its
    handshake (request, challenge, challenge response, accepted or denied),
    its payload and its end;
  - `connection_manager`: one connection per remote address, created for a
    connection request or the user's connect, destroyed once done;
  - `client_connection`: the client's view of a connection as a state machine;
  - `reliability_system` with `headers`, `acknowledgment`, `arranging`,
    `fragmentation` and `sequence_buffer`: framing of packets, acknowledgement,
    ordering, sequencing and fragmentation;
  - `messenger`: what one step of the connections is given (time, settings,
    buffer size) and asks for (datagrams to send, events to report);
  - `wire`: byte order and checksums, taken from `byteorder` and `crc`.
- `app/` holds the socket: it owns the UDP socket and the clock, feeds the
  manager and performs what it asks for.
- `tests/` exercises the library on concrete values.

Times are milliseconds on the caller's clock.

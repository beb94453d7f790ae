# falcon_protocol

Reading and writing the data types of the Minecraft network protocol,
framing packets on a connection, and building the outgoing packets of
several protocol versions, with their behaviour stated in contracts and
proved by Verus.

## Layout

- `src/` — the verified library.
  - `buf`, `traits`, `num`, `varint`, `string`, `uuids`, `packet_bytes`,
    `collections`, `util`, `nbt`: the protocol's data types, each with the
    bytes it is written as (`wire`) and how it is read back (`parse`), and
    the laws that reading gives back what was written.
  - `handshake`: the handshake packet.
  - `reader`, `writer`: cutting packets out of the received stream
    (with compression and encryption) and framing outgoing packets (with
    compression); `stream` proves that the reader's framing does not depend
    on how the stream is cut, `decryption` that an encrypted stream is
    framed as its decryption is, however it is cut, `framing` that a
    written packet reads back, and `roundtrip` that packets framed by the
    writer, or plainly with the shortest length prefix, read back in order,
    however the stream is cut and whenever packets are asked for, in single
    packet mode too.
  - `receive`: which packet type a received packet is read as: the packet
    ids that packet types claim, per protocol version or in all of them,
    and the clashes between their claims.
  - `send`: the outgoing packets of protocol versions 1.8.9 to 1.16, the
    packet ids they are sent with in each version, the chunk data packing
    and height maps, and sending batches.
  - `ext`: the declarations of the outside crates' items the library calls
    (`bytes`, `uuid`, `flate2`, `aes`/`cfb8`), with the contracts believed of
    them.
- `tests/` — tests of the library on concrete values.
- `app/` — what stays outside the verified library: serde and NBT glue,
  error types with messages, packets with floating-point fields, and the
  code generators behind the packet macros.

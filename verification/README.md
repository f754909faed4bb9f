# wol_rs

Build Wake-on-LAN magic packets, and read and write the six-byte addresses
they carry, with the behaviour proved by Verus.

A magic packet is six `0xFF` bytes followed by the target MAC repeated sixteen
times (102 bytes); a six-byte SecureOn password may follow (108 bytes).

- `src/packet.rs`: the packet builders (`Vec` and fixed-size array forms) and
  the packet layout.
- `src/address.rs`: `parse_mac`, `parse_password`, `format_mac`, `ParseError`,
  and the laws of reading and writing addresses (separators anywhere, case
  insensitivity, format-then-parse round trip).
- `src/hex.rs`: hex digits, and `hex_dump` for printing packets.
- `src/targets.rs`: turning command-line addresses and a password into the
  packets to send.
- `app/main.rs`: the `wol-rs` command-line tool (argument parsing, UDP
  sending, printing).

//! Build Wake-on-LAN magic packets, and read and write the six-byte addresses
//! they carry.

pub mod address;
pub mod hex;
pub mod packet;
pub mod targets;

pub use address::{format_mac, parse_mac, parse_password, ParseError};
pub use packet::{
    magic_packet, magic_packet_array, magic_packet_with_password,
    magic_packet_with_password_array, ALT_BROADCAST_PORT, BROADCAST_PORT, MAGIC_PACKET_LEN,
    MAGIC_PACKET_WITH_PASSWORD_LEN,
};

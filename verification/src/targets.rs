//! Turning the addresses a user gives on the command line, and an optional
//! SecureOn password, into the packets to send.

use vstd::prelude::*;

use crate::address::{parse_address, parse_mac, parse_password, ParseError};
use crate::packet::{
    lemma_magic_packet_layout, lemma_password_packet_layout, magic_packet, magic_packet_bytes,
    magic_packet_with_password, magic_packet_with_password_bytes,
};

verus! {

/// Why a set of targets could not be turned into packets.
#[derive(Debug, Clone, PartialEq, Eq)]
pub enum TargetError {
    /// The SecureOn password did not parse.
    Password(ParseError),
    /// The MAC at this position among the given ones did not parse.
    Mac(usize, ParseError),
}

/// The packet for `mac`, with `password` appended where there is one.
pub open spec fn packet_bytes(mac: Seq<u8>, password: Option<Seq<u8>>) -> Seq<u8> {
    match password {
        Some(p) => magic_packet_with_password_bytes(mac, p),
        None => magic_packet_bytes(mac),
    }
}

/// The bytes of an optional six-byte value.
pub open spec fn option_bytes(b: Option<[u8; 6]>) -> Option<Seq<u8>> {
    match b {
        Some(x) => Some(x@),
        None => None,
    }
}

/// The bytes that `s` spells, where it spells an address.
pub open spec fn parsed_bytes(s: Seq<char>) -> Seq<u8> {
    match parse_address(s) {
        Ok(b) => b,
        Err(_) => seq![],
    }
}

/// Whether `s` spells an address.
pub open spec fn spells_address(s: Seq<char>) -> bool {
    parse_address(s) is Ok
}

/// Whether the password, if one is given, spells six bytes.
pub open spec fn password_ok(password: Option<&str>) -> bool {
    match password {
        Some(p) => spells_address(p@),
        None => true,
    }
}

/// The password's bytes, if one is given.
pub open spec fn password_bytes(password: Option<&str>) -> Option<Seq<u8>> {
    match password {
        Some(p) => Some(parsed_bytes(p@)),
        None => None,
    }
}

/// The packet for a MAC is the plain magic packet (six `0xFF`, then the MAC
/// sixteen times, 102 bytes), followed, where a password is given, by the
/// password's own six bytes in their order (108 bytes).
pub proof fn lemma_packet_bytes_layout(mac: Seq<u8>, password: Option<Seq<u8>>)
    requires
        mac.len() == 6,
        password matches Some(p) ==> p.len() == 6,
    ensures
        forall|i: int| 0 <= i < 6 ==> #[trigger] packet_bytes(mac, password)[i] == 0xFF,
        forall|k: int, j: int|
            0 <= k < 16 && 0 <= j < 6 ==> #[trigger] packet_bytes(mac, password)[6 + 6 * k + j]
                == mac[j],
        password is None ==> packet_bytes(mac, password).len() == 102,
        password matches Some(p) ==> packet_bytes(mac, password).len() == 108 && forall|i: int|
            0 <= i < 6 ==> #[trigger] packet_bytes(mac, password)[102 + i] == p[i],
{
    match password {
        Some(p) => lemma_password_packet_layout(mac, p),
        None => lemma_magic_packet_layout(mac),
    }
}

/// The packet to send to `mac`: the plain magic packet, or the one with the
/// SecureOn password appended where a password is given.
pub fn packet_for(mac: [u8; 6], password: Option<[u8; 6]>) -> (pkt: Vec<u8>)
    ensures
        pkt@ == packet_bytes(mac@, option_bytes(password)),
        forall|i: int| 0 <= i < 6 ==> #[trigger] pkt@[i] == 0xFF,
        forall|k: int, j: int|
            0 <= k < 16 && 0 <= j < 6 ==> #[trigger] pkt@[6 + 6 * k + j] == mac[j as int],
        password is None ==> pkt@.len() == 102,
        password matches Some(pw) ==> pkt@.len() == 108 && forall|i: int|
            0 <= i < 6 ==> #[trigger] pkt@[102 + i] == pw[i as int],
{
    match password {
        Some(pw) => magic_packet_with_password(mac, pw),
        None => magic_packet(mac),
    }
}

/// The packets for the MACs spelled by `macs`, in their order, each with the
/// SecureOn password spelled by `password` appended where one is given.
///
/// The password is read first: if it does not parse, that is the error.
/// Otherwise the first MAC that does not parse is reported, with its
/// position.
pub fn prepare_packets(macs: &Vec<String>, password: Option<&str>) -> (res: Result<
    Vec<Vec<u8>>,
    TargetError,
>)
    ensures
        password matches Some(p) ==> (parse_address(p@) matches Err(e) ==> res == Err::<
            Vec<Vec<u8>>,
            TargetError,
        >(TargetError::Password(e))),
        res matches Err(TargetError::Password(e)) ==> (password matches Some(p) && parse_address(
            p@,
        ) == Err::<Seq<u8>, ParseError>(e)),
        res matches Err(TargetError::Mac(i, e)) ==> {
            &&& password_ok(password)
            &&& i < macs.len()
            &&& parse_address(macs@[i as int]@) == Err::<Seq<u8>, ParseError>(e)
            &&& forall|j: int| 0 <= j < i ==> spells_address(#[trigger] macs@[j]@)
        },
        res is Ok <==> (password_ok(password) && forall|i: int|
            0 <= i < macs.len() ==> spells_address(#[trigger] macs@[i]@)),
        res matches Ok(pkts) ==> {
            &&& pkts.len() == macs.len()
            &&& forall|i: int|
                0 <= i < macs.len() ==> (#[trigger] pkts@[i])@ == packet_bytes(
                    parsed_bytes(macs@[i]@),
                    password_bytes(password),
                )
            &&& forall|i: int, m: int|
                0 <= i < macs.len() && 0 <= m < 6 ==> #[trigger] pkts@[i]@[m] == 0xFF
            &&& forall|i: int, k: int, j: int|
                0 <= i < macs.len() && 0 <= k < 16 && 0 <= j < 6 ==> parse_address(macs@[i]@) is Ok
                    && #[trigger] pkts@[i]@[6 + 6 * k + j] == parse_address(macs@[i]@)->Ok_0[j]
            &&& password is None ==> forall|i: int|
                0 <= i < macs.len() ==> (#[trigger] pkts@[i])@.len() == 102
            &&& password matches Some(p) ==> parse_address(p@) is Ok && (forall|i: int|
                0 <= i < macs.len() ==> (#[trigger] pkts@[i])@.len() == 108) && forall|i: int, j: int|
                0 <= i < macs.len() && 0 <= j < 6 ==> #[trigger] pkts@[i]@[102 + j] == parse_address(
                    p@,
                )->Ok_0[j]
        },
{
    let pw: Option<[u8; 6]> = match password {
        Some(p) => match parse_password(p) {
            Ok(b) => Some(b),
            Err(e) => {
                return Err(TargetError::Password(e));
            },
        },
        None => None,
    };
    assert(option_bytes(pw) == password_bytes(password));
    let mut pkts: Vec<Vec<u8>> = Vec::new();
    for i in 0..macs.len()
        invariant
            password_ok(password),
            option_bytes(pw) == password_bytes(password),
            password is None <==> pw is None,
            password matches Some(p) ==> (pw matches Some(b) && parse_address(p@) == Ok::<
                Seq<u8>,
                ParseError,
            >(b@)),
            pkts.len() == i,
            forall|j: int| 0 <= j < i ==> spells_address(#[trigger] macs@[j]@),
            forall|j: int|
                0 <= j < i ==> (#[trigger] pkts@[j])@ == packet_bytes(
                    parsed_bytes(macs@[j]@),
                    password_bytes(password),
                ),
            forall|j: int, m: int| 0 <= j < i && 0 <= m < 6 ==> #[trigger] pkts@[j]@[m] == 0xFF,
            forall|j: int, k: int, n: int|
                0 <= j < i && 0 <= k < 16 && 0 <= n < 6 ==> parse_address(macs@[j]@) is Ok
                    && #[trigger] pkts@[j]@[6 + 6 * k + n] == parse_address(macs@[j]@)->Ok_0[n],
            pw is None ==> forall|j: int| 0 <= j < i ==> (#[trigger] pkts@[j])@.len() == 102,
            pw is Some ==> forall|j: int| 0 <= j < i ==> (#[trigger] pkts@[j])@.len() == 108,
            pw is Some ==> forall|j: int, n: int|
                0 <= j < i && 0 <= n < 6 ==> #[trigger] pkts@[j]@[102 + n] == pw->Some_0[n],
    {
        let mac = match parse_mac(macs[i].as_str()) {
            Ok(b) => b,
            Err(e) => {
                return Err(TargetError::Mac(i, e));
            },
        };
        let pkt = packet_for(mac, pw);
        let ghost before = pkts@;
        pkts.push(pkt);
        assert(forall|j: int| 0 <= j < i ==> pkts@[j] == before[j]);
        assert(pkts@[i as int] == pkt);
        assert(mac@ == parse_address(macs@[i as int]@)->Ok_0);
        assert forall|j: int, k: int, n: int|
            0 <= j <= i && 0 <= k < 16 && 0 <= n < 6 implies parse_address(macs@[j]@) is Ok
            && #[trigger] pkts@[j]@[6 + 6 * k + n] == parse_address(macs@[j]@)->Ok_0[n] by {
            if j == i {
                assert(pkt@[6 + 6 * k + n] == mac[n]);
            }
        }
        assert forall|j: int, m: int| 0 <= j <= i && 0 <= m < 6 implies #[trigger] pkts@[j]@[m]
            == 0xFF by {
            if j == i {
                assert(pkt@[m] == 0xFF);
            }
        }
        proof {
            if pw is Some {
                assert forall|j: int, n: int| 0 <= j <= i && 0 <= n < 6 implies #[trigger] pkts@[j]@[
                    102 + n] == pw->Some_0[n] by {
                    if j == i {
                        assert(pkt@[102 + n] == pw->Some_0[n]);
                    }
                }
            }
        }
    }
    Ok(pkts)
}

} // verus!

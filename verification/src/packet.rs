//! Magic packets: six `0xFF` bytes, then the target MAC sixteen times, and
//! optionally a six-byte SecureOn password after that.

use vstd::prelude::*;

verus! {

/// The conventional UDP port for Wake-on-LAN broadcasts.
///
/// Magic packets are L2 traffic and the port is only a convention, but
/// `9` (`discard`) is what most software (`wol`, `etherwake`) sends to and
/// what most receivers listen on.
pub const BROADCAST_PORT: u16 = 9;

/// The alternate port used by some receivers (`7`, `echo`).
pub const ALT_BROADCAST_PORT: u16 = 7;

/// Length of a magic packet without a SecureOn password (6 + 6·16 bytes).
pub const MAGIC_PACKET_LEN: usize = 102;

/// Length of a magic packet *with* a SecureOn password (102 + 6 bytes).
pub const MAGIC_PACKET_WITH_PASSWORD_LEN: usize = 108;

/// The synchronisation stream that opens every magic packet: six `0xFF` bytes.
pub open spec fn sync_stream() -> Seq<u8> {
    Seq::new(6, |_i: int| 0xFFu8)
}

/// `s`, `n` times over.
pub open spec fn repeated(s: Seq<u8>, n: nat) -> Seq<u8>
    decreases n,
{
    if n == 0 {
        seq![]
    } else {
        repeated(s, (n - 1) as nat) + s
    }
}

/// The magic packet for `mac`: the synchronisation stream, then `mac`
/// sixteen times.
pub open spec fn magic_packet_bytes(mac: Seq<u8>) -> Seq<u8> {
    sync_stream() + repeated(mac, 16)
}

/// The magic packet for `mac` with the SecureOn `password` after it.
pub open spec fn magic_packet_with_password_bytes(mac: Seq<u8>, password: Seq<u8>) -> Seq<u8> {
    magic_packet_bytes(mac) + password
}

proof fn lemma_repeated_layout(s: Seq<u8>, n: nat)
    ensures
        repeated(s, n).len() == n * s.len(),
        forall|k: int, j: int|
            0 <= k < n && 0 <= j < s.len() ==> #[trigger] repeated(s, n)[k * s.len() + j]
                == #[trigger] s[j],
    decreases n,
{
    if n > 0 {
        let m = (n - 1) as nat;
        lemma_repeated_layout(s, m);
        let len = s.len() as int;
        assert(m * len + len == n * len) by (nonlinear_arith)
            requires
                m + 1 == n,
        ;
        assert forall|k: int, j: int| 0 <= k < n && 0 <= j < len implies #[trigger] repeated(
            s,
            n,
        )[k * len + j] == #[trigger] s[j] by {
            if k < m {
                assert(k * len + j < m * len) by (nonlinear_arith)
                    requires
                        k < m,
                        0 <= j < len,
                ;
                assert(repeated(s, n)[k * len + j] == repeated(s, m)[k * len + j]);
            } else {
                assert(k * len == m * len);
            }
        }
    } else {
        assert(n * s.len() == 0) by (nonlinear_arith)
            requires
                n == 0,
        ;
    }
}

/// A magic packet is 102 bytes: six `0xFF` bytes, then the six bytes of the
/// MAC at offsets `6 + 6k` for each of the sixteen repetitions `k`.
pub proof fn lemma_magic_packet_layout(mac: Seq<u8>)
    requires
        mac.len() == 6,
    ensures
        magic_packet_bytes(mac).len() == MAGIC_PACKET_LEN,
        forall|i: int| 0 <= i < 6 ==> #[trigger] magic_packet_bytes(mac)[i] == 0xFF,
        forall|k: int, j: int|
            0 <= k < 16 && 0 <= j < 6 ==> #[trigger] magic_packet_bytes(mac)[6 + 6 * k + j]
                == mac[j],
{
    lemma_repeated_layout(mac, 16);
    assert forall|k: int, j: int| 0 <= k < 16 && 0 <= j < 6 implies #[trigger] magic_packet_bytes(
        mac,
    )[6 + 6 * k + j] == mac[j] by {
        assert(repeated(mac, 16)[k * 6 + j] == mac[j]);
    }
}

/// A magic packet with a SecureOn password is 108 bytes: the plain magic
/// packet of the MAC in its first 102 bytes (six `0xFF`, then the MAC sixteen
/// times), and the password's six bytes, in their given order, at 102 to 107.
pub proof fn lemma_password_packet_layout(mac: Seq<u8>, password: Seq<u8>)
    requires
        mac.len() == 6,
        password.len() == 6,
    ensures
        magic_packet_with_password_bytes(mac, password).len() == MAGIC_PACKET_WITH_PASSWORD_LEN,
        magic_packet_with_password_bytes(mac, password).subrange(0, 102) == magic_packet_bytes(mac),
        forall|i: int| 0 <= i < 6 ==> #[trigger] magic_packet_with_password_bytes(mac, password)[i]
            == 0xFF,
        forall|k: int, j: int|
            0 <= k < 16 && 0 <= j < 6 ==> #[trigger] magic_packet_with_password_bytes(
                mac,
                password,
            )[6 + 6 * k + j] == mac[j],
        forall|i: int|
            0 <= i < 6 ==> #[trigger] magic_packet_with_password_bytes(mac, password)[102 + i]
                == password[i],
{
    lemma_magic_packet_layout(mac);
    let p = magic_packet_with_password_bytes(mac, password);
    assert(p.subrange(0, 102) =~= magic_packet_bytes(mac));
    assert forall|k: int, j: int| 0 <= k < 16 && 0 <= j < 6 implies #[trigger] p[6 + 6 * k + j]
        == mac[j] by {
        assert(p[6 + 6 * k + j] == magic_packet_bytes(mac)[6 + 6 * k + j]);
    }
}

/// Build a magic packet for `mac`: six `0xFF` bytes followed by the address
/// repeated sixteen times.
pub fn magic_packet(mac: [u8; 6]) -> (pkt: Vec<u8>)
    ensures
        pkt@ == magic_packet_bytes(mac@),
        pkt@.len() == MAGIC_PACKET_LEN,
        forall|i: int| 0 <= i < 6 ==> #[trigger] pkt@[i] == 0xFF,
        forall|k: int, j: int|
            0 <= k < 16 && 0 <= j < 6 ==> #[trigger] pkt@[6 + 6 * k + j] == mac[j as int],
{
    let mut out: Vec<u8> = Vec::with_capacity(MAGIC_PACKET_LEN);
    let sync = [0xFFu8; 6];
    out.extend_from_slice(&sync);
    assert(out@ =~= sync_stream() + repeated(mac@, 0));
    for i in 0..16usize
        invariant
            out@ == sync_stream() + repeated(mac@, i as nat),
    {
        let ghost before = out@;
        out.extend_from_slice(&mac);
        assert(out@ =~= before + mac@);
        assert(repeated(mac@, (i + 1) as nat) == repeated(mac@, i as nat) + mac@);
        assert(out@ =~= sync_stream() + repeated(mac@, (i + 1) as nat));
    }
    proof {
        lemma_magic_packet_layout(mac@);
    }
    out
}

/// Like [`magic_packet`], but appends a six-byte SecureOn password.
pub fn magic_packet_with_password(mac: [u8; 6], password: [u8; 6]) -> (pkt: Vec<u8>)
    ensures
        pkt@ == magic_packet_with_password_bytes(mac@, password@),
        pkt@.len() == MAGIC_PACKET_WITH_PASSWORD_LEN,
        forall|i: int| 0 <= i < 6 ==> #[trigger] pkt@[i] == 0xFF,
        forall|k: int, j: int|
            0 <= k < 16 && 0 <= j < 6 ==> #[trigger] pkt@[6 + 6 * k + j] == mac[j as int],
        forall|i: int| 0 <= i < 6 ==> #[trigger] pkt@[102 + i] == password[i as int],
{
    proof {
        lemma_password_packet_layout(mac@, password@);
    }
    let mut out = magic_packet(mac);
    out.extend_from_slice(&password);
    assert(out@ =~= magic_packet_with_password_bytes(mac@, password@));
    out
}

/// Like [`magic_packet`], but on the stack: a fixed-size array, with no
/// allocation.
pub fn magic_packet_array(mac: [u8; 6]) -> (pkt: [u8; 102])
    ensures
        pkt@ == magic_packet_bytes(mac@),
        pkt@.len() == MAGIC_PACKET_LEN,
        forall|i: int| 0 <= i < 6 ==> #[trigger] pkt@[i] == 0xFF,
        forall|k: int, j: int|
            0 <= k < 16 && 0 <= j < 6 ==> #[trigger] pkt@[6 + 6 * k + j] == mac[j as int],
{
    proof {
        lemma_magic_packet_layout(mac@);
    }
    let ghost want = magic_packet_bytes(mac@);
    let mut out = [0xFFu8; 102];
    for i in 6..102usize
        invariant
            want == magic_packet_bytes(mac@),
            want.len() == 102,
            forall|m: int| 0 <= m < 6 ==> #[trigger] want[m] == 0xFF,
            forall|k: int, j: int|
                0 <= k < 16 && 0 <= j < 6 ==> #[trigger] want[6 + 6 * k + j] == mac@[j],
            forall|m: int| 0 <= m < 6 ==> out@[m] == 0xFF,
            forall|m: int| 6 <= m < i ==> out@[m] == want[m],
    {
        let j = (i - 6) % 6;
        let ghost k = (i - 6) / 6;
        assert(want[6 + 6 * k + j] == mac@[j as int]);
        out[i] = mac[j];
    }
    assert(out@ =~= want);
    out
}

/// Like [`magic_packet_with_password`], but on the stack: a fixed-size array,
/// with no allocation.
pub fn magic_packet_with_password_array(mac: [u8; 6], password: [u8; 6]) -> (pkt: [u8; 108])
    ensures
        pkt@ == magic_packet_with_password_bytes(mac@, password@),
        pkt@.len() == MAGIC_PACKET_WITH_PASSWORD_LEN,
        forall|i: int| 0 <= i < 6 ==> #[trigger] pkt@[i] == 0xFF,
        forall|k: int, j: int|
            0 <= k < 16 && 0 <= j < 6 ==> #[trigger] pkt@[6 + 6 * k + j] == mac[j as int],
        forall|i: int| 0 <= i < 6 ==> #[trigger] pkt@[102 + i] == password[i as int],
{
    proof {
        lemma_password_packet_layout(mac@, password@);
    }
    let base = magic_packet_array(mac);
    let mut out = [0u8; 108];
    for i in 0..102usize
        invariant
            base@ == magic_packet_bytes(mac@),
            base@.len() == 102,
            forall|m: int| 0 <= m < i ==> out@[m] == base@[m],
    {
        out[i] = base[i];
    }
    for i in 0..6usize
        invariant
            base@ == magic_packet_bytes(mac@),
            base@.len() == 102,
            forall|m: int| 0 <= m < 102 ==> out@[m] == base@[m],
            forall|m: int| 0 <= m < i ==> out@[102 + m] == password@[m],
    {
        out[102 + i] = password[i];
    }
    assert(out@ =~= magic_packet_with_password_bytes(mac@, password@));
    out
}

} // verus!

//! How nodes find and answer each other: the address snapshot that contacts exchange, the limits
//! on a message, and the acknowledgement frame.
use vstd::prelude::*;
use vstd::utf8::{decode_utf8, encode_utf8, valid_utf8};
use crate::base64::{
    all_digits, b64, b64_digits, b64_length, b64_value, law_base64_round_trip, lemma_only_digits,
    unb64, value64, Base64Fault,
};
use crate::bytes::{
    append, be_bytes, law_be_injective, lemma_be_bytes_len, lemma_ranges, lemma_split, push_be, same,
    to_array, to_vec,
};
use crate::identity::NodeId;
use crate::network::{
    check_endpoint_id, endpoint_id_error_text, iroh_is_endpoint_id, iroh_relay_url, parse_relay_url,
    relay_url_error_text,
};
use crate::text::{
    append_decimal, ascii, ascii_bytes, chars_of, decimal, hex, hex_text, latin,
    latin_chars, law_hex_round_trip, string_of, text_of_utf8, trim, trimmed, unhex, unhex_bytes,
};
use crate::CoreError;

verus! {

/// The name of the message protocol.
pub const ALPN: &'static str = "dc-chat/msg/1";

/// Longest message.
pub const MAX_MSG_LEN: usize = 262_144;

/// First byte of the frame for an accepted message.
pub const ACK_OK: u8 = 1;

/// First byte of the frame for a refused message.
pub const ACK_NAK: u8 = 0;

/// Length of the handle by which an answer is told.
pub const ACK_ID_LEN: usize = 8;

/// Length of the acknowledgement frame.
pub const ACK_FRAME_LEN: usize = 9;

/// An address and a port.
#[derive(Debug, Clone, Copy, PartialEq, Eq)]
pub enum SockAddr {
    V4 { octets: [u8; 4], port: u16 },
    V6 { octets6: [u8; 16], port: u16 },
}

/// Where a node can be reached.
#[derive(Debug, PartialEq, Eq)]
pub enum TransportAddr {
    Ip(SockAddr),
    /// Through a relay, given by its address.
    Relay(String),
}

/// Where a node can be reached: an address in its encoded form, or a relay.
pub enum TransportData {
    Ip(Seq<u8>),
    Relay(Seq<char>),
}

impl View for TransportAddr {
    type V = TransportData;

    open spec fn view(&self) -> TransportData {
        match self {
            TransportAddr::Ip(a) => TransportData::Ip(a.encoded()),
            TransportAddr::Relay(url) => TransportData::Relay(url@),
        }
    }
}

/// A node and the ways to it.
#[derive(Debug, PartialEq, Eq)]
pub struct NodeAddr {
    pub id: NodeId,
    pub addrs: Vec<TransportAddr>,
}

/// A node and the ways to it, as plain values.
#[verifier::ext_equal]
pub struct NodeAddrData {
    pub id: Seq<u8>,
    pub addrs: Seq<TransportData>,
}

/// Ways to a node, as plain values.
pub open spec fn ways(v: Seq<TransportAddr>) -> Seq<TransportData> {
    Seq::new(v.len(), |i: int| v[i]@)
}

impl View for NodeAddr {
    type V = NodeAddrData;

    open spec fn view(&self) -> NodeAddrData {
        NodeAddrData { id: self.id@, addrs: ways(self.addrs@) }
    }
}

impl SockAddr {
    /// The address as bytes.
    pub open spec fn octet_bytes(self) -> Seq<u8> {
        match self {
            SockAddr::V4 { octets, .. } => octets@,
            SockAddr::V6 { octets6: octets, .. } => octets@,
        }
    }

    /// The port.
    pub open spec fn port_number(self) -> u16 {
        match self {
            SockAddr::V4 { port, .. } => port,
            SockAddr::V6 { port, .. } => port,
        }
    }

    /// The address, then the port with its high byte first.
    pub open spec fn encoded(self) -> Seq<u8> {
        self.octet_bytes() + be_bytes(self.port_number() as nat, 2)
    }

    /// The address stands for no place.
    pub open spec fn unspecified(self) -> bool {
        forall|i: int| 0 <= i < self.octet_bytes().len() ==> #[trigger] self.octet_bytes()[i] == 0
    }

    /// The address stands for the node itself: 127.x.x.x or ::1.
    pub open spec fn loopback(self) -> bool {
        match self {
            SockAddr::V4 { octets, .. } => octets@[0] == 127,
            SockAddr::V6 { octets6: octets, .. } => octets@[15] == 1 && forall|i: int|
                0 <= i < 15 ==> #[trigger] octets@[i] == 0,
        }
    }

    /// The address is worth telling others.
    pub open spec fn shown(self, include_loopback: bool) -> bool {
        !self.unspecified() && (include_loopback || !self.loopback())
    }

    pub fn is_unspecified(&self) -> (r: bool)
        ensures
            r == self.unspecified(),
    {
        match self {
            SockAddr::V4 { octets, .. } => {
                assert(self.octet_bytes() == octets@);
                all_zero(octets.as_slice())
            },
            SockAddr::V6 { octets6: octets, .. } => {
                assert(self.octet_bytes() == octets@);
                all_zero(octets.as_slice())
            },
        }
    }

    pub fn is_loopback(&self) -> (r: bool)
        ensures
            r == self.loopback(),
    {
        match self {
            SockAddr::V4 { octets, .. } => octets[0] == 127,
            SockAddr::V6 { octets6: octets, .. } => {
                let head = vstd::slice::slice_subrange(octets.as_slice(), 0, 15);
                let zero: bool = all_zero(head);
                assert(zero == forall|i: int| 0 <= i < 15 ==> #[trigger] octets@[i] == 0) by {
                    assert(forall|i: int| 0 <= i < 15 ==> head@[i] == octets@[i]);
                }
                octets[15] == 1 && zero
            },
        }
    }
}

/// Whether all bytes are zero.
fn all_zero(s: &[u8]) -> (r: bool)
    ensures
        r == forall|i: int| 0 <= i < s@.len() ==> #[trigger] s@[i] == 0,
{
    let mut i: usize = 0;
    while i < s.len()
        invariant
            i <= s@.len(),
            forall|k: int| 0 <= k < i ==> #[trigger] s@[k] == 0,
        decreases s@.len() - i,
    {
        if s[i] != 0 {
            return false;
        }
        i = i + 1;
    }
    true
}

/// The address, then the port with its high byte first.
pub fn sockaddr_bytes(a: &SockAddr) -> (r: Vec<u8>)
    ensures
        r@ == a.encoded(),
{
    let mut out: Vec<u8> = Vec::new();
    match a {
        SockAddr::V4 { octets, port } => {
            append(&mut out, octets.as_slice());
            push_be(&mut out, *port as u64, 2);
        },
        SockAddr::V6 { octets6: octets, port } => {
            append(&mut out, octets.as_slice());
            push_be(&mut out, *port as u64, 2);
        },
    }
    assert(out@ =~= a.encoded());
    out
}

/// Bytes of this length are an address and a port.
pub open spec fn sockaddr_length(s: Seq<u8>) -> bool {
    s.len() == 6 || s.len() == 18
}

/// The address that bytes stand for: four or sixteen, then two for the port.
pub fn sockaddr_from_bytes(s: &[u8]) -> (r: Result<SockAddr, CoreError>)
    ensures
        match r {
            Ok(a) => sockaddr_length(s@) && a.encoded() == s@,
            Err(e) => !sockaddr_length(s@) && e is Config && e.text() == "bad sockaddr bytes"@,
        },
{
    if s.len() == 6 {
        let octets: [u8; 4] = to_array::<4>(vstd::slice::slice_subrange(s, 0, 4));
        let port: u16 = read_port(s[4], s[5]);
        let a = SockAddr::V4 { octets, port };
        assert(a.encoded() =~= s@);
        Ok(a)
    } else if s.len() == 18 {
        let octets: [u8; 16] = to_array::<16>(vstd::slice::slice_subrange(s, 0, 16));
        let port: u16 = read_port(s[16], s[17]);
        let a = SockAddr::V6 { octets6: octets, port };
        assert(a.encoded() =~= s@);
        Ok(a)
    } else {
        Err(CoreError::Config("bad sockaddr bytes".to_owned()))
    }
}

/// The number that two bytes stand for.
fn read_port(high: u8, low: u8) -> (r: u16)
    ensures
        be_bytes(r as nat, 2) == seq![high, low],
{
    let r: u16 = high as u16 * 256 + low as u16;
    proof {
        reveal_with_fuel(be_bytes, 3);
        assert(be_bytes(r as nat, 2) =~= seq![high, low]);
    }
    r
}

/// Two addresses with one encoded form are the same.
pub proof fn law_sockaddr_round_trip(a: SockAddr, b: SockAddr)
    requires
        a.encoded() == b.encoded(),
    ensures
        a == b,
{
    lemma_be_bytes_len(a.port_number() as nat, 2);
    lemma_be_bytes_len(b.port_number() as nat, 2);
    assert(a.encoded().len() == a.octet_bytes().len() + 2);
    assert(b.encoded().len() == b.octet_bytes().len() + 2);
    lemma_split(
        a.octet_bytes(),
        be_bytes(a.port_number() as nat, 2),
        b.octet_bytes(),
        be_bytes(b.port_number() as nat, 2),
    );
    lemma_ranges();
    law_be_injective(a.port_number() as nat, b.port_number() as nat, 2);
    match (a, b) {
        (SockAddr::V4 { octets: x, .. }, SockAddr::V4 { octets: y, .. }) => {
            assert(x =~= y);
        },
        (SockAddr::V6 { octets6: x, .. }, SockAddr::V6 { octets6: y, .. }) => {
            assert(x =~= y);
        },
        _ => {},
    }
}

/// The place of the first separator, or the end.
pub open spec fn first_of(s: Seq<u8>, sep: u8) -> nat
    decreases s.len(),
{
    if s.len() == 0 || s[0] == sep {
        0
    } else {
        1 + first_of(s.skip(1), sep)
    }
}

/// The pieces between the separators.
pub open spec fn split(s: Seq<u8>, sep: u8) -> Seq<Seq<u8>>
    decreases s.len(),
{
    let i = first_of(s, sep) as int;
    if i >= s.len() {
        seq![s]
    } else {
        seq![s.take(i)] + split(s.skip(i + 1), sep)
    }
}

/// A place is the first separator's, or the end, if no separator stands before it.
proof fn lemma_first_of(s: Seq<u8>, sep: u8, i: int)
    requires
        0 <= i <= s.len(),
        forall|k: int| 0 <= k < i ==> s[k] != sep,
        i == s.len() || s[i] == sep,
    ensures
        first_of(s, sep) == i,
    decreases i,
{
    if i > 0 {
        assert(s[0] != sep);
        let rest = s.skip(1);
        assert forall|k: int| 0 <= k < i - 1 implies rest[k] != sep by {
            assert(s[k + 1] != sep);
        }
        lemma_first_of(rest, sep, i - 1);
    }
}

/// The place of the first separator from `from` on, or the end.
fn find(s: &[u8], from: usize, sep: u8) -> (r: usize)
    requires
        from <= s@.len(),
    ensures
        from <= r <= s@.len(),
        first_of(s@.skip(from as int), sep) == r - from,
{
    let mut i: usize = from;
    while i < s.len()
        invariant
            from <= i <= s@.len(),
            forall|k: int| from <= k < i ==> s@[k] != sep,
        decreases s@.len() - i,
    {
        if s[i] == sep {
            proof {
                lemma_first_of(s@.skip(from as int), sep, i - from);
            }
            return i;
        }
        i = i + 1;
    }
    proof {
        lemma_first_of(s@.skip(from as int), sep, i - from);
    }
    i
}

/// The pieces as byte strings.
pub open spec fn pieces(v: Seq<Vec<u8>>) -> Seq<Seq<u8>> {
    Seq::new(v.len(), |i: int| v[i]@)
}

/// The pieces between the separators.
fn split_bytes(s: &[u8], sep: u8) -> (r: Vec<Vec<u8>>)
    ensures
        pieces(r@) == split(s@, sep),
{
    let mut out: Vec<Vec<u8>> = Vec::new();
    let mut start: usize = 0;
    assert(s@.skip(0) =~= s@);
    assert(pieces(out@) + split(s@, sep) =~= split(s@, sep));
    loop
        invariant
            start <= s@.len(),
            pieces(out@) + split(s@.skip(start as int), sep) == split(s@, sep),
        decreases s@.len() - start,
    {
        let i: usize = find(s, start, sep);
        let ghost before = pieces(out@);
        let ghost rest = s@.skip(start as int);
        out.push(to_vec(vstd::slice::slice_subrange(s, start, i)));
        proof {
            assert(s@.subrange(start as int, i as int) =~= rest.take(i - start));
            assert(pieces(out@) =~= before.push(rest.take(i - start)));
        }
        if i == s.len() {
            proof {
                assert(rest.take(i - start) =~= rest);
                assert(pieces(out@) =~= before + split(rest, sep));
            }
            return out;
        }
        proof {
            assert(rest.skip(i - start + 1) =~= s@.skip(i + 1));
            assert(split(rest, sep) == seq![rest.take(i - start)] + split(s@.skip(i + 1), sep));
            assert(pieces(out@) + split(s@.skip(i + 1), sep) =~= before + split(rest, sep));
        }
        start = i + 1;
    }
}

/// Why a text is no snapshot.
#[derive(Debug, Clone, Copy, PartialEq, Eq, Structural)]
pub enum SnapshotFault {
    /// It does not begin like one.
    Prefix,
    /// A field has no value.
    Pair,
    Version,
    /// The node id is not made of pairs of hexadecimal digits.
    IdDigits,
    IdLength,
    /// The node id is no public key.
    IdKey,
    Base64Length,
    Base64Digit,
    /// An address is too long or too short.
    Address,
    /// The relay's address is no UTF-8.
    RelayText,
    /// The relay's address is no address of a relay.
    RelayUrl,
    NoId,
}

/// An error tells of a fault. What the network crate found wrong with a node id or a relay's
/// address follows behind a fixed beginning.
pub open spec fn tells(e: CoreError, fault: SnapshotFault) -> bool {
    &&& e is Config
    &&& match fault {
        SnapshotFault::Prefix => e.text() == "not a dc://node snapshot"@,
        SnapshotFault::Pair => e.text() == "bad snapshot pair"@,
        SnapshotFault::Version => e.text() == "unsupported snapshot version"@,
        SnapshotFault::IdDigits => e.text() == "bad node id"@,
        SnapshotFault::IdLength => e.text() == "node id must be 32 bytes"@,
        SnapshotFault::IdKey => "node id: "@.is_prefix_of(e.text()),
        SnapshotFault::Base64Length => e.text() == "bad base64 length"@,
        SnapshotFault::Base64Digit => e.text() == "bad base64 char"@,
        SnapshotFault::Address => e.text() == "bad sockaddr bytes"@,
        SnapshotFault::RelayText => e.text() == "bad relay url"@,
        SnapshotFault::RelayUrl => "relay url: "@.is_prefix_of(e.text()),
        SnapshotFault::NoId => e.text() == "snapshot missing id"@,
    }
}

/// The bytes behind base64 digits.
pub open spec fn read_base64(s: Seq<u8>) -> Result<Seq<u8>, SnapshotFault> {
    if !b64_length(s) {
        Err(SnapshotFault::Base64Length)
    } else if !all_digits(s) {
        Err(SnapshotFault::Base64Digit)
    } else {
        Ok(b64_value(s))
    }
}

/// The encoded address behind base64 digits.
pub open spec fn read_address(s: Seq<u8>) -> Result<Seq<u8>, SnapshotFault> {
    match read_base64(s) {
        Ok(b) => if sockaddr_length(b) {
            Ok(b)
        } else {
            Err(SnapshotFault::Address)
        },
        Err(fault) => Err(fault),
    }
}

/// The encoded addresses behind pieces of base64 digits, up to the first fault.
pub open spec fn read_addresses(parts: Seq<Seq<u8>>) -> Result<Seq<TransportData>, SnapshotFault>
    decreases parts.len(),
{
    if parts.len() == 0 {
        Ok(Seq::empty())
    } else {
        match read_addresses(parts.drop_last()) {
            Ok(front) => match read_address(parts.last()) {
                Ok(b) => Ok(front.push(TransportData::Ip(b))),
                Err(fault) => Err(fault),
            },
            Err(fault) => Err(fault),
        }
    }
}

/// The relay behind base64 digits.
pub open spec fn read_relay(s: Seq<u8>) -> Result<Seq<char>, SnapshotFault> {
    match read_base64(s) {
        Ok(b) => if !valid_utf8(b) {
            Err(SnapshotFault::RelayText)
        } else {
            match iroh_relay_url(decode_utf8(b)) {
                Some(url) => Ok(url),
                None => Err(SnapshotFault::RelayUrl),
            }
        },
        Err(fault) => Err(fault),
    }
}

/// The node id behind hexadecimal digits.
pub open spec fn read_id(s: Seq<u8>) -> Result<Seq<u8>, SnapshotFault> {
    match unhex_bytes(latin(s)) {
        Some(id) => if id.len() != 32 {
            Err(SnapshotFault::IdLength)
        } else if !iroh_is_endpoint_id(id) {
            Err(SnapshotFault::IdKey)
        } else {
            Ok(id)
        },
        None => Err(SnapshotFault::IdDigits),
    }
}

/// What has been read of a snapshot.
#[verifier::ext_equal]
pub struct Draft {
    pub id: Option<Seq<u8>>,
    pub addrs: Seq<TransportData>,
}

/// What has been read after one more field. A field that is not known is passed over.
pub open spec fn read_field(d: Draft, pair: Seq<u8>) -> Result<Draft, SnapshotFault> {
    let i = first_of(pair, 61) as int;
    if i >= pair.len() {
        Err(SnapshotFault::Pair)
    } else {
        let (key, value) = (pair.take(i), pair.skip(i + 1));
        if key == ascii("v"@) {
            if value == ascii("1"@) {
                Ok(d)
            } else {
                Err(SnapshotFault::Version)
            }
        } else if key == ascii("id"@) {
            match read_id(value) {
                Ok(id) => Ok(Draft { id: Some(id), addrs: d.addrs }),
                Err(fault) => Err(fault),
            }
        } else if key == ascii("a"@) {
            match read_addresses(split(value, 44)) {
                Ok(addrs) => Ok(Draft { id: d.id, addrs: d.addrs + addrs }),
                Err(fault) => Err(fault),
            }
        } else if key == ascii("r"@) {
            match read_relay(value) {
                Ok(url) => Ok(Draft { id: d.id, addrs: d.addrs.push(TransportData::Relay(url)) }),
                Err(fault) => Err(fault),
            }
        } else {
            Ok(d)
        }
    }
}

/// What has been read after some fields, up to the first fault.
pub open spec fn read_fields(pairs: Seq<Seq<u8>>) -> Result<Draft, SnapshotFault>
    decreases pairs.len(),
{
    if pairs.len() == 0 {
        Ok(Draft { id: None, addrs: Seq::empty() })
    } else {
        match read_fields(pairs.drop_last()) {
            Ok(d) => read_field(d, pairs.last()),
            Err(fault) => Err(fault),
        }
    }
}

/// The node and the ways to it that a snapshot tells of: behind its beginning it is a list of
/// fields with `&` between them, each a key and a value with `=` between them.
pub open spec fn snapshot(s: Seq<u8>) -> Result<NodeAddrData, SnapshotFault> {
    let head = ascii("dc://node?"@);
    if !head.is_prefix_of(s) {
        Err(SnapshotFault::Prefix)
    } else {
        match read_fields(split(s.skip(head.len() as int), 38)) {
            Ok(d) => match d.id {
                Some(id) => Ok(NodeAddrData { id, addrs: d.addrs }),
                None => Err(SnapshotFault::NoId),
            },
            Err(fault) => Err(fault),
        }
    }
}

/// A fault in some of the fields is the fault of all.
proof fn lemma_fault_stays(pairs: Seq<Seq<u8>>, n: int)
    requires
        0 <= n <= pairs.len(),
        read_fields(pairs.take(n)) is Err,
    ensures
        read_fields(pairs) == read_fields(pairs.take(n)),
    decreases pairs.len(),
{
    if n == pairs.len() {
        assert(pairs.take(n) =~= pairs);
    } else {
        assert(pairs.drop_last().take(n) =~= pairs.take(n));
        lemma_fault_stays(pairs.drop_last(), n);
    }
}

/// A fault in some of the addresses is the fault of all.
proof fn lemma_address_fault_stays(parts: Seq<Seq<u8>>, n: int)
    requires
        0 <= n <= parts.len(),
        read_addresses(parts.take(n)) is Err,
    ensures
        read_addresses(parts) == read_addresses(parts.take(n)),
    decreases parts.len(),
{
    if n == parts.len() {
        assert(parts.take(n) =~= parts);
    } else {
        assert(parts.drop_last().take(n) =~= parts.take(n));
        lemma_address_fault_stays(parts.drop_last(), n);
    }
}

/// The bytes behind base64 digits.
fn base64_field(s: &[u8]) -> (r: Result<Vec<u8>, CoreError>)
    ensures
        match r {
            Ok(b) => read_base64(s@) == Ok::<Seq<u8>, SnapshotFault>(b@),
            Err(e) => read_base64(s@) is Err && tells(e, read_base64(s@)->Err_0),
        },
{
    match unb64(s) {
        Ok(b) => Ok(b),
        Err(Base64Fault::Length) => Err(CoreError::Config("bad base64 length".to_owned())),
        Err(Base64Fault::Digit) => Err(CoreError::Config("bad base64 char".to_owned())),
    }
}

/// The addresses behind a list of base64 digits with commas between them, appended to others.
fn address_field(value: &[u8], addrs: &mut Vec<TransportAddr>) -> (r: Result<(), CoreError>)
    ensures
        match r {
            Ok(_) => {
                &&& read_addresses(split(value@, 44)) is Ok
                &&& ways(final(addrs)@) == ways(old(addrs)@) + read_addresses(split(value@, 44))->Ok_0
            },
            Err(e) => {
                &&& read_addresses(split(value@, 44)) is Err
                &&& tells(e, read_addresses(split(value@, 44))->Err_0)
            },
        },
{
    let parts = split_bytes(value, 44);
    let ghost all = pieces(parts@);
    let ghost start = ways(addrs@);
    let mut k: usize = 0;
    assert(all.take(0) =~= Seq::empty());
    assert(ways(addrs@) =~= start + Seq::<TransportData>::empty());
    while k < parts.len()
        invariant
            k <= parts@.len(),
            all == pieces(parts@),
            all == split(value@, 44),
            read_addresses(all.take(k as int)) is Ok,
            ways(addrs@) == start + read_addresses(all.take(k as int))->Ok_0,
        decreases parts@.len() - k,
    {
        let ghost front = read_addresses(all.take(k as int))->Ok_0;
        proof {
            assert(all.take(k + 1).drop_last() =~= all.take(k as int));
            assert(all.take(k + 1).last() == parts@[k as int]@);
        }
        let b: Vec<u8> = match base64_field(parts[k].as_slice()) {
            Ok(b) => b,
            Err(e) => {
                proof {
                    lemma_address_fault_stays(all, k + 1);
                }
                return Err(e);
            },
        };
        let a: SockAddr = match sockaddr_from_bytes(b.as_slice()) {
            Ok(a) => a,
            Err(e) => {
                proof {
                    lemma_address_fault_stays(all, k + 1);
                }
                return Err(e);
            },
        };
        let ghost had = addrs@;
        addrs.push(TransportAddr::Ip(a));
        proof {
            assert(ways(addrs@) =~= ways(had).push(TransportData::Ip(b@)));
            assert(ways(addrs@) =~= start + front.push(TransportData::Ip(b@)));
        }
        k = k + 1;
    }
    assert(all.take(k as int) =~= all);
    Ok(())
}

/// The relay behind base64 digits.
fn relay_field(value: &[u8]) -> (r: Result<String, CoreError>)
    ensures
        match r {
            Ok(url) => read_relay(value@) == Ok::<Seq<char>, SnapshotFault>(url@),
            Err(e) => read_relay(value@) is Err && tells(e, read_relay(value@)->Err_0),
        },
{
    let b = base64_field(value)?;
    let text: String = match text_of_utf8(b) {
        Some(t) => t,
        None => {
            return Err(CoreError::Config("bad relay url".to_owned()));
        },
    };
    match parse_relay_url(text.as_str()) {
        Ok(url) => Ok(url),
        Err(e) => {
            let mut out = "relay url: ".to_owned();
            out.append(relay_url_error_text(&e).as_str());
            Err(CoreError::Config(out))
        },
    }
}

/// The relay that a node uses: none where the address is left empty, white space aside, and else the
/// relay that the address stands for, in its normal form.
pub fn relay_choice(relay_url: &str) -> (r: Result<Option<String>, CoreError>)
    ensures
        match r {
            Ok(None) => trimmed(relay_url@).len() == 0,
            Ok(Some(url)) => {
                &&& trimmed(relay_url@).len() > 0
                &&& iroh_relay_url(trimmed(relay_url@)) == Some(url@)
            },
            Err(e) => {
                &&& trimmed(relay_url@).len() > 0
                &&& iroh_relay_url(trimmed(relay_url@)) is None
                &&& e is Config
                &&& "relay url: "@.is_prefix_of(e.text())
            },
        },
{
    let chars = trim(relay_url);
    if chars.len() == 0 {
        return Ok(None);
    }
    let text = string_of(chars.as_slice());
    match parse_relay_url(text.as_str()) {
        Ok(url) => Ok(Some(url)),
        Err(e) => {
            let mut out = "relay url: ".to_owned();
            out.append(relay_url_error_text(&e).as_str());
            assert("relay url: "@.is_prefix_of(out@));
            Err(CoreError::Config(out))
        },
    }
}

/// The node id behind hexadecimal digits.
fn id_field(value: &[u8]) -> (r: Result<NodeId, CoreError>)
    ensures
        match r {
            Ok(id) => read_id(value@) == Ok::<Seq<u8>, SnapshotFault>(id@),
            Err(e) => read_id(value@) is Err && tells(e, read_id(value@)->Err_0),
        },
{
    let b: Vec<u8> = match unhex(latin_chars(value).as_slice()) {
        Some(b) => b,
        None => {
            return Err(CoreError::Config("bad node id".to_owned()));
        },
    };
    if b.len() != 32 {
        return Err(CoreError::Config("node id must be 32 bytes".to_owned()));
    }
    let id: NodeId = to_array::<32>(b.as_slice());
    assert(id@ =~= b@);
    match check_endpoint_id(&id) {
        Ok(_) => Ok(id),
        Err(e) => {
            let mut out = "node id: ".to_owned();
            out.append(endpoint_id_error_text(&e).as_str());
            Err(CoreError::Config(out))
        },
    }
}

/// The node and the ways to it that a snapshot tells of.
pub fn parse_naddr(s: &str) -> (r: Result<NodeAddr, CoreError>)
    ensures
        match r {
            Ok(a) => snapshot(encode_utf8(s@)) == Ok::<NodeAddrData, SnapshotFault>(a@),
            Err(e) => snapshot(encode_utf8(s@)) is Err && tells(
                e,
                snapshot(encode_utf8(s@))->Err_0,
            ),
        },
{
    let text: &[u8] = s.as_bytes();
    let head = ascii_bytes("dc://node?");
    let n: usize = head.len();
    if text.len() < n || !same(vstd::slice::slice_subrange(text, 0, n), head.as_slice()) {
        return Err(CoreError::Config("not a dc://node snapshot".to_owned()));
    }
    assert(text@.subrange(0, n as int) =~= head@);
    let pairs = split_bytes(vstd::slice::slice_subrange(text, n, text.len()), 38);
    let ghost all = pieces(pairs@);
    assert(text@.subrange(n as int, text@.len() as int) =~= text@.skip(n as int));
    let mut id: Option<NodeId> = None;
    let mut addrs: Vec<TransportAddr> = Vec::new();
    let mut k: usize = 0;
    assert(all.take(0) =~= Seq::empty());
    assert(ways(addrs@) =~= Seq::empty());
    while k < pairs.len()
        invariant
            k <= pairs@.len(),
            all == pieces(pairs@),
            text@ == encode_utf8(s@),
            head@ == ascii("dc://node?"@),
            head@.is_prefix_of(text@),
            all == split(text@.skip(head@.len() as int), 38),
            read_fields(all.take(k as int)) == Ok::<Draft, SnapshotFault>(
                Draft {
                    id: match id {
                        Some(x) => Some(x@),
                        None => None,
                    },
                    addrs: ways(addrs@),
                },
            ),
        decreases pairs@.len() - k,
    {
        let pair: &[u8] = pairs[k].as_slice();
        proof {
            assert(all.take(k + 1).drop_last() =~= all.take(k as int));
            assert(all.take(k + 1).last() == pair@);
            assert(pair@.skip(0) =~= pair@);
            if read_fields(all.take(k + 1)) is Err {
                lemma_fault_stays(all, k + 1);
            }
        }
        let i: usize = find(pair, 0, 61);
        if i == pair.len() {
            return Err(CoreError::Config("bad snapshot pair".to_owned()));
        }
        let key: &[u8] = vstd::slice::slice_subrange(pair, 0, i);
        let value: &[u8] = vstd::slice::slice_subrange(pair, i + 1, pair.len());
        proof {
            assert(key@ =~= pair@.take(i as int));
            assert(value@ =~= pair@.skip(i + 1));
        }
        if same(key, ascii_bytes("v").as_slice()) {
            if !same(value, ascii_bytes("1").as_slice()) {
                return Err(CoreError::Config("unsupported snapshot version".to_owned()));
            }
        } else if same(key, ascii_bytes("id").as_slice()) {
            let found: NodeId = id_field(value)?;
            id = Some(found);
        } else if same(key, ascii_bytes("a").as_slice()) {
            address_field(value, &mut addrs)?;
        } else if same(key, ascii_bytes("r").as_slice()) {
            let url = relay_field(value)?;
            let ghost had = addrs@;
            addrs.push(TransportAddr::Relay(url));
            assert(ways(addrs@) =~= ways(had).push(TransportData::Relay(url@)));
        }
        k = k + 1;
    }
    assert(all.take(k as int) =~= all);
    match id {
        Some(id) => Ok(NodeAddr { id, addrs }),
        None => Err(CoreError::Config("snapshot missing id".to_owned())),
    }
}

/// The node id of a snapshot, in hexadecimal digits.
pub fn node_id_of_naddr(s: &str) -> (r: Result<String, CoreError>)
    ensures
        match r {
            Ok(id) => snapshot(encode_utf8(s@)) is Ok && id@ == hex_text(
                snapshot(encode_utf8(s@))->Ok_0.id,
            ),
            Err(e) => snapshot(encode_utf8(s@)) is Err && tells(
                e,
                snapshot(encode_utf8(s@))->Err_0,
            ),
        },
{
    let a = parse_naddr(s)?;
    Ok(hex(a.id.as_slice()))
}

/// Pieces with separators between them.
pub open spec fn join(parts: Seq<Seq<u8>>, sep: u8) -> Seq<u8>
    decreases parts.len(),
{
    if parts.len() == 0 {
        Seq::empty()
    } else if parts.len() == 1 {
        parts[0]
    } else {
        parts[0] + seq![sep] + join(parts.skip(1), sep)
    }
}

/// The addresses worth telling others, in their encoded form.
pub open spec fn shown_ips(addrs: Seq<TransportAddr>, include_loopback: bool) -> Seq<Seq<u8>>
    decreases addrs.len(),
{
    if addrs.len() == 0 {
        Seq::empty()
    } else {
        match addrs.last() {
            TransportAddr::Ip(a) if a.shown(include_loopback) => shown_ips(
                addrs.drop_last(),
                include_loopback,
            ).push(a.encoded()),
            _ => shown_ips(addrs.drop_last(), include_loopback),
        }
    }
}

/// The first relay.
pub open spec fn first_relay(addrs: Seq<TransportAddr>) -> Option<Seq<char>>
    decreases addrs.len(),
{
    if addrs.len() == 0 {
        None
    } else {
        match first_relay(addrs.drop_last()) {
            Some(url) => Some(url),
            None => match addrs.last() {
                TransportAddr::Relay(url) => Some(url@),
                TransportAddr::Ip(_) => None,
            },
        }
    }
}

/// Addresses in base64 digits.
pub open spec fn all_digits64(ips: Seq<Seq<u8>>) -> Seq<Seq<u8>> {
    Seq::new(ips.len(), |i: int| b64_digits(ips[i]))
}

/// The fields of a snapshot: the version, the node id, the addresses if there are any, and the
/// relay if there is one.
pub open spec fn snapshot_fields(id: Seq<u8>, ips: Seq<Seq<u8>>, relay: Option<Seq<char>>) -> Seq<
    Seq<u8>,
> {
    let known = seq![ascii("v=1"@), ascii("id="@) + ascii(hex_text(id))];
    let direct = if ips.len() > 0 {
        known.push(ascii("a="@) + join(all_digits64(ips), 44))
    } else {
        known
    };
    match relay {
        Some(url) => direct.push(ascii("r="@) + b64_digits(encode_utf8(url))),
        None => direct,
    }
}

/// The snapshot that tells of a node.
pub open spec fn snapshot_text(id: Seq<u8>, ips: Seq<Seq<u8>>, relay: Option<Seq<char>>) -> Seq<u8> {
    ascii("dc://node?"@) + join(snapshot_fields(id, ips, relay), 38)
}

/// One more piece stands behind one more separator.
proof fn lemma_join_push(parts: Seq<Seq<u8>>, last: Seq<u8>, sep: u8)
    requires
        parts.len() > 0,
    ensures
        join(parts.push(last), sep) == join(parts, sep) + seq![sep] + last,
    decreases parts.len(),
{
    let longer = parts.push(last);
    if parts.len() == 1 {
        assert(longer.skip(1) =~= seq![last]);
        assert(join(longer.skip(1), sep) == last);
    } else {
        assert(longer.skip(1) =~= parts.skip(1).push(last));
        lemma_join_push(parts.skip(1), last, sep);
        assert(join(longer, sep) =~= join(parts, sep) + seq![sep] + last);
    }
}

/// Splitting what was joined gives the pieces back, if no separator stands in them.
proof fn lemma_split_join(parts: Seq<Seq<u8>>, sep: u8)
    requires
        parts.len() > 0,
        forall|i: int| 0 <= i < parts.len() ==> !(#[trigger] parts[i]).contains(sep),
    ensures
        split(join(parts, sep), sep) == parts,
    decreases parts.len(),
{
    let first = parts[0];
    let s = join(parts, sep);
    assert(!parts[0].contains(sep));
    assert forall|k: int| 0 <= k < first.len() implies s[k] != sep by {
        assert(s[k] == first[k]);
    }
    lemma_first_of(s, sep, first.len() as int);
    if parts.len() == 1 {
        assert(split(s, sep) =~= parts);
    } else {
        let rest = parts.skip(1);
        assert forall|i: int| 0 <= i < rest.len() implies !(#[trigger] rest[i]).contains(sep) by {
            assert(!parts[i + 1].contains(sep));
        }
        lemma_split_join(rest, sep);
        assert(s.take(first.len() as int) =~= first);
        assert(s.skip(first.len() as int + 1) =~= join(rest, sep));
        assert(split(s, sep) =~= seq![first] + rest);
        assert(seq![first] + rest =~= parts);
    }
}

/// What is made of hexadecimal digits and of the letters of the fields' keys is ASCII.
pub open spec fn plain(s: Seq<u8>) -> bool {
    forall|i: int| 0 <= i < s.len() ==> #[trigger] s[i] < 128
}

/// Hexadecimal digits are figures and small letters.
proof fn lemma_hex_plain(id: Seq<u8>)
    ensures
        forall|i: int|
            0 <= i < hex_text(id).len() ==> ('0' <= #[trigger] hex_text(id)[i] <= '9' || 'a'
                <= hex_text(id)[i] <= 'f'),
    decreases id.len(),
{
    if id.len() > 0 {
        let t = hex_text(id);
        let front = hex_text(id.drop_last());
        lemma_hex_plain(id.drop_last());
        assert forall|i: int| 0 <= i < t.len() implies ('0' <= #[trigger] t[i] <= '9' || 'a' <= t[i]
            <= 'f') by {
            if i < front.len() {
                assert(t[i] == front[i]);
            }
        }
    }
}

/// The bytes of ASCII characters have their numbers.
proof fn lemma_latin_ascii(t: Seq<char>)
    requires
        forall|i: int| 0 <= i < t.len() ==> '\0' <= #[trigger] t[i] <= '\x7f',
    ensures
        latin(ascii(t)) == t,
        plain(ascii(t)),
{
    assert(latin(ascii(t)) =~= t);
}

/// A text whose characters are plain bytes is encoded as these bytes.
proof fn lemma_plain_text(s: Seq<u8>)
    requires
        plain(s),
    ensures
        encode_utf8(latin(s)) == s,
{
    let t = latin(s);
    assert forall|i: int| 0 <= i < t.len() implies '\0' <= #[trigger] t[i] <= '\u{7f}' by {
        assert(s[i] < 128);
    }
    vstd::utf8::is_ascii_chars_encode_utf8(t);
    assert(encode_utf8(t) =~= s);
}

/// Base64 digits are plain, and no comma, ampersand or equals sign.
proof fn lemma_b64_plain(s: Seq<u8>)
    ensures
        plain(b64_digits(s)),
        !b64_digits(s).contains(38),
        !b64_digits(s).contains(44),
{
    lemma_only_digits(s);
    let t = b64_digits(s);
    assert forall|i: int| 0 <= i < t.len() implies #[trigger] t[i] < 128 && t[i] != 38 && t[i] != 44 by {
        assert(value64(t[i]) is Some);
    }
}

/// Joining pieces adds nothing but separators.
proof fn lemma_join_holds(parts: Seq<Seq<u8>>, sep: u8, other: u8)
    requires
        forall|i: int| 0 <= i < parts.len() ==> plain(#[trigger] parts[i]) && !parts[i].contains(other),
        sep < 128,
        sep != other,
    ensures
        plain(join(parts, sep)),
        !join(parts, sep).contains(other),
    decreases parts.len(),
{
    if parts.len() > 0 {
        let s = join(parts, sep);
        let first = parts[0];
        assert(plain(first) && !first.contains(other));
        if parts.len() > 1 {
            let rest = parts.skip(1);
            assert forall|i: int| 0 <= i < rest.len() implies plain(#[trigger] rest[i])
                && !rest[i].contains(other) by {
                assert(plain(parts[i + 1]) && !parts[i + 1].contains(other));
            }
            lemma_join_holds(rest, sep, other);
            let tail = join(rest, sep);
            assert forall|i: int| 0 <= i < s.len() implies #[trigger] s[i] < 128 && s[i] != other by {
                if i < first.len() {
                    assert(s[i] == first[i]);
                } else if i > first.len() {
                    assert(s[i] == tail[i - first.len() - 1]);
                }
            }
        }
    }
}

/// The literals that fields begin with.
proof fn lemma_keys()
    ensures
        ascii("v=1"@) == seq![118u8, 61, 49],
        ascii("id="@) == seq![105u8, 100, 61],
        ascii("a="@) == seq![97u8, 61],
        ascii("r="@) == seq![114u8, 61],
        ascii("v"@) == seq![118u8],
        ascii("1"@) == seq![49u8],
        ascii("id"@) == seq![105u8, 100],
        ascii("a"@) == seq![97u8],
        ascii("r"@) == seq![114u8],
        ascii("id"@) != ascii("v"@),
        ascii("a"@) != ascii("v"@),
        ascii("a"@) != ascii("id"@),
        ascii("r"@) != ascii("v"@),
        ascii("r"@) != ascii("id"@),
        ascii("r"@) != ascii("a"@),
{
    reveal_strlit("v=1");
    reveal_strlit("id=");
    reveal_strlit("a=");
    reveal_strlit("r=");
    reveal_strlit("v");
    reveal_strlit("1");
    reveal_strlit("id");
    reveal_strlit("a");
    reveal_strlit("r");
    assert(ascii("v=1"@) =~= seq![118u8, 61, 49]);
    assert(ascii("id="@) =~= seq![105u8, 100, 61]);
    assert(ascii("a="@) =~= seq![97u8, 61]);
    assert(ascii("r="@) =~= seq![114u8, 61]);
    assert(ascii("v"@) =~= seq![118u8]);
    assert(ascii("1"@) =~= seq![49u8]);
    assert(ascii("id"@) =~= seq![105u8, 100]);
    assert(ascii("a"@) =~= seq![97u8]);
    assert(ascii("r"@) =~= seq![114u8]);
    assert(ascii("a"@)[0] == 97 && ascii("v"@)[0] == 118 && ascii("r"@)[0] == 114);
    assert(ascii("id"@).len() == 2 && ascii("v"@).len() == 1);
    assert(ascii("a"@).len() == 1 && ascii("r"@).len() == 1);
}

/// A field is taken apart at its first equals sign.
proof fn lemma_field(key: Seq<u8>, value: Seq<u8>)
    requires
        !key.contains(61),
    ensures
        first_of(key + seq![61u8] + value, 61) == key.len(),
        (key + seq![61u8] + value).take(key.len() as int) == key,
        (key + seq![61u8] + value).skip(key.len() as int + 1) == value,
{
    let pair = key + seq![61u8] + value;
    assert forall|k: int| 0 <= k < key.len() implies pair[k] != 61 by {
        assert(pair[k] == key[k]);
    }
    lemma_first_of(pair, 61, key.len() as int);
    assert(pair.take(key.len() as int) =~= key);
    assert(pair.skip(key.len() as int + 1) =~= value);
}

/// No ampersand stands in a field, and all of it is plain.
proof fn lemma_fields_plain(id: Seq<u8>, ips: Seq<Seq<u8>>, relay: Option<Seq<char>>)
    ensures
        forall|i: int|
            0 <= i < snapshot_fields(id, ips, relay).len() ==> plain(
                #[trigger] snapshot_fields(id, ips, relay)[i],
            ) && !snapshot_fields(id, ips, relay)[i].contains(38),
{
    let fields = snapshot_fields(id, ips, relay);
    lemma_keys();
    lemma_hex_plain(id);
    let digits = ascii(hex_text(id));
    lemma_latin_ascii(hex_text(id));
    assert forall|i: int| 0 <= i < digits.len() implies #[trigger] digits[i] != 38 by {
        assert('0' <= hex_text(id)[i] <= '9' || 'a' <= hex_text(id)[i] <= 'f');
    }
    let parts = all_digits64(ips);
    assert forall|i: int| 0 <= i < parts.len() implies plain(#[trigger] parts[i])
        && !parts[i].contains(38) by {
        lemma_b64_plain(ips[i]);
    }
    lemma_join_holds(parts, 44, 38);
    if relay is Some {
        lemma_b64_plain(encode_utf8(relay->0));
    }
    let joined = join(parts, 44);
    assert forall|i: int| 0 <= i < fields.len() implies plain(#[trigger] fields[i])
        && !fields[i].contains(38) by {
        let f = fields[i];
        if i == 1 {
            assert forall|k: int| 0 <= k < f.len() implies #[trigger] f[k] < 128 && f[k] != 38 by {
                if k >= 3 {
                    assert(f[k] == digits[k - 3]);
                }
            }
        } else if i == 2 && ips.len() > 0 {
            assert forall|k: int| 0 <= k < f.len() implies #[trigger] f[k] < 128 && f[k] != 38 by {
                if k >= 2 {
                    assert(f[k] == joined[k - 2]);
                }
            }
        } else if i >= 2 {
            let d = b64_digits(encode_utf8(relay->0));
            assert forall|k: int| 0 <= k < f.len() implies #[trigger] f[k] < 128 && f[k] != 38 by {
                if k >= 2 {
                    assert(f[k] == d[k - 2]);
                }
            }
        }
    }
}

/// Encoded addresses are read back from their base64 digits.
proof fn lemma_addresses_read(ips: Seq<Seq<u8>>)
    requires
        forall|i: int| 0 <= i < ips.len() ==> sockaddr_length(#[trigger] ips[i]),
    ensures
        read_addresses(all_digits64(ips)) == Ok::<Seq<TransportData>, SnapshotFault>(direct_ways(ips)),
    decreases ips.len(),
{
    if ips.len() > 0 {
        let front = ips.drop_last();
        assert forall|i: int| 0 <= i < front.len() implies sockaddr_length(#[trigger] front[i]) by {
            assert(sockaddr_length(ips[i]));
        }
        lemma_addresses_read(front);
        law_base64_round_trip(ips.last());
        assert(sockaddr_length(ips[ips.len() - 1]));
        assert(all_digits64(ips).drop_last() =~= all_digits64(front));
        assert(direct_ways(front).push(TransportData::Ip(ips.last())) =~= direct_ways(ips));
    } else {
        assert(direct_ways(ips) =~= Seq::empty());
    }
}

/// Ways by encoded addresses.
pub open spec fn direct_ways(ips: Seq<Seq<u8>>) -> Seq<TransportData> {
    Seq::new(ips.len(), |i: int| TransportData::Ip(ips[i]))
}

/// The ways that a snapshot tells of: the addresses, then the relay.
pub open spec fn told_ways(ips: Seq<Seq<u8>>, relay: Option<Seq<char>>) -> Seq<TransportData> {
    match relay {
        Some(url) => direct_ways(ips).push(TransportData::Relay(url)),
        None => direct_ways(ips),
    }
}

/// One more field is read after the others.
proof fn lemma_read_next(pairs: Seq<Seq<u8>>, pair: Seq<u8>, d: Draft)
    requires
        read_fields(pairs) == Ok::<Draft, SnapshotFault>(d),
    ensures
        read_fields(pairs.push(pair)) == read_field(d, pair),
{
    assert(pairs.push(pair).drop_last() =~= pairs);
}

/// The version is read.
proof fn lemma_version_read(d: Draft)
    ensures
        read_field(d, ascii("v=1"@)) == Ok::<Draft, SnapshotFault>(d),
{
    lemma_keys();
    assert(!seq![118u8].contains(61u8));
    lemma_field(seq![118u8], seq![49u8]);
    assert(ascii("v=1"@) =~= seq![118u8] + seq![61u8] + seq![49u8]);
}

/// The node id is read.
proof fn lemma_id_read(d: Draft, id: Seq<u8>)
    requires
        id.len() == 32,
        iroh_is_endpoint_id(id),
    ensures
        read_field(d, ascii("id="@) + ascii(hex_text(id))) == Ok::<Draft, SnapshotFault>(
            Draft { id: Some(id), addrs: d.addrs },
        ),
{
    let digits = ascii(hex_text(id));
    lemma_keys();
    assert(!seq![105u8, 100].contains(61u8));
    lemma_field(seq![105u8, 100], digits);
    assert(ascii("id="@) + digits =~= seq![105u8, 100] + seq![61u8] + digits);
    lemma_hex_plain(id);
    lemma_latin_ascii(hex_text(id));
    law_hex_round_trip(id);
    assert(read_id(digits) == Ok::<Seq<u8>, SnapshotFault>(id));
}

/// The addresses are read.
proof fn lemma_direct_read(d: Draft, ips: Seq<Seq<u8>>)
    requires
        ips.len() > 0,
        forall|i: int| 0 <= i < ips.len() ==> sockaddr_length(#[trigger] ips[i]),
    ensures
        read_field(d, ascii("a="@) + join(all_digits64(ips), 44)) == Ok::<Draft, SnapshotFault>(
            Draft { id: d.id, addrs: d.addrs + direct_ways(ips) },
        ),
{
    let joined = join(all_digits64(ips), 44);
    lemma_keys();
    assert(!seq![97u8].contains(61u8));
    lemma_field(seq![97u8], joined);
    assert(ascii("a="@) + joined =~= seq![97u8] + seq![61u8] + joined);
    assert forall|i: int| 0 <= i < ips.len() implies !(#[trigger] all_digits64(ips)[i]).contains(
        44,
    ) by {
        lemma_b64_plain(ips[i]);
    }
    lemma_split_join(all_digits64(ips), 44);
    lemma_addresses_read(ips);
}

/// The relay is read.
proof fn lemma_relay_read(d: Draft, url: Seq<char>)
    requires
        iroh_relay_url(url) == Some(url),
    ensures
        read_field(d, ascii("r="@) + b64_digits(encode_utf8(url))) == Ok::<Draft, SnapshotFault>(
            Draft { id: d.id, addrs: d.addrs.push(TransportData::Relay(url)) },
        ),
{
    let digits = b64_digits(encode_utf8(url));
    lemma_keys();
    assert(!seq![114u8].contains(61u8));
    lemma_field(seq![114u8], digits);
    assert(ascii("r="@) + digits =~= seq![114u8] + seq![61u8] + digits);
    law_base64_round_trip(encode_utf8(url));
    vstd::utf8::encode_utf8_valid_utf8(url);
    vstd::utf8::encode_utf8_decode_utf8(url);
}

/// Who reads a snapshot learns the node id, the addresses and the relay that it was made of. The
/// node id has to be one, and the relay's address has to be in its normal form.
pub proof fn law_snapshot_round_trip(id: Seq<u8>, ips: Seq<Seq<u8>>, relay: Option<Seq<char>>)
    requires
        id.len() == 32,
        iroh_is_endpoint_id(id),
        forall|i: int| 0 <= i < ips.len() ==> sockaddr_length(#[trigger] ips[i]),
        relay matches Some(url) ==> iroh_relay_url(url) == Some(url),
    ensures
        snapshot(snapshot_text(id, ips, relay)) == Ok::<NodeAddrData, SnapshotFault>(
            NodeAddrData { id, addrs: told_ways(ips, relay) },
        ),
{
    let fields = snapshot_fields(id, ips, relay);
    let head = ascii("dc://node?"@);
    let text = snapshot_text(id, ips, relay);
    lemma_fields_plain(id, ips, relay);
    lemma_split_join(fields, 38);
    assert(text.skip(head.len() as int) =~= join(fields, 38));
    let none = Seq::<Seq<u8>>::empty();
    let d0 = Draft { id: None, addrs: Seq::<TransportData>::empty() };
    let version = none.push(ascii("v=1"@));
    lemma_read_next(none, ascii("v=1"@), d0);
    lemma_version_read(d0);
    let id_field = ascii("id="@) + ascii(hex_text(id));
    let named = version.push(id_field);
    lemma_read_next(version, id_field, d0);
    lemma_id_read(d0, id);
    let d1 = Draft { id: Some(id), addrs: Seq::<TransportData>::empty() };
    let address_field = ascii("a="@) + join(all_digits64(ips), 44);
    let direct = if ips.len() > 0 {
        named.push(address_field)
    } else {
        named
    };
    let d2 = Draft { id: Some(id), addrs: direct_ways(ips) };
    assert(d1.addrs + direct_ways(ips) =~= direct_ways(ips));
    if ips.len() > 0 {
        lemma_read_next(named, address_field, d1);
        lemma_direct_read(d1, ips);
    } else {
        assert(direct_ways(ips) =~= d1.addrs);
    }
    assert(read_fields(direct) == Ok::<Draft, SnapshotFault>(d2));
    assert(seq![ascii("v=1"@), id_field] =~= named);
    if relay is Some {
        let relay_field = ascii("r="@) + b64_digits(encode_utf8(relay->0));
        lemma_read_next(direct, relay_field, d2);
        lemma_relay_read(d2, relay->0);
        assert(fields == direct.push(relay_field));
    } else {
        assert(fields == direct);
    }
}

/// The addresses worth telling others, in base64 digits with commas between them, and whether
/// there are any.
fn joined_ips(addrs: &Vec<TransportAddr>, include_loopback: bool) -> (r: (Vec<u8>, bool))
    ensures
        r.0@ == join(all_digits64(shown_ips(addrs@, include_loopback)), 44),
        r.1 == (shown_ips(addrs@, include_loopback).len() > 0),
{
    let mut out: Vec<u8> = Vec::new();
    let mut any: bool = false;
    let mut i: usize = 0;
    while i < addrs.len()
        invariant
            i <= addrs@.len(),
            out@ == join(all_digits64(shown_ips(addrs@.take(i as int), include_loopback)), 44),
            any == (shown_ips(addrs@.take(i as int), include_loopback).len() > 0),
        decreases addrs@.len() - i,
    {
        let ghost before = shown_ips(addrs@.take(i as int), include_loopback);
        assert(addrs@.take(i + 1).drop_last() =~= addrs@.take(i as int));
        if let TransportAddr::Ip(a) = &addrs[i] {
            if !a.is_unspecified() && (include_loopback || !a.is_loopback()) {
                let encoded = sockaddr_bytes(a);
                let digits = b64(encoded.as_slice());
                proof {
                    let after = before.push(a.encoded());
                    assert(all_digits64(after) =~= all_digits64(before).push(digits@));
                    if before.len() > 0 {
                        lemma_join_push(all_digits64(before), digits@, 44);
                    } else {
                        assert(all_digits64(after) =~= seq![digits@]);
                    }
                }
                if any {
                    out.push(44);
                }
                let ghost had = out@;
                append(&mut out, digits.as_slice());
                proof {
                    if before.len() == 0 {
                        assert(had =~= Seq::empty());
                        assert(out@ =~= digits@);
                    } else {
                        assert(out@ =~= join(all_digits64(before), 44) + seq![44u8] + digits@);
                    }
                }
                any = true;
            }
        }
        i = i + 1;
    }
    assert(addrs@.take(i as int) =~= addrs@);
    (out, any)
}

/// The first relay.
fn relay_of(addrs: &Vec<TransportAddr>) -> (r: Option<&String>)
    ensures
        match r {
            Some(url) => first_relay(addrs@) == Some(url@),
            None => first_relay(addrs@) is None,
        },
{
    let mut i: usize = 0;
    while i < addrs.len()
        invariant
            i <= addrs@.len(),
            first_relay(addrs@.take(i as int)) is None,
        decreases addrs@.len() - i,
    {
        assert(addrs@.take(i + 1).drop_last() =~= addrs@.take(i as int));
        if let TransportAddr::Relay(url) = &addrs[i] {
            proof {
                lemma_first_relay_stays(addrs@, i + 1);
            }
            return Some(url);
        }
        i = i + 1;
    }
    assert(addrs@.take(i as int) =~= addrs@);
    None
}

/// The first relay of some ways is the first of all.
proof fn lemma_first_relay_stays(addrs: Seq<TransportAddr>, n: int)
    requires
        0 <= n <= addrs.len(),
        first_relay(addrs.take(n)) is Some,
    ensures
        first_relay(addrs) == first_relay(addrs.take(n)),
    decreases addrs.len(),
{
    if n == addrs.len() {
        assert(addrs.take(n) =~= addrs);
    } else {
        assert(addrs.drop_last().take(n) =~= addrs.take(n));
        lemma_first_relay_stays(addrs.drop_last(), n);
    }
}

/// The snapshot that tells others of a node: its id, the addresses worth telling and its first
/// relay. All of it is ASCII. Addresses of the node itself are left out unless asked for.
pub fn naddr_string(addr: &NodeAddr, include_loopback: bool) -> (r: String)
    ensures
        ({
            let text = snapshot_text(
                addr.id@,
                shown_ips(addr.addrs@, include_loopback),
                first_relay(addr.addrs@),
            );
            r@ == latin(text) && encode_utf8(r@) == text
        }),
{
    let ghost ips = shown_ips(addr.addrs@, include_loopback);
    let ghost relay = first_relay(addr.addrs@);
    let mut out = ascii_bytes("dc://node?");
    let ghost head = out@;
    let version = ascii_bytes("v=1");
    append(&mut out, version.as_slice());
    let ghost mut fields: Seq<Seq<u8>> = seq![version@];
    assert(out@ == head + join(fields, 38));
    let mut id = ascii_bytes("id=");
    let digits = ascii_bytes(hex(addr.id.as_slice()).as_str());
    append(&mut id, digits.as_slice());
    out.push(38);
    append(&mut out, id.as_slice());
    proof {
        lemma_join_push(fields, id@, 38);
        fields = fields.push(id@);
        assert(out@ =~= head + join(fields, 38));
        assert(fields =~= seq![ascii("v=1"@), ascii("id="@) + ascii(hex_text(addr.id@))]);
    }
    let (joined, any): (Vec<u8>, bool) = joined_ips(&addr.addrs, include_loopback);
    if any {
        let mut field = ascii_bytes("a=");
        append(&mut field, joined.as_slice());
        out.push(38);
        append(&mut out, field.as_slice());
        proof {
            lemma_join_push(fields, field@, 38);
            fields = fields.push(field@);
            assert(out@ =~= head + join(fields, 38));
        }
    }
    if let Some(url) = relay_of(&addr.addrs) {
        let mut field = ascii_bytes("r=");
        let digits = b64(url.as_str().as_bytes());
        append(&mut field, digits.as_slice());
        out.push(38);
        append(&mut out, field.as_slice());
        proof {
            lemma_join_push(fields, field@, 38);
            fields = fields.push(field@);
            assert(out@ =~= head + join(fields, 38));
        }
    }
    proof {
        assert(fields == snapshot_fields(addr.id@, ips, relay));
        lemma_fields_plain(addr.id@, ips, relay);
        assert forall|i: int| 0 <= i < fields.len() implies plain(#[trigger] fields[i])
            && !fields[i].contains(255) by {
            assert(plain(fields[i]));
        }
        lemma_join_holds(fields, 38, 255);
        lemma_head_plain();
        assert(plain(out@)) by {
            assert forall|i: int| 0 <= i < out@.len() implies #[trigger] out@[i] < 128 by {
                if i < head.len() {
                    assert(out@[i] == head[i]);
                } else {
                    assert(out@[i] == join(fields, 38)[i - head.len()]);
                }
            }
        }
        lemma_plain_text(out@);
    }
    string_of(latin_chars(out.as_slice()).as_slice())
}

/// The beginning of a snapshot is plain.
proof fn lemma_head_plain()
    ensures
        plain(ascii("dc://node?"@)),
{
    reveal_strlit("dc://node?");
}

/// A message may be sent: it is neither empty nor too long.
pub fn check_payload(len: usize) -> (r: Result<(), CoreError>)
    ensures
        r is Ok <==> 0 < len <= MAX_MSG_LEN,
        r is Ok <==> 1 <= len <= 262_144,
        r matches Err(e) ==> e is Config && e.text() == if len == 0 {
            "empty payload"@
        } else {
            "payload "@ + decimal(len as nat) + " exceeds "@ + decimal(MAX_MSG_LEN as nat)
        },
{
    if len == 0 {
        return Err(CoreError::Config("empty payload".to_owned()));
    }
    if len > MAX_MSG_LEN {
        let mut out = "payload ".to_owned();
        append_decimal(&mut out, len as u64);
        out.append(" exceeds ");
        append_decimal(&mut out, MAX_MSG_LEN as u64);
        return Err(CoreError::Config(out));
    }
    Ok(())
}

/// What a message is checked for before its receiver is called: first the snapshot of the receiver,
/// then the length of the message. Gives the node to call.
pub fn prepare_send(naddr: &str, payload: &[u8]) -> (r: Result<NodeAddr, CoreError>)
    ensures
        match r {
            Ok(a) => {
                &&& snapshot(encode_utf8(naddr@)) == Ok::<NodeAddrData, SnapshotFault>(a@)
                &&& 0 < payload@.len() <= MAX_MSG_LEN
                &&& payload@.len() <= 262_144
            },
            Err(e) => if snapshot(encode_utf8(naddr@)) is Err {
                tells(e, snapshot(encode_utf8(naddr@))->Err_0)
            } else {
                &&& !(0 < payload@.len() <= MAX_MSG_LEN)
                &&& e is Config
                &&& e.text() == if payload@.len() == 0 {
                    "empty payload"@
                } else {
                    "payload "@ + decimal(payload@.len()) + " exceeds "@ + decimal(
                        MAX_MSG_LEN as nat,
                    )
                }
            },
        },
{
    let addr = parse_naddr(naddr)?;
    check_payload(payload.len())?;
    Ok(addr)
}

/// The acknowledgement frame: the verdict, then the handle of the message.
pub open spec fn ack_bytes(accepted: bool, id: Seq<u8>) -> Seq<u8> {
    seq![
        if accepted {
            ACK_OK
        } else {
            ACK_NAK
        },
    ] + id
}

/// The acknowledgement frame.
pub fn ack_frame(accepted: bool, id: &[u8; 8]) -> (r: Vec<u8>)
    ensures
        r@ == ack_bytes(accepted, id@),
        r@.len() == ACK_FRAME_LEN,
{
    let mut out: Vec<u8> = Vec::new();
    out.push(
        if accepted {
            ACK_OK
        } else {
            ACK_NAK
        },
    );
    append(&mut out, id.as_slice());
    assert(out@ =~= ack_bytes(accepted, id@));
    out
}

/// What an acknowledgement frame says to the sender. A message counts as delivered only if the
/// whole frame came and says so.
pub fn read_ack(frame: &[u8]) -> (r: Result<(), CoreError>)
    ensures
        r is Ok <==> frame_accepts(frame@),
        r matches Err(e) ==> e is Io && e.text() == if frame@.len() != ACK_FRAME_LEN {
            "ack missing"@
        } else {
            "receiver rejected payload (nak)"@
        },
{
    if frame.len() != ACK_FRAME_LEN {
        return Err(CoreError::Io("ack missing".to_owned()));
    }
    if frame[0] != ACK_OK {
        return Err(CoreError::Io("receiver rejected payload (nak)".to_owned()));
    }
    Ok(())
}

/// What happens to a message on the receiving side.
pub enum ReceiveEvent {
    /// The application got the message, and decided about it at once or not.
    Judged(Option<bool>),
    /// The application decided within the time that it has.
    Answered(bool),
    /// The time is over.
    TimedOut,
}

/// What the receiving side does next.
#[derive(Debug, PartialEq)]
pub enum ReceiveAction {
    /// Send this frame back.
    Reply(Vec<u8>),
    /// Wait for the application.
    Wait,
}

/// What the sender is to be told, if that is settled. No decision in time counts as a refusal.
pub open spec fn settled(event: ReceiveEvent) -> Option<bool> {
    match event {
        ReceiveEvent::Judged(decision) => decision,
        ReceiveEvent::Answered(ok) => Some(ok),
        ReceiveEvent::TimedOut => Some(false),
    }
}

/// One step of the receiving side, for the message with a handle.
pub fn receive_step(id: &[u8; 8], event: ReceiveEvent) -> (r: ReceiveAction)
    ensures
        match settled(event) {
            Some(ok) => r matches ReceiveAction::Reply(frame) && frame@ == ack_bytes(ok, id@),
            None => r is Wait,
        },
{
    match event {
        ReceiveEvent::Judged(None) => ReceiveAction::Wait,
        ReceiveEvent::Judged(Some(ok)) => ReceiveAction::Reply(ack_frame(ok, id)),
        ReceiveEvent::Answered(ok) => ReceiveAction::Reply(ack_frame(ok, id)),
        ReceiveEvent::TimedOut => ReceiveAction::Reply(ack_frame(false, id)),
    }
}

/// How the way of a message ended on the sending side. A text says more about a failure.
pub enum SendEvent {
    ConnectTimedOut,
    ConnectFailed(String),
    OpenFailed(String),
    WriteFailed(String),
    FinishFailed(String),
    AckTimedOut,
    AckFailed(String),
    /// The frame that the receiver sent back.
    Acked(Vec<u8>),
}

/// What a frame from the receiver says of a message.
pub open spec fn frame_accepts(frame: Seq<u8>) -> bool {
    frame.len() == ACK_FRAME_LEN && frame[0] == ACK_OK
}

/// A message counts as delivered.
pub open spec fn delivered(event: SendEvent) -> bool {
    event matches SendEvent::Acked(frame) && frame_accepts(frame@)
}

/// Why a message does not count as delivered.
pub open spec fn not_delivered(event: SendEvent) -> Seq<char> {
    match event {
        SendEvent::ConnectTimedOut => "connect timeout"@,
        SendEvent::ConnectFailed(e) => "connect: "@ + e@,
        SendEvent::OpenFailed(e) => "open_bi: "@ + e@,
        SendEvent::WriteFailed(e) => "write: "@ + e@,
        SendEvent::FinishFailed(e) => "finish: "@ + e@,
        SendEvent::AckTimedOut => "ack timeout"@,
        SendEvent::AckFailed(e) => "ack read: "@ + e@,
        SendEvent::Acked(frame) => if frame@.len() != ACK_FRAME_LEN {
            "ack missing"@
        } else {
            "receiver rejected payload (nak)"@
        },
    }
}

/// An error of the way, behind the name of the step that failed.
fn step_fault(step: &str, text: &String) -> (r: CoreError)
    ensures
        r is Io,
        r.text() == step@ + text@,
{
    let mut out = step.to_owned();
    out.append(text.as_str());
    CoreError::Io(out)
}

/// What the sender is told when the way of a message has ended. Whatever went wrong, the message
/// can be sent again; it is delivered only if the receiver's application took it.
pub fn send_result(event: SendEvent) -> (r: Result<(), CoreError>)
    ensures
        r is Ok <==> delivered(event),
        r matches Err(e) ==> e is Io && e.text() == not_delivered(event),
{
    match event {
        SendEvent::ConnectTimedOut => Err(CoreError::Io("connect timeout".to_owned())),
        SendEvent::ConnectFailed(e) => Err(step_fault("connect: ", &e)),
        SendEvent::OpenFailed(e) => Err(step_fault("open_bi: ", &e)),
        SendEvent::WriteFailed(e) => Err(step_fault("write: ", &e)),
        SendEvent::FinishFailed(e) => Err(step_fault("finish: ", &e)),
        SendEvent::AckTimedOut => Err(CoreError::Io("ack timeout".to_owned())),
        SendEvent::AckFailed(e) => Err(step_fault("ack read: ", &e)),
        SendEvent::Acked(frame) => read_ack(frame.as_slice()),
    }
}

/// The sender counts a message as delivered if and only if the whole frame that comes back was made
/// after the receiving application had accepted the message.
pub proof fn law_delivered_means_accepted(event: ReceiveEvent, id: Seq<u8>, ended: SendEvent)
    requires
        id.len() == ACK_ID_LEN,
        settled(event) is Some,
        ended matches SendEvent::Acked(frame) ==> frame@ == ack_bytes(settled(event)->0, id),
    ensures
        delivered(ended) <==> ended is Acked && settled(event) == Some(true),
{
}

/// A frame that was cut short never counts as delivered.
pub proof fn law_short_ack_is_no_delivery(accepted: bool, id: Seq<u8>, n: int)
    requires
        id.len() == ACK_ID_LEN,
        0 <= n < ACK_FRAME_LEN,
    ensures
        !frame_accepts(ack_bytes(accepted, id).take(n)),
{
}

/// The handle that sixteen hexadecimal digits stand for; nothing when they are no such handle.
pub fn ack_id(digits: &str) -> (r: Option<[u8; 8]>)
    ensures
        match r {
            Some(id) => unhex_bytes(digits@) == Some(id@),
            None => !(unhex_bytes(digits@) matches Some(b) && b.len() == ACK_ID_LEN),
        },
{
    let b: Vec<u8> = match unhex(chars_of(digits).as_slice()) {
        Some(b) => b,
        None => {
            return None;
        },
    };
    if b.len() != ACK_ID_LEN {
        return None;
    }
    let id: [u8; 8] = to_array::<8>(b.as_slice());
    assert(id@ =~= b@);
    Some(id)
}

/// What addresses stand for: 127.x.x.x and ::1 for the node itself, and all zeros for no place. The first are
/// told to others on request only, and the last never.
#[verifier::rlimit(40)]
pub proof fn law_addresses_worth_telling(a: SockAddr, include_loopback: bool)
    ensures
        a matches SockAddr::V4 { octets, .. } ==> (a.shown(include_loopback) <==> octets@ != seq![
            0u8,
            0,
            0,
            0,
        ] && (include_loopback || octets@[0] != 127)),
        a matches SockAddr::V6 { octets6, .. } ==> (a.shown(include_loopback) <==> octets6@
            != seq![0u8, 0, 0, 0, 0, 0, 0, 0, 0, 0, 0, 0, 0, 0, 0, 0] && (include_loopback || octets6@
            != seq![0u8, 0, 0, 0, 0, 0, 0, 0, 0, 0, 0, 0, 0, 0, 0, 1])),
{
    match a {
        SockAddr::V4 { octets, .. } => {
            if a.unspecified() {
                assert(a.octet_bytes()[0] == 0 && a.octet_bytes()[1] == 0 && a.octet_bytes()[2] == 0
                    && a.octet_bytes()[3] == 0);
                assert(octets@ =~= seq![0u8, 0, 0, 0]);
            }
        },
        SockAddr::V6 { octets6, .. } => {
            let zeros = seq![0u8, 0, 0, 0, 0, 0, 0, 0, 0, 0, 0, 0, 0, 0, 0, 0];
            let own = seq![0u8, 0, 0, 0, 0, 0, 0, 0, 0, 0, 0, 0, 0, 0, 0, 1];
            if a.unspecified() {
                assert forall|i: int| 0 <= i < 16 implies octets6@[i] == zeros[i] by {
                    assert(a.octet_bytes()[i] == 0);
                }
                assert(octets6@ =~= zeros);
            }
            if a.loopback() {
                assert(octets6@ =~= own);
            }
        },
    }
}

/// An encoded address is the address and behind it the port, the high byte first: six bytes, or eighteen.
pub proof fn law_port_follows_the_address(a: SockAddr)
    ensures
        ({
            let (e, n) = (a.encoded(), a.octet_bytes().len() as int);
            &&& n == 4 || n == 16
            &&& e.len() == n + 2
            &&& e.take(n) == a.octet_bytes()
            &&& 256 * e[n] + e[n + 1] == a.port_number()
            &&& sockaddr_length(e)
        }),
        forall|s: Seq<u8>| #[trigger] sockaddr_length(s) <==> s.len() == 6 || s.len() == 18,
{
    let (e, n) = (a.encoded(), a.octet_bytes().len() as int);
    let p = be_bytes(a.port_number() as nat, 2);
    reveal_with_fuel(be_bytes, 3);
    lemma_be_bytes_len(a.port_number() as nat, 2);
    assert(e.take(n) =~= a.octet_bytes());
    assert(e[n] == p[0] && e[n + 1] == p[1]);
}

/// The addresses that are told are those worth it, in their order.
pub proof fn law_addresses_are_told_in_order(
    a: Seq<TransportAddr>,
    b: Seq<TransportAddr>,
    one: TransportAddr,
    include_loopback: bool,
)
    ensures
        shown_ips(a + b, include_loopback) == shown_ips(a, include_loopback) + shown_ips(b, include_loopback),
        shown_ips(seq![one], include_loopback) == match one {
            TransportAddr::Ip(ip) => if ip.shown(include_loopback) {
                seq![ip.encoded()]
            } else {
                Seq::empty()
            },
            TransportAddr::Relay(_) => Seq::empty(),
        },
    decreases b.len(),
{
    let single = seq![one];
    assert(single.drop_last() =~= Seq::<TransportAddr>::empty());
    assert(single.last() == one);
    assert(shown_ips(single.drop_last(), include_loopback) == Seq::<Seq<u8>>::empty());
    if let TransportAddr::Ip(ip) = one {
        assert(Seq::<Seq<u8>>::empty().push(ip.encoded()) =~= seq![ip.encoded()]);
    }
    if b.len() > 0 {
        law_addresses_are_told_in_order(a, b.drop_last(), one, include_loopback);
        assert((a + b).drop_last() =~= a + b.drop_last());
        assert((a + b).last() == b.last());
        assert(shown_ips(a + b, include_loopback) =~= shown_ips(a, include_loopback) + shown_ips(
            b,
            include_loopback,
        ));
    } else {
        assert(a + b =~= a);
        assert(shown_ips(a, include_loopback) + shown_ips(b, include_loopback) =~= shown_ips(
            a,
            include_loopback,
        ));
    }
}

/// Of several relays the first one is told.
pub proof fn law_first_relay_is_told(a: Seq<TransportAddr>, b: Seq<TransportAddr>, one: TransportAddr)
    ensures
        first_relay(a + b) == if first_relay(a) is Some {
            first_relay(a)
        } else {
            first_relay(b)
        },
        first_relay(seq![one]) == match one {
            TransportAddr::Relay(url) => Some(url@),
            TransportAddr::Ip(_) => None,
        },
    decreases b.len(),
{
    let single = seq![one];
    assert(single.drop_last() =~= Seq::<TransportAddr>::empty());
    assert(single.last() == one);
    assert(first_relay(single.drop_last()) is None);
    if b.len() > 0 {
        law_first_relay_is_told(a, b.drop_last(), one);
        assert((a + b).drop_last() =~= a + b.drop_last());
        assert((a + b).last() == b.last());
    } else {
        assert(a + b =~= a);
    }
}

/// The pieces of a byte string hold no separator, and with separators between them they are the string.
pub proof fn law_pieces_make_the_whole(s: Seq<u8>, sep: u8)
    ensures
        split(s, sep).len() >= 1,
        join(split(s, sep), sep) == s,
        forall|i: int| 0 <= i < split(s, sep).len() ==> !(#[trigger] split(s, sep)[i]).contains(sep),
    decreases s.len(),
{
    lemma_first_is_first(s, sep);
    let i = first_of(s, sep) as int;
    if i < s.len() {
        let (head, tail) = (s.take(i), s.skip(i + 1));
        law_pieces_make_the_whole(tail, sep);
        let all = split(s, sep);
        assert(all.skip(1) =~= split(tail, sep));
        assert(all[0] == head);
        assert(join(all, sep) =~= s);
        assert forall|k: int| 0 <= k < all.len() implies !(#[trigger] all[k]).contains(sep) by {
            if k > 0 {
                assert(all[k] == split(tail, sep)[k - 1]);
            } else if head.contains(sep) {
                let m = choose|m: int| 0 <= m < head.len() && head[m] == sep;
                assert(s[m] == sep);
            }
        }
    } else if s.contains(sep) {
        let m = choose|m: int| 0 <= m < s.len() && s[m] == sep;
        assert(s[m] == sep);
    }
}

/// The first separator is one, and none stands before it.
proof fn lemma_first_is_first(s: Seq<u8>, sep: u8)
    ensures
        first_of(s, sep) <= s.len(),
        first_of(s, sep) < s.len() ==> s[first_of(s, sep) as int] == sep,
        forall|k: int| 0 <= k < first_of(s, sep) ==> #[trigger] s[k] != sep,
    decreases s.len(),
{
    if s.len() > 0 && s[0] != sep {
        let rest = s.skip(1);
        lemma_first_is_first(rest, sep);
        assert forall|k: int| 0 <= k < first_of(s, sep) implies #[trigger] s[k] != sep by {
            if k > 0 {
                assert(rest[k - 1] == s[k]);
            }
        }
    }
}

/// A field without a `=` is a fault, and one whose key is not known is passed over.
pub proof fn law_unknown_field_is_passed_over(d: Draft, key: Seq<u8>, value: Seq<u8>)
    requires
        !key.contains(61),
    ensures
        read_field(d, key) == Err::<Draft, SnapshotFault>(SnapshotFault::Pair),
        key != ascii("v"@) && key != ascii("id"@) && key != ascii("a"@) && key != ascii("r"@)
            ==> read_field(d, key + seq![61u8] + value) == Ok::<Draft, SnapshotFault>(d),
{
    lemma_field(key, value);
    lemma_first_is_first(key, 61);
    if first_of(key, 61) < key.len() {
        assert(key.contains(key[first_of(key, 61) as int]));
    }
}

/// What the known fields do: the version must be 1, the last id counts, addresses and relays come behind
/// those before them, and a fault is the fault of the whole.
#[verifier::rlimit(40)]
pub proof fn law_fields_are_taken_up(d: Draft, value: Seq<u8>)
    ensures
        read_field(d, ascii("v="@) + value) == if value == ascii("1"@) {
            Ok::<Draft, SnapshotFault>(d)
        } else {
            Err(SnapshotFault::Version)
        },
        read_field(d, ascii("id="@) + value) == match read_id(value) {
            Ok(id) => Ok::<Draft, SnapshotFault>(Draft { id: Some(id), addrs: d.addrs }),
            Err(fault) => Err(fault),
        },
        read_field(d, ascii("a="@) + value) == match read_addresses(split(value, 44)) {
            Ok(addrs) => Ok::<Draft, SnapshotFault>(Draft { id: d.id, addrs: d.addrs + addrs }),
            Err(fault) => Err(fault),
        },
        read_field(d, ascii("r="@) + value) == match read_relay(value) {
            Ok(url) => Ok::<Draft, SnapshotFault>(
                Draft { id: d.id, addrs: d.addrs.push(TransportData::Relay(url)) },
            ),
            Err(fault) => Err(fault),
        },
{
    lemma_field_keys();
    let (v, id, a, r) = (ascii("v"@), ascii("id"@), ascii("a"@), ascii("r"@));
    lemma_field_under(d, v, value);
    lemma_field_under(d, id, value);
    lemma_field_under(d, a, value);
    lemma_field_under(d, r, value);
}

/// What a field under a key does.
spec fn field_under(d: Draft, key: Seq<u8>, value: Seq<u8>) -> Result<Draft, SnapshotFault> {
    if key == ascii("v"@) {
        if value == ascii("1"@) {
            Ok(d)
        } else {
            Err(SnapshotFault::Version)
        }
    } else if key == ascii("id"@) {
        match read_id(value) {
            Ok(id) => Ok(Draft { id: Some(id), addrs: d.addrs }),
            Err(fault) => Err(fault),
        }
    } else if key == ascii("a"@) {
        match read_addresses(split(value, 44)) {
            Ok(addrs) => Ok(Draft { id: d.id, addrs: d.addrs + addrs }),
            Err(fault) => Err(fault),
        }
    } else if key == ascii("r"@) {
        match read_relay(value) {
            Ok(url) => Ok(Draft { id: d.id, addrs: d.addrs.push(TransportData::Relay(url)) }),
            Err(fault) => Err(fault),
        }
    } else {
        Ok(d)
    }
}

/// A field is read by its key and its value.
proof fn lemma_field_under(d: Draft, key: Seq<u8>, value: Seq<u8>)
    requires
        !key.contains(61),
    ensures
        read_field(d, key + seq![61u8] + value) == field_under(d, key, value),
{
    lemma_field(key, value);
}

/// The keys of the fields: none holds a `=`, and no two are the same.
#[verifier::rlimit(40)]
proof fn lemma_field_keys()
    ensures
        ascii("v="@) == ascii("v"@) + seq![61u8],
        ascii("id="@) == ascii("id"@) + seq![61u8],
        ascii("a="@) == ascii("a"@) + seq![61u8],
        ascii("r="@) == ascii("r"@) + seq![61u8],
        ascii("v"@)[0] == 118,
        ascii("id"@)[0] == 105,
        ascii("a"@)[0] == 97,
        ascii("r"@)[0] == 114,
        !ascii("v"@).contains(61),
        !ascii("id"@).contains(61),
        !ascii("a"@).contains(61),
        !ascii("r"@).contains(61),
{
    reveal_strlit("v");
    reveal_strlit("id");
    reveal_strlit("a");
    reveal_strlit("r");
    reveal_strlit("v=");
    reveal_strlit("id=");
    reveal_strlit("a=");
    reveal_strlit("r=");
    assert(ascii("v="@) =~= ascii("v"@) + seq![61u8]);
    assert(ascii("id="@) =~= ascii("id"@) + seq![61u8]);
    assert(ascii("a="@) =~= ascii("a"@) + seq![61u8]);
    assert(ascii("r="@) =~= ascii("r"@) + seq![61u8]);
}

/// Fields are read one after the other, up to the first fault.
pub proof fn law_first_fault_counts(a: Seq<Seq<u8>>, b: Seq<Seq<u8>>)
    ensures
        read_fields(a) is Err ==> read_fields(a + b) == read_fields(a),
        b.len() == 1 && read_fields(a) is Ok ==> read_fields(a + b) == read_field(read_fields(a)->Ok_0, b[0]),
        read_fields(Seq::empty()) == Ok::<Draft, SnapshotFault>(Draft { id: None, addrs: Seq::empty() }),
{
    if read_fields(a) is Err {
        assert((a + b).take(a.len() as int) =~= a);
        lemma_fault_stays(a + b, a.len() as int);
    } else if b.len() == 1 {
        assert((a + b).drop_last() =~= a);
        assert((a + b).last() == b[0]);
    }
}

/// What stands in a field for itself: 32 bytes of a node id in hexadecimal digits, an address of six or
/// eighteen bytes and the text of a relay in base64 digits.
#[verifier::rlimit(40)]
pub proof fn law_values_are_read_back(id: Seq<u8>, ip: Seq<u8>, url: Seq<char>)
    ensures
        read_id(ascii(hex_text(id))) == if id.len() != 32 {
            Err::<Seq<u8>, SnapshotFault>(SnapshotFault::IdLength)
        } else if !iroh_is_endpoint_id(id) {
            Err(SnapshotFault::IdKey)
        } else {
            Ok(id)
        },
        read_address(b64_digits(ip)) == if ip.len() == 6 || ip.len() == 18 {
            Ok::<Seq<u8>, SnapshotFault>(ip)
        } else {
            Err(SnapshotFault::Address)
        },
        read_relay(b64_digits(encode_utf8(url))) == match iroh_relay_url(url) {
            Some(u) => Ok::<Seq<char>, SnapshotFault>(u),
            None => Err(SnapshotFault::RelayUrl),
        },
{
    law_hex_round_trip(id);
    lemma_hex_plain(id);
    assert forall|i: int| 0 <= i < hex_text(id).len() implies '\0' <= #[trigger] hex_text(id)[i] <= '\x7f' by {
    }
    lemma_latin_ascii(hex_text(id));
    law_base64_round_trip(ip);
    law_base64_round_trip(encode_utf8(url));
    vstd::utf8::encode_utf8_valid_utf8(url);
    vstd::utf8::encode_utf8_decode_utf8(url);
}

/// An acknowledgement is nine bytes: a one or a zero, and the handle. Only nine bytes with a one in front say
/// that the message was taken.
pub proof fn law_acknowledgement_on_the_wire(id: Seq<u8>, frame: Seq<u8>)
    requires
        id.len() == 8,
    ensures
        ack_bytes(true, id)[0] == 1,
        ack_bytes(false, id)[0] == 0,
        ack_bytes(true, id).skip(1) == id,
        ack_bytes(false, id).skip(1) == id,
        frame_accepts(frame) <==> frame.len() == 9 && frame[0] == 1,
{
    assert(ack_bytes(true, id).skip(1) =~= id);
    assert(ack_bytes(false, id).skip(1) =~= id);
}

/// What the sender is told: what the application decided, at once or later, and a refusal when it did not in
/// time.
pub proof fn law_silence_is_a_refusal(ok: bool)
    ensures
        settled(ReceiveEvent::Judged(Some(ok))) == Some(ok),
        settled(ReceiveEvent::Judged(None)) is None,
        settled(ReceiveEvent::Answered(ok)) == Some(ok),
        settled(ReceiveEvent::TimedOut) == Some(false),
{
}

} // verus!

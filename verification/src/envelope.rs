//! Envelopes: the sealed message on its way, its sender's signature, framing on a stream and
//! the set that keeps a message from being delivered twice.
use vstd::prelude::*;
use crate::arith::same_bytes;
use crate::bytes::{
    append, be_bytes, be_value, law_be_injective, law_be_round_trip, lemma_be_bytes_len,
    lemma_concat, lemma_ranges, lemma_split, push_be, read_be32, to_vec,
};
use crate::crypto::{ed25519_public, ed25519_signature, ed25519_is_key, neutral_point};
use crate::identity::{signed_by, verify_bytes, Identity, NodeId};
use crate::text::{append_decimal, ascii, ascii_bytes, decimal};
use crate::CoreError;

verus! {

/// A message is known by 128 random bits.
pub type MsgId = [u8; 16];

/// What an envelope carries.
#[derive(Debug, Clone, Copy, PartialEq, Eq, Structural)]
pub enum PayloadKind {
    Text,
    /// Key bundles, session resets and the like; never shown to the user.
    SessionMgmt,
    /// Changes of a group's members.
    GroupMgmt,
    /// Agreements between nodes about mailboxes and relays.
    NodeCtl,
}

impl PayloadKind {
    /// The number of the kind on the wire.
    pub open spec fn number(self) -> u8 {
        match self {
            PayloadKind::Text => 1,
            PayloadKind::SessionMgmt => 2,
            PayloadKind::GroupMgmt => 3,
            PayloadKind::NodeCtl => 4,
        }
    }

    /// The number of the kind on the wire.
    pub fn code(self) -> (r: u8)
        ensures
            r == self.number(),
    {
        match self {
            PayloadKind::Text => 1,
            PayloadKind::SessionMgmt => 2,
            PayloadKind::GroupMgmt => 3,
            PayloadKind::NodeCtl => 4,
        }
    }
}

/// The outside of a message. Its body is always ciphertext.
///
/// On the way between contacts `sender` is the long-term identity. On the way past strangers it
/// is the sender's node key of the day, and the long-term identity stands inside the ciphertext
/// only. `sig` is the sender's signature over all other fields; relays ask for it, contacts do
/// not.
#[derive(Debug, PartialEq)]
pub struct Envelope {
    pub msg_id: MsgId,
    pub sender: NodeId,
    pub recipient: Option<NodeId>,
    /// The group of a broadcast, which has no single recipient.
    pub group: Option<NodeId>,
    pub kind: PayloadKind,
    pub body: Vec<u8>,
    pub sent_at_ms: u64,
    /// Hops that are left; at zero the envelope is not passed on.
    pub ttl_hops: u8,
    pub sig: Option<Vec<u8>>,
}

/// What an envelope says.
pub struct EnvelopeData {
    pub msg_id: MsgId,
    pub sender: NodeId,
    pub recipient: Option<NodeId>,
    pub group: Option<NodeId>,
    pub kind: PayloadKind,
    pub body: Seq<u8>,
    pub sent_at_ms: u64,
    pub ttl_hops: u8,
    pub sig: Option<Seq<u8>>,
}

impl View for Envelope {
    type V = EnvelopeData;

    open spec fn view(&self) -> EnvelopeData {
        EnvelopeData {
            msg_id: self.msg_id,
            sender: self.sender,
            recipient: self.recipient,
            group: self.group,
            kind: self.kind,
            body: self.body@,
            sent_at_ms: self.sent_at_ms,
            ttl_hops: self.ttl_hops,
            sig: match self.sig {
                Some(s) => Some(s@),
                None => None,
            },
        }
    }
}

/// An optional key: a flag, then the key if there is one.
pub open spec fn optional_key(k: Option<NodeId>) -> Seq<u8> {
    match k {
        Some(id) => seq![1u8] + id@,
        None => seq![0u8],
    }
}

impl EnvelopeData {
    /// All fields but the signature, one behind the other.
    pub open spec fn field_bytes(self) -> Seq<u8> {
        self.msg_id@ + self.sender@ + optional_key(self.recipient) + optional_key(self.group)
            + seq![self.kind.number()] + be_bytes(self.sent_at_ms as nat, 8) + seq![self.ttl_hops]
            + self.body
    }

    /// What the sender signs.
    pub open spec fn signing_payload(self) -> Seq<u8> {
        ascii("dc-envelope-sig-v1\n"@) + self.field_bytes()
    }

    /// The envelope goes to one recipient or to one group, not to both.
    pub open spec fn one_way(self) -> bool {
        !(self.group is Some && self.recipient is Some)
    }

    /// A broadcast can still be passed on.
    pub open spec fn can_spread(self) -> bool {
        self.group is Some ==> self.ttl_hops != 0
    }

    /// The sender's signature is there and good.
    pub open spec fn sender_signed(self) -> bool {
        self.sig matches Some(s) && signed_by(self.sender@, self.signing_payload(), s)
    }

    /// What is wrong with an envelope that cannot be.
    pub open spec fn shape_fault(self) -> Seq<char> {
        if !self.one_way() {
            "envelope cannot be both unicast and group"@
        } else {
            "group envelope with zero ttl"@
        }
    }

    /// The envelope with another signature.
    pub open spec fn with_sig(self, sig: Option<Seq<u8>>) -> EnvelopeData {
        EnvelopeData { sig, ..self }
    }
}

/// Appends an optional key: a flag, then the key if there is one.
pub fn append_optional_key(v: &mut Vec<u8>, k: &Option<NodeId>)
    ensures
        final(v)@ == old(v)@ + optional_key(*k),
{
    match k {
        Some(id) => {
            v.push(1);
            append(v, id.as_slice());
            assert(v@ =~= old(v)@ + (seq![1u8] + id@));
        },
        None => {
            v.push(0);
            assert(v@ =~= old(v)@ + seq![0u8]);
        },
    }
}

impl Clone for Envelope {
    fn clone(&self) -> (r: Envelope)
        ensures
            r@ == self@,
    {
        Envelope {
            msg_id: self.msg_id,
            sender: self.sender,
            recipient: self.recipient,
            group: self.group,
            kind: self.kind,
            body: to_vec(self.body.as_slice()),
            sent_at_ms: self.sent_at_ms,
            ttl_hops: self.ttl_hops,
            sig: match &self.sig {
                Some(s) => Some(to_vec(s.as_slice())),
                None => None,
            },
        }
    }
}

impl Envelope {
    /// Appends all fields but the signature.
    pub fn append_fields(&self, v: &mut Vec<u8>)
        ensures
            final(v)@ == old(v)@ + self@.field_bytes(),
    {
        append(v, self.msg_id.as_slice());
        append(v, self.sender.as_slice());
        append_optional_key(v, &self.recipient);
        append_optional_key(v, &self.group);
        v.push(self.kind.code());
        push_be(v, self.sent_at_ms, 8);
        v.push(self.ttl_hops);
        append(v, self.body.as_slice());
        assert(v@ =~= old(v)@ + self@.field_bytes());
    }

    /// What the sender signs: all fields but the signature, behind a tag.
    pub fn signing_payload(&self) -> (r: Vec<u8>)
        ensures
            r@ == self@.signing_payload(),
    {
        let mut v = ascii_bytes("dc-envelope-sig-v1\n");
        self.append_fields(&mut v);
        v
    }

    /// Signs the envelope. Only the sender itself can: another key is refused.
    pub fn sign(&mut self, identity: &Identity) -> (r: Result<(), CoreError>)
        ensures
            match r {
                Ok(_) => {
                    let sig = ed25519_signature(identity@, old(self)@.signing_payload());
                    &&& ed25519_public(identity@) == old(self).sender@
                    &&& final(self)@ == old(self)@.with_sig(Some(sig))
                    &&& sig.take(32) != neutral_point() ==> final(self)@.sender_signed()
                },
                Err(e) => {
                    &&& ed25519_public(identity@) != old(self).sender@
                    &&& *final(self) == *old(self)
                    &&& e is Crypto
                    &&& e.text() == "envelope signed by wrong sender key"@
                },
            },
    {
        let id = identity.node_id();
        if !same_bytes(&id, &self.sender) {
            proof {
                assert(id@ != self.sender@) by {
                    if id@ == self.sender@ {
                        assert(id =~= self.sender);
                    }
                }
            }
            return Err(CoreError::Crypto("envelope signed by wrong sender key".to_owned()));
        }
        let payload = self.signing_payload();
        let sig = identity.sign(payload.as_slice()).to_bytes();
        self.sig = Some(to_vec(sig.as_slice()));
        Ok(())
    }

    /// Whether the envelope carries a signature at all.
    pub fn is_sender_signed(&self) -> (r: bool)
        ensures
            r == (self@.sig is Some),
    {
        self.sig.is_some()
    }

    /// Checks the sender's signature: that there is one, that the sender is a key, that the
    /// signature has the right length, and the signature itself.
    pub fn verify_sender_sig(&self) -> (r: Result<(), CoreError>)
        ensures
            r is Ok <==> self@.sender_signed(),
            r matches Err(e) ==> e is Crypto,
            r matches Err(e) ==> self@.sig is None ==> e.text()
                == "envelope sender signature missing"@,
            r matches Err(e) ==> self@.sig matches Some(s) ==> ed25519_is_key(self.sender@)
                && s.len() != 64 ==> e.text() == "signature length must be 64"@,
    {
        match &self.sig {
            None => Err(CoreError::Crypto("envelope sender signature missing".to_owned())),
            Some(s) => {
                let payload = self.signing_payload();
                verify_bytes(&self.sender, payload.as_slice(), s.as_slice())
            },
        }
    }

    /// Refuses envelopes whose fields contradict each other: a recipient beside a group, and a
    /// broadcast without hops.
    pub fn check_shape(&self) -> (r: Result<(), CoreError>)
        ensures
            r is Ok <==> self@.one_way() && self@.can_spread(),
            r matches Err(e) ==> e is Cbor && e.text() == self@.shape_fault(),
    {
        if self.group.is_some() && self.recipient.is_some() {
            return Err(CoreError::Cbor("envelope cannot be both unicast and group".to_owned()));
        }
        if self.ttl_hops == 0 && self.group.is_some() {
            return Err(CoreError::Cbor("group envelope with zero ttl".to_owned()));
        }
        Ok(())
    }
}

/// The fields, nested from the back.
proof fn lemma_field_bytes_nested(e: EnvelopeData)
    ensures
        e.field_bytes() == e.msg_id@ + (e.sender@ + (optional_key(e.recipient) + (optional_key(e.group)
            + (seq![e.kind.number()] + (be_bytes(e.sent_at_ms as nat, 8) + (seq![e.ttl_hops]
            + e.body)))))),
{
    let (r, g) = (optional_key(e.recipient), optional_key(e.group));
    let (k, t, h) = (seq![e.kind.number()], be_bytes(e.sent_at_ms as nat, 8), seq![e.ttl_hops]);
    let p2 = e.msg_id@ + e.sender@;
    let p3 = p2 + r;
    let p4 = p3 + g;
    let p5 = p4 + k;
    let p6 = p5 + t;
    lemma_concat(p6, h, e.body);
    lemma_concat(p5, t, h + e.body);
    lemma_concat(p4, k, t + (h + e.body));
    lemma_concat(p3, g, k + (t + (h + e.body)));
    lemma_concat(p2, r, g + (k + (t + (h + e.body))));
    lemma_concat(e.msg_id@, e.sender@, r + (g + (k + (t + (h + e.body)))));
}

/// Two envelopes whose fields are written alike agree in every field but the signature.
pub proof fn law_fields_bind_everything(a: EnvelopeData, b: EnvelopeData)
    requires
        a.field_bytes() == b.field_bytes(),
    ensures
        a.with_sig(None) == b.with_sig(None),
{
    lemma_field_bytes_nested(a);
    lemma_field_bytes_nested(b);
    lemma_be_bytes_len(a.sent_at_ms as nat, 8);
    lemma_be_bytes_len(b.sent_at_ms as nat, 8);
    let (ra, rb) = (optional_key(a.recipient), optional_key(b.recipient));
    let (ga, gb) = (optional_key(a.group), optional_key(b.group));
    let (ka, kb) = (seq![a.kind.number()], seq![b.kind.number()]);
    let (ta, tb) = (be_bytes(a.sent_at_ms as nat, 8), be_bytes(b.sent_at_ms as nat, 8));
    let (ha, hb) = (seq![a.ttl_hops], seq![b.ttl_hops]);
    let (xa, xb) = (ka + (ta + (ha + a.body)), kb + (tb + (hb + b.body)));
    lemma_split(a.msg_id@, a.sender@ + (ra + (ga + xa)), b.msg_id@, b.sender@ + (rb + (gb + xb)));
    lemma_split(a.sender@, ra + (ga + xa), b.sender@, rb + (gb + xb));
    lemma_optional_key_split(a.recipient, ga + xa, b.recipient, gb + xb);
    lemma_optional_key_split(a.group, xa, b.group, xb);
    lemma_split(ka, ta + (ha + a.body), kb, tb + (hb + b.body));
    lemma_split(ta, ha + a.body, tb, hb + b.body);
    lemma_split(ha, a.body, hb, b.body);
    assert(ka[0] == kb[0]);
    assert(ha[0] == hb[0]);
    lemma_ranges();
    law_be_injective(a.sent_at_ms as nat, b.sent_at_ms as nat, 8);
    assert(a.msg_id =~= b.msg_id);
    assert(a.sender =~= b.sender);
}

/// The flag says how long an optional key is, so what follows can be told apart.
proof fn lemma_optional_key_split(a: Option<NodeId>, x: Seq<u8>, b: Option<NodeId>, y: Seq<u8>)
    requires
        optional_key(a) + x == optional_key(b) + y,
    ensures
        a == b,
        x == y,
{
    let (p, q) = (optional_key(a), optional_key(b));
    assert((p + x)[0] == p[0]);
    assert((q + y)[0] == q[0]);
    lemma_split(p, x, q, y);
    if let (Some(m), Some(n)) = (a, b) {
        assert(p.skip(1) =~= m@);
        assert(q.skip(1) =~= n@);
        assert(m =~= n);
    }
}

/// A signature covers every field: envelopes with one signing payload agree in all but the
/// signature.
pub proof fn law_signature_binds_everything(a: EnvelopeData, b: EnvelopeData)
    requires
        a.signing_payload() == b.signing_payload(),
    ensures
        a.with_sig(None) == b.with_sig(None),
{
    let tag = ascii("dc-envelope-sig-v1\n"@);
    lemma_split(tag, a.field_bytes(), tag, b.field_bytes());
    law_fields_bind_everything(a, b);
}

/// An envelope that was changed in any field has something else to be signed than before, and one
/// without a signature, or with one of the wrong length, is not signed at all.
pub proof fn law_changed_envelope_needs_its_own_signature(e: EnvelopeData, changed: EnvelopeData)
    ensures
        changed.with_sig(None) != e.with_sig(None) ==> changed.signing_payload()
            != e.signing_payload(),
        changed.sig is None ==> !changed.sender_signed(),
        changed.sig matches Some(s) ==> s.len() != 64 ==> !changed.sender_signed(),
{
    if changed.signing_payload() == e.signing_payload() {
        law_signature_binds_everything(changed, e);
    }
}

/// Largest frame that is accepted. A longer one is a broken or hostile stream.
pub const MAX_FRAME_SIZE: usize = 4_194_304;

/// A message behind its length in four bytes.
pub open spec fn framed(msg: Seq<u8>) -> Seq<u8> {
    be_bytes(msg.len(), 4) + msg
}

/// What stands at the front of a stream.
pub enum FrameRead {
    /// The frame has not arrived in full.
    Partial,
    /// A message, and the bytes that its frame takes up.
    Whole(Seq<u8>, nat),
    /// A frame that announces too many bytes.
    TooLarge(nat),
}

/// Reads the front of a stream.
pub open spec fn read_frame(buf: Seq<u8>) -> FrameRead {
    let len = be_value(buf.take(4));
    if buf.len() < 4 {
        FrameRead::Partial
    } else if len > MAX_FRAME_SIZE {
        FrameRead::TooLarge(len)
    } else if buf.len() < 4 + len {
        FrameRead::Partial
    } else {
        FrameRead::Whole(buf.subrange(4, 4 + len as int), 4 + len)
    }
}

/// Puts a message into a frame: its length in four bytes, then the message.
pub fn frame(msg: &[u8]) -> (r: Vec<u8>)
    requires
        msg@.len() <= u32::MAX,
    ensures
        r@ == framed(msg@),
{
    let mut out: Vec<u8> = Vec::new();
    push_be(&mut out, msg.len() as u64, 4);
    append(&mut out, msg);
    assert(out@ =~= framed(msg@));
    out
}

/// Takes a message from the front of a stream: the message and the bytes its frame takes up, or
/// nothing as long as the frame is incomplete.
pub fn unframe(buf: &[u8]) -> (r: Result<Option<(&[u8], usize)>, CoreError>)
    ensures
        match r {
            Ok(None) => read_frame(buf@) is Partial,
            Ok(Some((payload, used))) => read_frame(buf@) == FrameRead::Whole(
                payload@,
                used as nat,
            ),
            Err(e) => read_frame(buf@) matches FrameRead::TooLarge(len) && e is Cbor && e.text()
                == "frame size "@ + decimal(len) + " exceeds "@ + decimal(MAX_FRAME_SIZE as nat),
        },
{
    if buf.len() < 4 {
        return Ok(None);
    }
    let len: u32 = read_be32(buf);
    if len > MAX_FRAME_SIZE as u32 {
        let mut text = "frame size ".to_owned();
        append_decimal(&mut text, len as u64);
        text.append(" exceeds ");
        append_decimal(&mut text, MAX_FRAME_SIZE as u64);
        return Err(CoreError::Cbor(text));
    }
    let len: usize = len as usize;
    if buf.len() - 4 < len {
        return Ok(None);
    }
    Ok(Some((&buf[4..4 + len], 4 + len)))
}

/// A framed message is read back, whatever follows it on the stream.
pub proof fn law_frame_round_trip(msg: Seq<u8>, rest: Seq<u8>)
    requires
        msg.len() <= MAX_FRAME_SIZE,
    ensures
        read_frame(framed(msg) + rest) == FrameRead::Whole(msg, framed(msg).len()),
{
    lemma_be_bytes_len(msg.len(), 4);
    lemma_ranges();
    law_be_round_trip(msg.len(), 4);
    let buf = framed(msg) + rest;
    assert(buf.take(4) =~= be_bytes(msg.len(), 4));
    assert(buf.subrange(4, 4 + msg.len() as int) =~= msg);
}

/// Nothing is read from a frame that has arrived in part.
pub proof fn law_partial_frame_waits(msg: Seq<u8>, n: int)
    requires
        msg.len() <= MAX_FRAME_SIZE,
        0 <= n < framed(msg).len(),
    ensures
        read_frame(framed(msg).take(n)) is Partial,
{
    lemma_be_bytes_len(msg.len(), 4);
    lemma_ranges();
    law_be_round_trip(msg.len(), 4);
    if n >= 4 {
        assert(framed(msg).take(n).take(4) =~= be_bytes(msg.len(), 4));
    }
}

/// The messages seen last. When it is full, the one seen first makes room.
#[derive(Debug)]
pub struct Dedup {
    order: Vec<MsgId>,
    cap: usize,
}

impl Dedup {
    /// The remembered messages, oldest first.
    pub closed spec fn order(self) -> Seq<MsgId> {
        self.order@
    }

    /// How many messages are remembered.
    pub closed spec fn cap(self) -> nat {
        self.cap as nat
    }

    #[verifier::type_invariant]
    closed spec fn inv(self) -> bool {
        self.order@.no_duplicates() && self.order@.len() <= self.cap
    }

    /// A set that remembers `cap` messages, and one at least.
    pub fn new(cap: usize) -> (r: Dedup)
        ensures
            r.order() == Seq::<MsgId>::empty(),
            r.cap() == if cap == 0 {
                1
            } else {
                cap as nat
            },
    {
        let cap: usize = if cap == 0 {
            1
        } else {
            cap
        };
        Dedup { order: Vec::new(), cap }
    }

    fn position(&self, id: &MsgId) -> (r: Option<usize>)
        ensures
            match r {
                Some(i) => i < self.order@.len() && self.order@[i as int] == *id,
                None => !self.order@.contains(*id),
            },
    {
        let mut i: usize = 0;
        while i < self.order.len()
            invariant
                i <= self.order@.len(),
                forall|k: int| 0 <= k < i ==> self.order@[k] != *id,
            decreases self.order@.len() - i,
        {
            if same_bytes(&self.order[i], id) {
                return Some(i);
            }
            i = i + 1;
        }
        None
    }

    /// Whether a message is new; if it is, it is remembered.
    pub fn check_and_insert(&mut self, id: MsgId) -> (r: bool)
        ensures
            r == !old(self).order().contains(id),
            final(self).cap() == old(self).cap(),
            final(self).order() == if !r {
                old(self).order()
            } else if old(self).order().len() < old(self).cap() {
                old(self).order().push(id)
            } else {
                old(self).order().push(id).drop_first()
            },
            final(self).order().no_duplicates(),
            final(self).order().len() <= final(self).cap(),
    {
        proof {
            use_type_invariant(&*self);
        }
        if self.position(&id).is_some() {
            return false;
        }
        let mut order: Vec<MsgId> = Vec::new();
        std::mem::swap(&mut order, &mut self.order);
        order.push(id);
        if order.len() > self.cap {
            order.remove(0);
            assert(order@ =~= old(self).order().push(id).drop_first());
        }
        self.order = order;
        true
    }

    pub fn len(&self) -> (r: usize)
        ensures
            r == self.order().len(),
    {
        self.order.len()
    }

    pub fn is_empty(&self) -> (r: bool)
        ensures
            r == (self.order().len() == 0),
    {
        self.order.len() == 0
    }
}

impl Default for Dedup {
    /// A set that remembers nothing: every message counts as new.
    fn default() -> (r: Dedup)
        ensures
            r.order() == Seq::<MsgId>::empty(),
            r.cap() == 0,
    {
        Dedup { order: Vec::new(), cap: 0 }
    }
}

/// The kinds have the numbers one to four, each its own.
pub proof fn law_kinds_are_told_apart(a: PayloadKind, b: PayloadKind)
    ensures
        a.number() == b.number() ==> a == b,
        1 <= a.number() <= 4,
        PayloadKind::Text.number() == 1,
        PayloadKind::SessionMgmt.number() == 2,
        PayloadKind::GroupMgmt.number() == 3,
{
}

/// What an envelope may look like: it has not both a recipient and a group, and one for a group has hops
/// left.
pub proof fn law_shape_of_an_envelope(e: EnvelopeData)
    ensures
        e.one_way() <==> e.group is None || e.recipient is None,
        e.can_spread() <==> e.group is None || e.ttl_hops > 0,
        e.group is Some && e.recipient is Some ==> e.shape_fault()
            == "envelope cannot be both unicast and group"@,
        e.group is Some && e.recipient is None ==> e.shape_fault() == "group envelope with zero ttl"@,
{
}

/// An envelope counts as its sender's if and only if there is a signature and the sender made it over all of
/// the fields.
pub proof fn law_sender_signs_the_fields(e: EnvelopeData, sig: Seq<u8>)
    ensures
        e.with_sig(Some(sig)).sender_signed() <==> signed_by(
            e.sender@,
            ascii("dc-envelope-sig-v1\n"@) + e.field_bytes(),
            sig,
        ),
        !e.with_sig(None).sender_signed(),
{
    assert(e.with_sig(Some(sig)).signing_payload() == e.signing_payload());
}

/// What is read off a stream is a whole frame of it, up to 4 MiB; a longer one is refused as soon as its
/// length is there, and fewer than four bytes decide nothing.
pub proof fn law_frames_are_bounded(buf: Seq<u8>)
    ensures
        buf.len() < 4 ==> read_frame(buf) is Partial,
        buf.len() >= 4 && be_value(buf.take(4)) > 4_194_304 ==> read_frame(buf) == FrameRead::TooLarge(
            be_value(buf.take(4)),
        ),
        buf.len() >= 4 && be_value(buf.take(4)) <= 4_194_304 && buf.len() - 4 >= be_value(
            buf.take(4),
        ) ==> read_frame(buf) is Whole,
        read_frame(buf) matches FrameRead::Whole(msg, n) ==> {
            &&& n == 4 + msg.len() <= buf.len()
            &&& msg.len() == be_value(buf.take(4))
            &&& forall|i: int| 0 <= i < msg.len() ==> #[trigger] msg[i] == buf[4 + i]
        },
        read_frame(buf) is Partial && buf.len() >= 4 ==> buf.len() - 4 < be_value(buf.take(4)) <= 4_194_304,
{
}

/// Where the fields of an envelope stand: the id and the sender first, then the recipient and the group, each
/// a zero or a one and the key, then the kind, the time, the hops left and the body.
#[verifier::rlimit(40)]
pub proof fn law_envelope_fields_in_their_places(e: EnvelopeData)
    ensures
        ({
            let f = e.field_bytes();
            let r: int = if e.recipient is Some {
                33
            } else {
                1
            };
            let g: int = if e.group is Some {
                33
            } else {
                1
            };
            let n = 48 + r + g;
            &&& f.len() == n + 10 + e.body.len()
            &&& f.take(16) == e.msg_id@
            &&& f.subrange(16, 48) == e.sender@
            &&& f[48] == if e.recipient is Some { 1u8 } else { 0u8 }
            &&& e.recipient matches Some(id) ==> f.subrange(49, 81) == id@
            &&& f[48 + r] == if e.group is Some { 1u8 } else { 0u8 }
            &&& e.group matches Some(id) ==> f.subrange(49 + r, 81 + r) == id@
            &&& f[n] == e.kind.number()
            &&& f.subrange(n + 1, n + 9) == be_bytes(e.sent_at_ms as nat, 8)
            &&& f[n + 9] == e.ttl_hops
            &&& f.skip(n + 10) == e.body
            &&& e.signing_payload().take(19) == ascii("dc-envelope-sig-v1\n"@)
            &&& e.signing_payload().skip(19) == f
        }),
{
    broadcast use lemma_be_bytes_len;

    reveal_strlit("dc-envelope-sig-v1\n");
    let f = e.field_bytes();
    let r: int = optional_key(e.recipient).len() as int;
    let g: int = optional_key(e.group).len() as int;
    let n = 48 + r + g;
    assert(f.take(16) =~= e.msg_id@);
    assert(f.subrange(16, 48) =~= e.sender@);
    assert(f.subrange(48, 48 + r) =~= optional_key(e.recipient));
    assert(f.subrange(48 + r, n) =~= optional_key(e.group));
    assert(f[48] == optional_key(e.recipient)[0]);
    assert(f[48 + r] == optional_key(e.group)[0]);
    if let Some(id) = e.recipient {
        assert(f.subrange(49, 81) =~= id@);
    }
    if let Some(id) = e.group {
        assert(f.subrange(49 + r, 81 + r) =~= id@);
    }
    assert(f.subrange(n + 1, n + 9) =~= be_bytes(e.sent_at_ms as nat, 8));
    assert(f.skip(n + 10) =~= e.body);
    assert(e.signing_payload().take(19) =~= ascii("dc-envelope-sig-v1\n"@));
    assert(e.signing_payload().skip(19) =~= f);
}

} // verus!

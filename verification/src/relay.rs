//! Relay tickets: what a stranger shows before a node passes on its message.
//!
//! A relay cannot look into a message, so it has to keep tickets from being shown twice. A
//! ticket names the challenge that the relay gave for this handshake, lives for two hours at
//! most, and is remembered by its fingerprint.
use vstd::prelude::*;
use crate::arith::same_bytes;
use crate::bytes::{
    append, be_bytes, law_be_injective, lemma_be_bytes_len, lemma_ranges, lemma_split, push_be,
    to_array, to_vec,
};
use crate::crypto::{ed25519_is_key, ed25519_public, ed25519_signature, neutral_point};
use crate::envelope::Envelope;
use crate::lists::{lemma_filter_keeps, lemma_push_contains};
use crate::identity::{
    contents, fingerprint1024, fingerprint_of, signed_by, verify_bytes, Identity, NodeId,
};
use crate::text::{ascii, ascii_bytes};
use crate::CoreError;

verus! {

/// Longest life of a ticket.
pub const MAX_TICKET_TTL_MS: u64 = 7_200_000;

/// Tolerance for clocks that disagree.
pub const TICKET_SKEW_MS: u64 = 120_000;

/// Most tickets of one origin that are remembered.
pub const MAX_SLOTS_PER_ORIGIN: usize = 4;

/// A request to pass on one message, signed by the node key of its origin.
#[derive(Debug)]
pub struct RelayTicket {
    /// The receiver's node key of the day; strangers never see a long-term identity.
    pub dest_node_key: NodeId,
    pub origin_node_key: NodeId,
    pub expiry_ms: u64,
    pub issued_at_ms: u64,
    pub nonce: [u8; 16],
    /// The hash of the challenge that the relay gave for this handshake.
    pub challenge_hash: [u8; 32],
    pub sig: Vec<u8>,
}

/// What a ticket says.
pub struct TicketData {
    pub dest_node_key: NodeId,
    pub origin_node_key: NodeId,
    pub expiry_ms: u64,
    pub issued_at_ms: u64,
    pub nonce: [u8; 16],
    pub challenge_hash: [u8; 32],
    pub sig: Seq<u8>,
}

impl View for RelayTicket {
    type V = TicketData;

    open spec fn view(&self) -> TicketData {
        TicketData {
            dest_node_key: self.dest_node_key,
            origin_node_key: self.origin_node_key,
            expiry_ms: self.expiry_ms,
            issued_at_ms: self.issued_at_ms,
            nonce: self.nonce,
            challenge_hash: self.challenge_hash,
            sig: self.sig@,
        }
    }
}

impl Clone for RelayTicket {
    fn clone(&self) -> (r: RelayTicket)
        ensures
            r@ == self@,
    {
        RelayTicket {
            dest_node_key: self.dest_node_key,
            origin_node_key: self.origin_node_key,
            expiry_ms: self.expiry_ms,
            issued_at_ms: self.issued_at_ms,
            nonce: self.nonce,
            challenge_hash: self.challenge_hash,
            sig: to_vec(self.sig.as_slice()),
        }
    }
}

impl TicketData {
    /// What the origin signs.
    pub open spec fn signing_payload(self) -> Seq<u8> {
        ascii("dc-relay-ticket-v1\n"@) + self.dest_node_key@ + self.origin_node_key@ + be_bytes(
            self.issued_at_ms as nat,
            8,
        ) + be_bytes(self.expiry_ms as nat, 8) + self.nonce@ + self.challenge_hash@
    }

    /// The origin signed the ticket.
    pub open spec fn signed(self) -> bool {
        signed_by(self.origin_node_key@, self.signing_payload(), self.sig)
    }

    /// The nonce is no row of zeros.
    pub open spec fn has_nonce(self) -> bool {
        exists|i: int| 0 <= i < 16 && self.nonce@[i] != 0
    }

    /// The ticket does not live too long.
    pub open spec fn short_lived(self) -> bool {
        self.expiry_ms - self.issued_at_ms <= MAX_TICKET_TTL_MS
    }

    /// The ticket has been issued by `now_ms`, give or take the skew.
    pub open spec fn issued(self, now_ms: u64) -> bool {
        self.issued_at_ms <= now_ms + TICKET_SKEW_MS
    }

    /// The ticket has not expired at `now_ms`, give or take the skew.
    pub open spec fn unexpired(self, now_ms: u64) -> bool {
        now_ms <= self.expiry_ms + TICKET_SKEW_MS
    }

    /// The ticket is good at `now_ms` for the handshake with the given challenge.
    pub open spec fn good(self, now_ms: u64, challenge: [u8; 32]) -> bool {
        &&& self.signed()
        &&& self.has_nonce()
        &&& self.challenge_hash == challenge
        &&& self.short_lived()
        &&& self.issued(now_ms)
        &&& self.unexpired(now_ms)
    }

    /// The ticket with another signature.
    pub open spec fn with_sig(self, sig: Seq<u8>) -> TicketData {
        TicketData { sig, ..self }
    }

    /// The bytes that the relay knows the ticket by. The signature has no part in them.
    pub open spec fn fingerprint(self) -> Seq<u8> {
        fingerprint_of(seq![ascii("relay-ticket"@), self.signing_payload()]).take(32)
    }

    /// The fingerprint as an array.
    pub open spec fn id(self) -> [u8; 32] {
        choose|a: [u8; 32]| #[trigger] a@ == self.fingerprint()
    }
}

/// Whether any byte is not zero.
fn any_nonzero(nonce: &[u8; 16]) -> (r: bool)
    ensures
        r == exists|i: int| 0 <= i < 16 && nonce@[i] != 0,
{
    let mut i: usize = 0;
    while i < 16
        invariant
            i <= 16,
            forall|k: int| 0 <= k < i ==> nonce@[k] == 0,
        decreases 16 - i,
    {
        if nonce[i] != 0 {
            assert(nonce@[i as int] != 0);
            return true;
        }
        i = i + 1;
    }
    false
}

impl RelayTicket {
    /// An unsigned ticket.
    pub fn new(
        dest_node_key: &NodeId,
        origin_node_key: &NodeId,
        issued_at_ms: u64,
        expiry_ms: u64,
        nonce: [u8; 16],
        challenge_hash: [u8; 32],
    ) -> (r: RelayTicket)
        ensures
            r@ == (TicketData {
                dest_node_key: *dest_node_key,
                origin_node_key: *origin_node_key,
                expiry_ms,
                issued_at_ms,
                nonce,
                challenge_hash,
                sig: Seq::empty(),
            }),
    {
        RelayTicket {
            dest_node_key: *dest_node_key,
            origin_node_key: *origin_node_key,
            expiry_ms,
            issued_at_ms,
            nonce,
            challenge_hash,
            sig: Vec::new(),
        }
    }

    /// What the origin signs: every field but the signature.
    pub fn signing_payload(&self) -> (r: Vec<u8>)
        ensures
            r@ == self@.signing_payload(),
    {
        let mut v = ascii_bytes("dc-relay-ticket-v1\n");
        append(&mut v, self.dest_node_key.as_slice());
        append(&mut v, self.origin_node_key.as_slice());
        push_be(&mut v, self.issued_at_ms, 8);
        push_be(&mut v, self.expiry_ms, 8);
        append(&mut v, self.nonce.as_slice());
        append(&mut v, self.challenge_hash.as_slice());
        v
    }

    /// Signs the ticket. Only the origin itself can: another key is refused.
    pub fn sign(&mut self, origin_node_identity: &Identity) -> (r: Result<(), CoreError>)
        ensures
            match r {
                Ok(_) => {
                    let sig = ed25519_signature(origin_node_identity@, old(self)@.signing_payload());
                    &&& ed25519_public(origin_node_identity@) == old(self).origin_node_key@
                    &&& final(self)@ == old(self)@.with_sig(sig)
                    &&& sig.take(32) != neutral_point() ==> final(self)@.signed()
                },
                Err(e) => {
                    &&& ed25519_public(origin_node_identity@) != old(self).origin_node_key@
                    &&& *final(self) == *old(self)
                    &&& e is Crypto
                    &&& e.text() == "ticket signed by wrong node key"@
                },
            },
    {
        let id = origin_node_identity.node_id();
        if !same_bytes(&id, &self.origin_node_key) {
            proof {
                if id@ == self.origin_node_key@ {
                    assert(id =~= self.origin_node_key);
                }
            }
            return Err(CoreError::Crypto("ticket signed by wrong node key".to_owned()));
        }
        let payload = self.signing_payload();
        let sig = origin_node_identity.sign(payload.as_slice()).to_bytes();
        self.sig = to_vec(sig.as_slice());
        Ok(())
    }

    /// Checks a ticket: the signature, the nonce, the challenge of this handshake, how long it
    /// lives, and that now lies in that time.
    pub fn verify(&self, now_ms: u64, expected_challenge: [u8; 32]) -> (r: Result<(), CoreError>)
        ensures
            r is Ok <==> self@.good(now_ms, expected_challenge),
            r matches Err(e) ==> e is Crypto,
            r matches Err(e) ==> self@.signed() ==> e.text() == if !self@.has_nonce() {
                "nonce must be random"@
            } else if self.challenge_hash != expected_challenge {
                "challenge mismatch (stale ticket)"@
            } else if !self@.short_lived() {
                "ticket ttl exceeds cap"@
            } else if !self@.issued(now_ms) {
                "ticket issued in the future"@
            } else {
                "ticket expired"@
            },
            r matches Err(e) ==> ed25519_is_key(self.origin_node_key@) && self.sig@.len() != 64
                ==> e.text() == "signature length must be 64"@,
    {
        let payload = self.signing_payload();
        verify_bytes(&self.origin_node_key, payload.as_slice(), self.sig.as_slice())?;
        if !any_nonzero(&self.nonce) {
            return Err(CoreError::Crypto("nonce must be random".to_owned()));
        }
        if !same_bytes(&self.challenge_hash, &expected_challenge) {
            return Err(CoreError::Crypto("challenge mismatch (stale ticket)".to_owned()));
        }
        if self.expiry_ms.saturating_sub(self.issued_at_ms) > MAX_TICKET_TTL_MS {
            return Err(CoreError::Crypto("ticket ttl exceeds cap".to_owned()));
        }
        if self.issued_at_ms > now_ms.saturating_add(TICKET_SKEW_MS) {
            return Err(CoreError::Crypto("ticket issued in the future".to_owned()));
        }
        if self.expiry_ms.saturating_add(TICKET_SKEW_MS) < now_ms {
            return Err(CoreError::Crypto("ticket expired".to_owned()));
        }
        Ok(())
    }

    /// What the relay knows the ticket by.
    pub fn fingerprint(&self) -> (r: [u8; 32])
        ensures
            r@ == self@.fingerprint(),
            r == self@.id(),
    {
        let tag: Vec<u8> = ascii_bytes("relay-ticket");
        let payload = self.signing_payload();
        let parts: [&[u8]; 2] = [tag.as_slice(), payload.as_slice()];
        assert(contents(parts@) =~= seq![ascii("relay-ticket"@), self@.signing_payload()]);
        let fp = fingerprint1024(parts.as_slice());
        let r = to_array::<32>(fp.as_slice());
        assert(r@ == self@.fingerprint());
        assert(r =~= self@.id());
        r
    }
}

/// The signature covers every field.
pub proof fn law_ticket_binds_everything(a: TicketData, b: TicketData)
    requires
        a.signing_payload() == b.signing_payload(),
    ensures
        a.with_sig(Seq::empty()) == b.with_sig(Seq::empty()),
{
    broadcast use lemma_be_bytes_len;

    let tag = ascii("dc-relay-ticket-v1\n"@);
    let (ia, ib) = (be_bytes(a.issued_at_ms as nat, 8), be_bytes(b.issued_at_ms as nat, 8));
    let (ea, eb) = (be_bytes(a.expiry_ms as nat, 8), be_bytes(b.expiry_ms as nat, 8));
    let (da, db) = (tag + a.dest_node_key@, tag + b.dest_node_key@);
    let (oa, ob) = (da + a.origin_node_key@, db + b.origin_node_key@);
    lemma_split(oa + ia + ea + a.nonce@, a.challenge_hash@, ob + ib + eb + b.nonce@, b.challenge_hash@);
    lemma_split(oa + ia + ea, a.nonce@, ob + ib + eb, b.nonce@);
    lemma_split(oa + ia, ea, ob + ib, eb);
    lemma_split(oa, ia, ob, ib);
    lemma_split(da, a.origin_node_key@, db, b.origin_node_key@);
    lemma_split(tag, a.dest_node_key@, tag, b.dest_node_key@);
    lemma_ranges();
    law_be_injective(a.issued_at_ms as nat, b.issued_at_ms as nat, 8);
    law_be_injective(a.expiry_ms as nat, b.expiry_ms as nat, 8);
    assert(a.dest_node_key =~= b.dest_node_key);
    assert(a.origin_node_key =~= b.origin_node_key);
    assert(a.nonce =~= b.nonce);
    assert(a.challenge_hash =~= b.challenge_hash);
}

/// A good ticket has lived for two hours at most, give or take the skew on either side.
pub proof fn law_good_ticket_is_recent(t: TicketData, now_ms: u64, challenge: [u8; 32])
    requires
        t.good(now_ms, challenge),
    ensures
        now_ms - t.issued_at_ms <= MAX_TICKET_TTL_MS + TICKET_SKEW_MS,
        t.issued_at_ms - now_ms <= TICKET_SKEW_MS,
{
}

/// A remembered ticket.
#[derive(Clone, Copy)]
pub struct SeenTicket {
    pub fingerprint: [u8; 32],
    pub expiry_ms: u64,
    pub origin: NodeId,
    pub challenge: [u8; 32],
}

/// A ticket with this fingerprint is remembered.
pub open spec fn remembered(seen: Seq<SeenTicket>, fingerprint: [u8; 32]) -> bool {
    exists|i: int| 0 <= i < seen.len() && (#[trigger] seen[i]).fingerprint == fingerprint
}

/// The ticket can still come back: it has not expired, and the handshake goes on.
pub open spec fn still_needed(e: SeenTicket, now_ms: u64, challenge: [u8; 32]) -> bool {
    e.expiry_ms + TICKET_SKEW_MS > now_ms && e.challenge == challenge
}

/// The tickets that can still come back.
pub open spec fn needed(seen: Seq<SeenTicket>, now_ms: u64, challenge: [u8; 32]) -> Seq<SeenTicket> {
    seen.filter(|e: SeenTicket| still_needed(e, now_ms, challenge))
}

/// How many tickets of an origin are remembered.
pub open spec fn slots_of(seen: Seq<SeenTicket>, origin: NodeId) -> nat
    decreases seen.len(),
{
    if seen.len() == 0 {
        0
    } else {
        slots_of(seen.drop_last(), origin) + if seen.last().origin == origin {
            1nat
        } else {
            0nat
        }
    }
}

/// `i` is the first of the origin's tickets that expire first.
pub open spec fn first_to_go(seen: Seq<SeenTicket>, origin: NodeId, i: int) -> bool {
    &&& 0 <= i < seen.len()
    &&& seen[i].origin == origin
    &&& forall|j: int|
        0 <= j < seen.len() && (#[trigger] seen[j]).origin == origin ==> seen[i].expiry_ms
            < seen[j].expiry_ms || (seen[i].expiry_ms == seen[j].expiry_ms && i <= j)
}

/// Room for one more ticket of an origin: if it has used up its slots, its ticket that expires
/// first makes way.
pub open spec fn with_room(seen: Seq<SeenTicket>, origin: NodeId) -> Seq<SeenTicket> {
    if slots_of(seen, origin) >= MAX_SLOTS_PER_ORIGIN {
        seen.remove(choose|i: int| #[trigger] first_to_go(seen, origin, i))
    } else {
        seen
    }
}


/// A good ticket gets in: it is not remembered, and there is room.
pub open spec fn guard_accepts(
    seen: Seq<SeenTicket>,
    most: nat,
    ticket: TicketData,
    now_ms: u64,
    challenge: [u8; 32],
) -> bool {
    &&& ticket.good(now_ms, challenge)
    &&& !remembered(seen, ticket.id())
    &&& with_room(needed(seen, now_ms, challenge), ticket.origin_node_key).len() < most
}

/// What is remembered after a ticket was shown.
pub open spec fn guard_after(
    seen: Seq<SeenTicket>,
    most: nat,
    ticket: TicketData,
    now_ms: u64,
    challenge: [u8; 32],
) -> Seq<SeenTicket> {
    let rest = with_room(needed(seen, now_ms, challenge), ticket.origin_node_key);
    if !ticket.good(now_ms, challenge) || remembered(seen, ticket.id()) {
        seen
    } else if rest.len() >= most {
        rest
    } else {
        rest.push(
            SeenTicket {
                fingerprint: ticket.id(),
                expiry_ms: ticket.expiry_ms,
                origin: ticket.origin_node_key,
                challenge,
            },
        )
    }
}

/// One more ticket counts for its origin alone.
proof fn lemma_slots_push(seen: Seq<SeenTicket>, e: SeenTicket, origin: NodeId)
    ensures
        slots_of(seen.push(e), origin) == slots_of(seen, origin) + if e.origin == origin {
            1nat
        } else {
            0nat
        },
{
    assert(seen.push(e).drop_last() =~= seen);
}

/// One ticket less counts for its origin alone.
proof fn lemma_slots_remove(seen: Seq<SeenTicket>, i: int, origin: NodeId)
    requires
        0 <= i < seen.len(),
    ensures
        slots_of(seen, origin) == slots_of(seen.remove(i), origin) + if seen[i].origin == origin {
            1nat
        } else {
            0nat
        },
    decreases seen.len(),
{
    if i == seen.len() - 1 {
        assert(seen.remove(i) =~= seen.drop_last());
    } else {
        lemma_slots_remove(seen.drop_last(), i, origin);
        assert(seen.remove(i).drop_last() =~= seen.drop_last().remove(i));
        assert(seen.remove(i).last() == seen.last());
    }
}

/// Filtering adds no ticket of any origin.
proof fn lemma_slots_filter(seen: Seq<SeenTicket>, keep: spec_fn(SeenTicket) -> bool, origin: NodeId)
    ensures
        slots_of(seen.filter(keep), origin) <= slots_of(seen, origin),
    decreases seen.len(),
{
    reveal(Seq::filter);
    if seen.len() > 0 {
        lemma_slots_filter(seen.drop_last(), keep, origin);
        if keep(seen.last()) {
            lemma_slots_push(seen.drop_last().filter(keep), seen.last(), origin);
        }
    }
}

/// Where a ticket of an origin stands, the origin has a slot.
proof fn lemma_slots_positive(seen: Seq<SeenTicket>, i: int)
    requires
        0 <= i < seen.len(),
    ensures
        slots_of(seen, seen[i].origin) > 0,
{
    lemma_slots_remove(seen, i, seen[i].origin);
}

/// An origin with a slot has a ticket.
proof fn lemma_slots_witness(seen: Seq<SeenTicket>, origin: NodeId)
    requires
        slots_of(seen, origin) > 0,
    ensures
        exists|i: int| 0 <= i < seen.len() && (#[trigger] seen[i]).origin == origin,
    decreases seen.len(),
{
    if seen.last().origin == origin {
        assert(seen[seen.len() - 1].origin == origin);
    } else {
        lemma_slots_witness(seen.drop_last(), origin);
        let i = choose|i: int|
            0 <= i < seen.drop_last().len() && (#[trigger] seen.drop_last()[i]).origin == origin;
        assert(seen[i].origin == origin);
    }
}

/// The relay's memory of tickets. A ticket is forgotten when it has expired or the handshake is
/// over, or to make way for another one of its own origin; a full memory refuses.
pub struct RelayGuard {
    seen: Vec<SeenTicket>,
    max_entries: usize,
}

impl RelayGuard {
    /// The remembered tickets.
    pub closed spec fn seen(self) -> Seq<SeenTicket> {
        self.seen@
    }

    /// How many tickets are remembered at most.
    pub closed spec fn most(self) -> nat {
        self.max_entries as nat
    }

    #[verifier::type_invariant]
    closed spec fn inv(self) -> bool {
        &&& self.max_entries >= 1
        &&& self.seen@.len() <= self.max_entries
        &&& forall|origin: NodeId| #[trigger]
            slots_of(self.seen@, origin) <= MAX_SLOTS_PER_ORIGIN
    }

    /// A memory of `max_entries` tickets, and of one at least.
    pub fn new(max_entries: usize) -> (r: RelayGuard)
        ensures
            r.seen() == Seq::<SeenTicket>::empty(),
            r.most() == if max_entries == 0 {
                1
            } else {
                max_entries as nat
            },
    {
        let max_entries: usize = if max_entries == 0 {
            1
        } else {
            max_entries
        };
        RelayGuard { seen: Vec::new(), max_entries }
    }

    /// How many tickets of an origin a list holds.
    fn origin_count(seen: &Vec<SeenTicket>, origin: &NodeId) -> (r: usize)
        ensures
            r == slots_of(seen@, *origin),
    {
        let mut n: usize = 0;
        let mut i: usize = 0;
        while i < seen.len()
            invariant
                i <= seen@.len(),
                n <= i,
                n == slots_of(seen@.take(i as int), *origin),
            decreases seen@.len() - i,
        {
            assert(seen@.take(i + 1).drop_last() =~= seen@.take(i as int));
            if same_bytes(&seen[i].origin, origin) {
                n = n + 1;
            }
            i = i + 1;
        }
        assert(seen@.take(i as int) =~= seen@);
        n
    }

    /// The place of the origin's ticket that expires first.
    fn soonest(seen: &Vec<SeenTicket>, origin: &NodeId) -> (r: usize)
        requires
            slots_of(seen@, *origin) > 0,
        ensures
            first_to_go(seen@, *origin, r as int),
    {
        let mut best: Option<usize> = None;
        let mut i: usize = 0;
        while i < seen.len()
            invariant
                i <= seen@.len(),
                match best {
                    Some(b) => b < i && first_to_go(seen@.take(i as int), *origin, b as int),
                    None => forall|k: int| 0 <= k < i ==> (#[trigger] seen@[k]).origin != *origin,
                },
            decreases seen@.len() - i,
        {
            let ghost before = seen@.take(i as int);
            let ghost after = seen@.take(i + 1);
            assert(after =~= before.push(seen@[i as int]));
            let e: SeenTicket = seen[i];
            if same_bytes(&e.origin, origin) {
                let better: bool = match best {
                    Some(b) => e.expiry_ms < seen[b].expiry_ms,
                    None => true,
                };
                if better {
                    best = Some(i);
                }
            }
            proof {
                if let Some(b) = best {
                    assert forall|j: int| 0 <= j < after.len() && (#[trigger] after[j]).origin
                        == *origin implies after[b as int].expiry_ms < after[j].expiry_ms || (
                    after[b as int].expiry_ms == after[j].expiry_ms && b <= j) by {
                        if j < i {
                            assert(before[j] == after[j]);
                        }
                    }
                }
            }
            i = i + 1;
        }
        assert(seen@.take(i as int) =~= seen@);
        match best {
            Some(b) => b,
            None => {
                proof {
                    lemma_slots_witness(seen@, *origin);
                    assert(false);
                }
                0
            },
        }
    }

    /// Whether to pass on the message behind a ticket. A ticket that is not good, that was shown
    /// before or for which there is no room is refused.
    pub fn accept(&mut self, ticket: &RelayTicket, now_ms: u64, expected_challenge: [u8; 32]) -> (r:
        bool)
        ensures
            final(self).most() == old(self).most(),
            final(self).seen().len() <= final(self).most(),
            forall|origin: NodeId| #[trigger]
                slots_of(final(self).seen(), origin) <= MAX_SLOTS_PER_ORIGIN,
            r == guard_accepts(
                old(self).seen(),
                old(self).most(),
                ticket@,
                now_ms,
                expected_challenge,
            ),
            final(self).seen() == guard_after(
                old(self).seen(),
                old(self).most(),
                ticket@,
                now_ms,
                expected_challenge,
            ),
            r ==> remembered(final(self).seen(), ticket@.id()),
    {
        proof {
            use_type_invariant(&*self);
        }
        let fp = ticket.fingerprint();
        if ticket.verify(now_ms, expected_challenge).is_err() {
            return false;
        }
        let mut kept: Vec<SeenTicket> = Vec::new();
        let mut i: usize = 0;
        let ghost keep = |e: SeenTicket| still_needed(e, now_ms, expected_challenge);
        while i < self.seen.len()
            invariant
                i <= self.seen@.len(),
                *self == *old(self),
                keep == (|e: SeenTicket| still_needed(e, now_ms, expected_challenge)),
                forall|k: int| 0 <= k < i ==> (#[trigger] self.seen@[k]).fingerprint != fp,
                kept@ == self.seen@.take(i as int).filter(keep),
                fp == ticket@.id(),
                forall|origin: NodeId| #[trigger]
                    slots_of(self.seen@, origin) <= MAX_SLOTS_PER_ORIGIN,
                self.seen@.len() <= self.max_entries,
            decreases self.seen@.len() - i,
        {
            let e: SeenTicket = self.seen[i];
            if same_bytes(&e.fingerprint, &fp) {
                assert(remembered(self.seen@, fp));
                return false;
            }
            proof {
                reveal(Seq::filter);
                assert(self.seen@.take(i + 1).drop_last() =~= self.seen@.take(i as int));
            }
            let fresh: bool = now_ms < TICKET_SKEW_MS || e.expiry_ms > now_ms - TICKET_SKEW_MS;
            if fresh && same_bytes(&e.challenge, &expected_challenge) {
                kept.push(e);
            }
            i = i + 1;
        }
        proof {
            assert(self.seen@.take(i as int) =~= self.seen@);
            assert forall|origin: NodeId| #[trigger] slots_of(kept@, origin)
                <= MAX_SLOTS_PER_ORIGIN by {
                lemma_slots_filter(self.seen@, keep, origin);
            }
        }
        let ghost rest = needed(self.seen@, now_ms, expected_challenge);
        if Self::origin_count(&kept, &ticket.origin_node_key) >= MAX_SLOTS_PER_ORIGIN {
            let k: usize = Self::soonest(&kept, &ticket.origin_node_key);
            proof {
                let c = choose|c: int| #[trigger] first_to_go(rest, ticket.origin_node_key, c);
                assert(first_to_go(rest, ticket.origin_node_key, k as int));
                assert(c == k);
                assert forall|origin: NodeId| #[trigger] slots_of(rest.remove(k as int), origin)
                    <= MAX_SLOTS_PER_ORIGIN && (origin == ticket.origin_node_key ==> slots_of(
                    rest.remove(k as int),
                    origin,
                ) < MAX_SLOTS_PER_ORIGIN) by {
                    lemma_slots_remove(rest, k as int, origin);
                    assert(slots_of(rest, origin) <= MAX_SLOTS_PER_ORIGIN);
                }
            }
            let _gone = kept.remove(k);
        }
        assert(kept@ == with_room(rest, ticket.origin_node_key));
        proof {
            broadcast use vstd::seq_lib::group_filter_ensures;

            assert(rest.len() <= self.seen@.len());
        }
        let room: bool = kept.len() < self.max_entries;
        if room {
            let e = SeenTicket {
                fingerprint: fp,
                expiry_ms: ticket.expiry_ms,
                origin: ticket.origin_node_key,
                challenge: expected_challenge,
            };
            proof {
                assert forall|origin: NodeId| #[trigger] slots_of(kept@.push(e), origin)
                    <= MAX_SLOTS_PER_ORIGIN by {
                    lemma_slots_push(kept@, e, origin);
                    assert(slots_of(kept@, origin) <= MAX_SLOTS_PER_ORIGIN);
                }
            }
            kept.push(e);
            assert(kept@[kept@.len() - 1].fingerprint == fp);
        }
        self.seen = kept;
        room
    }
}

/// A ticket that was let in is refused when it is shown again at once, and after anything that
/// left it in memory.
pub proof fn law_remembered_ticket_is_refused(
    seen: Seq<SeenTicket>,
    most: nat,
    ticket: TicketData,
    now_ms: u64,
    challenge: [u8; 32],
)
    requires
        remembered(seen, ticket.id()),
    ensures
        !guard_accepts(seen, most, ticket, now_ms, challenge),
        guard_after(seen, most, ticket, now_ms, challenge) == seen,
{
}

/// Among an origin's tickets one goes first.
proof fn lemma_first_to_go_exists(seen: Seq<SeenTicket>, origin: NodeId)
    requires
        slots_of(seen, origin) > 0,
    ensures
        exists|i: int| #[trigger] first_to_go(seen, origin, i),
    decreases seen.len(),
{
    let front = seen.drop_last();
    let last = seen.len() - 1;
    if slots_of(front, origin) > 0 {
        lemma_first_to_go_exists(front, origin);
        let f = choose|f: int| #[trigger] first_to_go(front, origin, f);
        assert(first_to_go(front, origin, f));
        let w = if seen[last].origin == origin && seen[last].expiry_ms < seen[f].expiry_ms {
            last
        } else {
            f
        };
        assert forall|j: int| 0 <= j < seen.len() && (#[trigger] seen[j]).origin == origin implies seen[w].expiry_ms
            < seen[j].expiry_ms || (seen[w].expiry_ms == seen[j].expiry_ms && w <= j) by {
            if j < last {
                assert(front[j] == seen[j]);
            }
            assert(front[f] == seen[f]);
        }
        assert(front[f] == seen[f]);
        assert(first_to_go(seen, origin, w));
    } else {
        assert forall|j: int| 0 <= j < seen.len() && (#[trigger] seen[j]).origin == origin implies j
            == last by {
            if j < last {
                assert(front[j] == seen[j]);
                lemma_slots_positive(front, j);
            }
        }
        assert(first_to_go(seen, origin, last));
    }
}


/// What is remembered after a number of tickets, each with the time at which it was shown.
pub open spec fn guard_after_all(
    seen: Seq<SeenTicket>,
    most: nat,
    shown: Seq<(TicketData, u64)>,
    challenge: [u8; 32],
) -> Seq<SeenTicket>
    decreases shown.len(),
{
    if shown.len() == 0 {
        seen
    } else {
        guard_after(
            guard_after_all(seen, most, shown.drop_last(), challenge),
            most,
            shown.last().0,
            shown.last().1,
            challenge,
        )
    }
}

/// A remembered ticket survives tickets of other origins in the same handshake.
proof fn lemma_flood_leaves_ticket(
    seen: Seq<SeenTicket>,
    most: nat,
    e: SeenTicket,
    shown: Seq<(TicketData, u64)>,
)
    requires
        seen.contains(e),
        forall|i: int|
            0 <= i < shown.len() ==> (#[trigger] shown[i]).0.origin_node_key != e.origin
                && e.expiry_ms + TICKET_SKEW_MS > shown[i].1,
    ensures
        guard_after_all(seen, most, shown, e.challenge).contains(e),
    decreases shown.len(),
{
    if shown.len() > 0 {
        let front = shown.drop_last();
        assert forall|i: int| 0 <= i < front.len() implies (#[trigger] front[i]).0.origin_node_key
            != e.origin && e.expiry_ms + TICKET_SKEW_MS > front[i].1 by {
            assert(shown[i] == front[i]);
        }
        lemma_flood_leaves_ticket(seen, most, e, front);
        let before = guard_after_all(seen, most, front, e.challenge);
        let (ticket, now_ms) = shown[shown.len() - 1];
        let i = choose|i: int| 0 <= i < before.len() && before[i] == e;
        lemma_entry_stays(before, most, ticket, now_ms, e.challenge, i);
    }
}

/// An entry that can still come back stays when a ticket of another origin is shown.
proof fn lemma_entry_stays(
    seen: Seq<SeenTicket>,
    most: nat,
    ticket: TicketData,
    now_ms: u64,
    challenge: [u8; 32],
    i: int,
)
    requires
        0 <= i < seen.len(),
        still_needed(seen[i], now_ms, challenge),
        seen[i].origin != ticket.origin_node_key,
    ensures
        guard_after(seen, most, ticket, now_ms, challenge).contains(seen[i]),
{
    let after = guard_after(seen, most, ticket, now_ms, challenge);
    if !ticket.good(now_ms, challenge) || remembered(seen, ticket.id()) {
        assert(after[i] == seen[i]);
    } else {
        broadcast use vstd::seq_lib::group_filter_ensures;

        let rest = needed(seen, now_ms, challenge);
        assert(rest.contains(seen[i]));
        let k = choose|k: int| 0 <= k < rest.len() && rest[k] == seen[i];
        let room = with_room(rest, ticket.origin_node_key);
        if slots_of(rest, ticket.origin_node_key) >= MAX_SLOTS_PER_ORIGIN {
            lemma_first_to_go_exists(rest, ticket.origin_node_key);
            let c = choose|c: int| #[trigger] first_to_go(rest, ticket.origin_node_key, c);
            assert(first_to_go(rest, ticket.origin_node_key, c));
            assert(c != k);
            let m = if k < c { k } else { k - 1 };
            assert(room[m] == seen[i]);
            assert(after[m] == seen[i]);
        } else {
            assert(after[k] == seen[i]);
        }
    }
}

/// However many tickets other origins show in the same handshake, a remembered ticket that has
/// not expired is refused when it comes back.
pub proof fn law_flood_revives_no_ticket(
    seen: Seq<SeenTicket>,
    most: nat,
    ticket: TicketData,
    i: int,
    shown: Seq<(TicketData, u64)>,
    now_ms: u64,
)
    requires
        0 <= i < seen.len(),
        seen[i].fingerprint == ticket.id(),
        forall|k: int|
            0 <= k < shown.len() ==> (#[trigger] shown[k]).0.origin_node_key != seen[i].origin
                && seen[i].expiry_ms + TICKET_SKEW_MS > shown[k].1,
    ensures
        !guard_accepts(
            guard_after_all(seen, most, shown, seen[i].challenge),
            most,
            ticket,
            now_ms,
            seen[i].challenge,
        ),
{
    lemma_flood_leaves_ticket(seen, most, seen[i], shown);
    let after = guard_after_all(seen, most, shown, seen[i].challenge);
    let k = choose|k: int| 0 <= k < after.len() && after[k] == seen[i];
    assert(after[k].fingerprint == ticket.id());
}

/// What lets an envelope past a stranger: the sender's signature. Without it nothing is passed on.
pub fn verify_forward_credential(envelope: &Envelope) -> (r: Result<(), CoreError>)
    ensures
        r is Ok <==> envelope@.sender_signed(),
        r matches Err(e) ==> e is Crypto,
        r matches Err(e) ==> envelope@.sig is None ==> e.text()
            == "envelope sender signature missing"@,
{
    envelope.verify_sender_sig()
}

/// When a ticket is good: its origin signed it, the nonce is not all zeros, it is for this handshake, lives
/// for two hours at most, and was issued and has not expired by now, give or take two minutes.
pub proof fn law_good_ticket_in_numbers(t: TicketData, now_ms: u64, challenge: [u8; 32])
    ensures
        t.good(now_ms, challenge) <==> {
            &&& signed_by(t.origin_node_key@, t.signing_payload(), t.sig)
            &&& !(forall|i: int| 0 <= i < 16 ==> #[trigger] t.nonce@[i] == 0)
            &&& t.challenge_hash == challenge
            &&& t.expiry_ms <= t.issued_at_ms + 7_200_000
            &&& t.issued_at_ms <= now_ms + 120_000
            &&& now_ms <= t.expiry_ms + 120_000
        },
{
    assert(t.has_nonce() <==> !(forall|i: int| 0 <= i < 16 ==> #[trigger] t.nonce@[i] == 0));
}

/// A relay knows a ticket by a fingerprint over all that was signed; another signature makes no other
/// ticket.
pub proof fn law_signature_makes_no_other_ticket(t: TicketData, sig: Seq<u8>)
    ensures
        t.with_sig(sig).id() == t.id(),
        t.fingerprint() == fingerprint_of(seq![ascii("relay-ticket"@), t.signing_payload()]).take(32),
{
    assert(t.with_sig(sig).signing_payload() == t.signing_payload());
}

/// The slots of an origin are its remembered tickets.
pub proof fn law_slots_are_the_tickets_of_an_origin(seen: Seq<SeenTicket>, origin: NodeId)
    ensures
        slots_of(seen, origin) == seen.filter(|e: SeenTicket| e.origin == origin).len(),
    decreases seen.len(),
{
    reveal(Seq::filter);
    if seen.len() > 0 {
        law_slots_are_the_tickets_of_an_origin(seen.drop_last(), origin);
    }
}

/// Room for one more ticket: an origin with fewer than four keeps them all, and of four or more the one that
/// expires first goes. Nothing of another origin goes.
pub proof fn law_earliest_of_an_origin_makes_way(seen: Seq<SeenTicket>, origin: NodeId)
    ensures
        slots_of(seen, origin) < 4 ==> with_room(seen, origin) == seen,
        slots_of(seen, origin) >= 4 ==> exists|i: int|
            {
                &&& 0 <= i < seen.len()
                &&& (#[trigger] seen[i]).origin == origin
                &&& with_room(seen, origin) == seen.remove(i)
                &&& forall|j: int|
                    0 <= j < seen.len() && (#[trigger] seen[j]).origin == origin ==> seen[i].expiry_ms
                        <= seen[j].expiry_ms
            },
{
    if slots_of(seen, origin) >= 4 {
        lemma_first_to_go_exists(seen, origin);
        let i = choose|i: int| #[trigger] first_to_go(seen, origin, i);
        assert(first_to_go(seen, origin, i));
        assert(seen[i].origin == origin && with_room(seen, origin) == seen.remove(i));
    }
}

/// A good ticket that is not remembered gets in, where fewer tickets than the most are remembered.
pub proof fn law_new_ticket_gets_in(
    seen: Seq<SeenTicket>,
    most: nat,
    ticket: TicketData,
    now_ms: u64,
    challenge: [u8; 32],
)
    requires
        ticket.good(now_ms, challenge),
        forall|e: SeenTicket| #[trigger] seen.contains(e) ==> e.fingerprint != ticket.id(),
        seen.len() < most,
    ensures
        guard_accepts(seen, most, ticket, now_ms, challenge),
{
    let keep = |e: SeenTicket| still_needed(e, now_ms, challenge);
    seen.lemma_filter_len(keep);
    let rest = needed(seen, now_ms, challenge);
    law_earliest_of_an_origin_makes_way(rest, ticket.origin_node_key);
    if remembered(seen, ticket.id()) {
        let i = choose|i: int| 0 <= i < seen.len() && (#[trigger] seen[i]).fingerprint == ticket.id();
        assert(seen.contains(seen[i]));
    }
}

/// What a relay remembers after a ticket got in: that ticket, and of those before it only ones of this
/// handshake that have not been over for two minutes; all of them where the origin had fewer than four.
#[verifier::rlimit(40)]
pub proof fn law_relay_remembers(
    seen: Seq<SeenTicket>,
    most: nat,
    ticket: TicketData,
    now_ms: u64,
    challenge: [u8; 32],
    e: SeenTicket,
)
    requires
        guard_accepts(seen, most, ticket, now_ms, challenge),
    ensures
        ({
            let after = guard_after(seen, most, ticket, now_ms, challenge);
            let new = SeenTicket {
                fingerprint: ticket.id(),
                expiry_ms: ticket.expiry_ms,
                origin: ticket.origin_node_key,
                challenge,
            };
            let kept = seen.contains(e) && e.expiry_ms + 120_000 > now_ms && e.challenge == challenge;
            &&& after.contains(new)
            &&& after.contains(e) ==> e == new || kept
            &&& kept && e.origin != ticket.origin_node_key ==> after.contains(e)
            &&& kept && slots_of(seen, ticket.origin_node_key) < 4 ==> after.contains(e)
        }),
{
    let keep = |x: SeenTicket| still_needed(x, now_ms, challenge);
    let origin = ticket.origin_node_key;
    let rest = needed(seen, now_ms, challenge);
    let room = with_room(rest, origin);
    let new = SeenTicket {
        fingerprint: ticket.id(),
        expiry_ms: ticket.expiry_ms,
        origin,
        challenge,
    };
    lemma_filter_keeps(seen, keep, e);
    lemma_slots_filter(seen, keep, origin);
    law_earliest_of_an_origin_makes_way(rest, origin);
    lemma_push_contains(room, new, e);
    lemma_push_contains(room, new, new);
    if slots_of(rest, origin) >= 4 {
        let k = choose|i: int|
            {
                &&& 0 <= i < rest.len()
                &&& (#[trigger] rest[i]).origin == origin
                &&& with_room(rest, origin) == rest.remove(i)
                &&& forall|j: int|
                    0 <= j < rest.len() && (#[trigger] rest[j]).origin == origin ==> rest[i].expiry_ms
                        <= rest[j].expiry_ms
            };
        if room.contains(e) {
            let i = choose|i: int| 0 <= i < room.len() && room[i] == e;
            let m = if i < k { i } else { i + 1 };
            assert(rest[m] == e);
        }
        if rest.contains(e) && e.origin != origin {
            let m = choose|m: int| 0 <= m < rest.len() && rest[m] == e;
            let i = if m < k { m } else { m - 1 };
            assert(room[i] == e);
        }
    }
}

/// Where the fields of a ticket stand in what is signed, behind a tag of nineteen bytes.
#[verifier::rlimit(40)]
pub proof fn law_ticket_fields_in_their_places(t: TicketData)
    ensures
        ({
            let p = t.signing_payload();
            &&& p.len() == 147
            &&& p.take(19) == ascii("dc-relay-ticket-v1\n"@)
            &&& p.subrange(19, 51) == t.dest_node_key@
            &&& p.subrange(51, 83) == t.origin_node_key@
            &&& p.subrange(83, 91) == be_bytes(t.issued_at_ms as nat, 8)
            &&& p.subrange(91, 99) == be_bytes(t.expiry_ms as nat, 8)
            &&& p.subrange(99, 115) == t.nonce@
            &&& p.subrange(115, 147) == t.challenge_hash@
        }),
{
    broadcast use lemma_be_bytes_len;

    reveal_strlit("dc-relay-ticket-v1\n");
    let p = t.signing_payload();
    assert(p.take(19) =~= ascii("dc-relay-ticket-v1\n"@));
    assert(p.subrange(19, 51) =~= t.dest_node_key@);
    assert(p.subrange(51, 83) =~= t.origin_node_key@);
    assert(p.subrange(83, 91) =~= be_bytes(t.issued_at_ms as nat, 8));
    assert(p.subrange(91, 99) =~= be_bytes(t.expiry_ms as nat, 8));
    assert(p.subrange(99, 115) =~= t.nonce@);
    assert(p.subrange(115, 147) =~= t.challenge_hash@);
}

} // verus!

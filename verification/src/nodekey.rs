//! Rotation of node keys: a long-term identity announces the key under which its node can be
//! dialled, and contacts keep a ring of such announcements.
use vstd::prelude::*;
use crate::arith::{same_bytes, sat_u64};
use crate::bytes::{
    append, be_bytes, law_be_injective, lemma_be_bytes_len, lemma_ranges, lemma_split, push_be,
    to_vec,
};
use crate::crypto::{ed25519_is_key, ed25519_public, ed25519_signature, neutral_point};
use crate::lists::{lemma_filter_keeps, lemma_filter_push, lemma_push_contains};
use crate::identity::{signed_by, verify_bytes, Identity, NodeId};
use crate::text::{ascii, ascii_bytes};
use crate::CoreError;

verus! {

/// How long a key stays in force beside its successor.
pub const DEFAULT_OVERLAP_MS: u64 = 604_800_000;

/// Longest time that an announcement may be in force.
pub const MAX_VALIDITY_MS: u64 = 2_592_000_000;

/// Most announcements that are kept for one identity.
pub const MAX_ANNOUNCEMENTS_PER_IDENTITY: usize = 32;

/// "This is my node key", signed by the long-term identity.
#[derive(Debug, PartialEq)]
pub struct NodeKeyAnnouncement {
    pub identity: NodeId,
    pub node_key: NodeId,
    /// Grows with every announcement.
    pub serial: u64,
    pub not_before_ms: u64,
    pub not_after_ms: u64,
    pub sig: Vec<u8>,
}

/// What an announcement says.
pub struct AnnouncementData {
    pub identity: NodeId,
    pub node_key: NodeId,
    pub serial: u64,
    pub not_before_ms: u64,
    pub not_after_ms: u64,
    pub sig: Seq<u8>,
}

impl View for NodeKeyAnnouncement {
    type V = AnnouncementData;

    open spec fn view(&self) -> AnnouncementData {
        AnnouncementData {
            identity: self.identity,
            node_key: self.node_key,
            serial: self.serial,
            not_before_ms: self.not_before_ms,
            not_after_ms: self.not_after_ms,
            sig: self.sig@,
        }
    }
}

impl Clone for NodeKeyAnnouncement {
    fn clone(&self) -> (r: NodeKeyAnnouncement)
        ensures
            r@ == self@,
    {
        NodeKeyAnnouncement {
            identity: self.identity,
            node_key: self.node_key,
            serial: self.serial,
            not_before_ms: self.not_before_ms,
            not_after_ms: self.not_after_ms,
            sig: to_vec(self.sig.as_slice()),
        }
    }
}

impl AnnouncementData {
    /// What the identity signs.
    pub open spec fn signing_payload(self) -> Seq<u8> {
        ascii("dc-node-key-announcement-v1\n"@) + self.identity@ + self.node_key@ + be_bytes(
            self.serial as nat,
            8,
        ) + be_bytes(self.not_before_ms as nat, 8) + be_bytes(self.not_after_ms as nat, 8)
    }

    /// The identity signed the announcement.
    pub open spec fn signed(self) -> bool {
        signed_by(self.identity@, self.signing_payload(), self.sig)
    }

    /// The announcement is signed, its time in force is neither empty nor too long, and it has
    /// a serial.
    pub open spec fn genuine(self) -> bool {
        &&& self.signed()
        &&& self.not_before_ms < self.not_after_ms
        &&& self.not_after_ms - self.not_before_ms <= MAX_VALIDITY_MS
        &&& self.serial > 0
    }

    /// The announced key may be dialled at `now_ms`.
    pub open spec fn in_force(self, now_ms: u64) -> bool {
        self.not_before_ms <= now_ms < self.not_after_ms
    }

    /// A ring takes the announcement at `now_ms`.
    pub open spec fn acceptable(self, now_ms: u64) -> bool {
        self.genuine() && self.not_after_ms > now_ms
    }

    /// The announcement with another signature.
    pub open spec fn with_sig(self, sig: Seq<u8>) -> AnnouncementData {
        AnnouncementData { sig, ..self }
    }

    /// An unsigned announcement.
    pub open spec fn draft(
        identity: NodeId,
        node_key: NodeId,
        serial: u64,
        now_ms: u64,
        overlap_ms: u64,
    ) -> AnnouncementData {
        AnnouncementData {
            identity,
            node_key,
            serial,
            not_before_ms: now_ms,
            not_after_ms: sat_u64(now_ms + overlap_ms),
            sig: Seq::empty(),
        }
    }
}

impl NodeKeyAnnouncement {
    /// An unsigned announcement that is in force from now on.
    pub fn new(identity: &NodeId, node_key: &NodeId, serial: u64, now_ms: u64, overlap_ms: u64) -> (r:
        NodeKeyAnnouncement)
        ensures
            r@ == AnnouncementData::draft(*identity, *node_key, serial, now_ms, overlap_ms),
    {
        NodeKeyAnnouncement {
            identity: *identity,
            node_key: *node_key,
            serial,
            not_before_ms: now_ms,
            not_after_ms: now_ms.saturating_add(overlap_ms),
            sig: Vec::new(),
        }
    }

    /// What the identity signs: every field but the signature.
    pub fn signing_payload(&self) -> (r: Vec<u8>)
        ensures
            r@ == self@.signing_payload(),
    {
        let mut v = ascii_bytes("dc-node-key-announcement-v1\n");
        append(&mut v, self.identity.as_slice());
        append(&mut v, self.node_key.as_slice());
        push_be(&mut v, self.serial, 8);
        push_be(&mut v, self.not_before_ms, 8);
        push_be(&mut v, self.not_after_ms, 8);
        v
    }

    /// Signs the announcement. Only the identity itself can: another one is refused.
    pub fn sign(&mut self, identity: &Identity) -> (r: Result<(), CoreError>)
        ensures
            match r {
                Ok(_) => {
                    let sig = ed25519_signature(identity@, old(self)@.signing_payload());
                    &&& ed25519_public(identity@) == old(self).identity@
                    &&& final(self)@ == old(self)@.with_sig(sig)
                    &&& sig.take(32) != neutral_point() ==> final(self)@.signed()
                },
                Err(e) => {
                    &&& ed25519_public(identity@) != old(self).identity@
                    &&& *final(self) == *old(self)
                    &&& e is Crypto
                    &&& e.text() == "announcement signed by wrong identity"@
                },
            },
    {
        let id = identity.node_id();
        if !same_bytes(&id, &self.identity) {
            proof {
                if id@ == self.identity@ {
                    assert(id =~= self.identity);
                }
            }
            return Err(CoreError::Crypto("announcement signed by wrong identity".to_owned()));
        }
        let payload = self.signing_payload();
        let sig = identity.sign(payload.as_slice()).to_bytes();
        self.sig = to_vec(sig.as_slice());
        Ok(())
    }

    /// Checks the signature, the time in force and the serial.
    pub fn verify(&self) -> (r: Result<(), CoreError>)
        ensures
            r is Ok <==> self@.genuine(),
            r matches Err(e) ==> e is Crypto,
            r matches Err(e) ==> self@.signed() ==> e.text() == if self.not_after_ms
                <= self.not_before_ms {
                "invalid validity window"@
            } else if self.not_after_ms - self.not_before_ms > MAX_VALIDITY_MS {
                "validity window exceeds cap"@
            } else {
                "serial must be positive"@
            },
            r matches Err(e) ==> ed25519_is_key(self.identity@) && self.sig@.len() != 64 ==> e.text()
                == "signature length must be 64"@,
    {
        let payload = self.signing_payload();
        verify_bytes(&self.identity, payload.as_slice(), self.sig.as_slice())?;
        if self.not_after_ms <= self.not_before_ms {
            return Err(CoreError::Crypto("invalid validity window".to_owned()));
        }
        if self.not_after_ms - self.not_before_ms > MAX_VALIDITY_MS {
            return Err(CoreError::Crypto("validity window exceeds cap".to_owned()));
        }
        if self.serial == 0 {
            return Err(CoreError::Crypto("serial must be positive".to_owned()));
        }
        Ok(())
    }
}

/// The signature covers every field.
pub proof fn law_announcement_binds_everything(a: AnnouncementData, b: AnnouncementData)
    requires
        a.signing_payload() == b.signing_payload(),
    ensures
        a.with_sig(Seq::empty()) == b.with_sig(Seq::empty()),
{
    broadcast use lemma_be_bytes_len;

    let tag = ascii("dc-node-key-announcement-v1\n"@);
    let (sa, sb) = (be_bytes(a.serial as nat, 8), be_bytes(b.serial as nat, 8));
    let (fa, fb) = (be_bytes(a.not_before_ms as nat, 8), be_bytes(b.not_before_ms as nat, 8));
    let (ta, tb) = (be_bytes(a.not_after_ms as nat, 8), be_bytes(b.not_after_ms as nat, 8));
    lemma_split(
        tag + a.identity@ + a.node_key@ + sa + fa,
        ta,
        tag + b.identity@ + b.node_key@ + sb + fb,
        tb,
    );
    lemma_split(
        tag + a.identity@ + a.node_key@ + sa,
        fa,
        tag + b.identity@ + b.node_key@ + sb,
        fb,
    );
    lemma_split(tag + a.identity@ + a.node_key@, sa, tag + b.identity@ + b.node_key@, sb);
    lemma_split(tag + a.identity@, a.node_key@, tag + b.identity@, b.node_key@);
    lemma_split(tag, a.identity@, tag, b.identity@);
    lemma_ranges();
    law_be_injective(a.serial as nat, b.serial as nat, 8);
    law_be_injective(a.not_before_ms as nat, b.not_before_ms as nat, 8);
    law_be_injective(a.not_after_ms as nat, b.not_after_ms as nat, 8);
    assert(a.identity =~= b.identity);
    assert(a.node_key =~= b.node_key);
}

/// The announcements of one identity, oldest first.
pub struct RingSlot {
    identity: NodeId,
    announcements: Vec<NodeKeyAnnouncement>,
}

/// What announcements say.
pub open spec fn said(v: Seq<NodeKeyAnnouncement>) -> Seq<AnnouncementData> {
    v.map_values(|a: NodeKeyAnnouncement| a@)
}

/// Announcements of one identity as a ring keeps them: signed by it, with growing serials, and
/// not too many.
pub open spec fn slot_valid(s: Seq<AnnouncementData>, identity: NodeId) -> bool {
    &&& s.len() <= MAX_ANNOUNCEMENTS_PER_IDENTITY
    &&& forall|i: int|
        0 <= i < s.len() ==> (#[trigger] s[i]).identity == identity && s[i].genuine()
    &&& forall|i: int, j: int|
        #![trigger s[i], s[j]]
        0 <= i < j < s.len() ==> s[i].serial < s[j].serial
}

/// A newer announcement than `serial` is known.
pub open spec fn outdated(s: Seq<AnnouncementData>, serial: u64) -> bool {
    exists|i: int| 0 <= i < s.len() && (#[trigger] s[i]).serial > serial
}

/// The announcements that stay beside a new one: those of other serials whose time is not over.
pub open spec fn staying(s: Seq<AnnouncementData>, serial: u64, now_ms: u64) -> Seq<AnnouncementData> {
    s.filter(|e: AnnouncementData| e.serial != serial && e.not_after_ms > now_ms)
}

/// The announcements of an identity after another one arrived. One older than a known one
/// changes nothing; when there are too many, the oldest goes.
pub open spec fn slot_after(s: Seq<AnnouncementData>, ann: AnnouncementData, now_ms: u64) -> Seq<
    AnnouncementData,
> {
    let longer = staying(s, ann.serial, now_ms).push(ann);
    if outdated(s, ann.serial) {
        s
    } else if longer.len() > MAX_ANNOUNCEMENTS_PER_IDENTITY {
        longer.drop_first()
    } else {
        longer
    }
}

/// The announcements that a contact knows, by identity.
pub struct NodeKeyRing {
    slots: Vec<RingSlot>,
}

impl NodeKeyRing {
    spec fn slot_at(self, identity: NodeId, i: int) -> bool {
        0 <= i < self.slots@.len() && self.slots@[i].identity == identity
    }

    /// The announcements of an identity, oldest first.
    pub closed spec fn slot(self, identity: NodeId) -> Seq<AnnouncementData> {
        if exists|i: int| #[trigger] self.slot_at(identity, i) {
            said(self.slots@[choose|i: int| #[trigger] self.slot_at(identity, i)].announcements@)
        } else {
            Seq::empty()
        }
    }

    /// The invariant of the ring.
    pub closed spec fn wf(self) -> bool {
        &&& forall|i: int|
            0 <= i < self.slots@.len() ==> slot_valid(
                said((#[trigger] self.slots@[i]).announcements@),
                self.slots@[i].identity,
            )
        &&& forall|i: int, j: int|
            #![trigger self.slots@[i], self.slots@[j]]
            0 <= i < j < self.slots@.len() ==> self.slots@[i].identity != self.slots@[j].identity
    }
}


/// The announcements of one identity among others.
pub open spec fn of_identity(s: Seq<AnnouncementData>, identity: NodeId) -> Seq<AnnouncementData> {
    s.filter(|a: AnnouncementData| a.identity == identity)
}

/// Filtering announcements keeps their order and their properties.
proof fn lemma_filter_slot(
    s: Seq<AnnouncementData>,
    identity: NodeId,
    keep: spec_fn(AnnouncementData) -> bool,
)
    requires
        slot_valid(s, identity),
    ensures
        slot_valid(s.filter(keep), identity),
        forall|i: int|
            0 <= i < s.filter(keep).len() ==> s.contains(#[trigger] s.filter(keep)[i]),
    decreases s.len(),
{
    reveal(Seq::filter);
    if s.len() > 0 {
        let front = s.drop_last();
        assert(slot_valid(front, identity)) by {
            assert forall|i: int, j: int| #![trigger front[i], front[j]]
                0 <= i < j < front.len() implies front[i].serial < front[j].serial by {
                assert(s[i].serial < s[j].serial);
            }
        }
        lemma_filter_slot(front, identity, keep);
        let f = front.filter(keep);
        let g = s.filter(keep);
        assert forall|i: int| 0 <= i < g.len() implies s.contains(#[trigger] g[i])
            && g[i].identity == identity && g[i].genuine() by {
            if i < f.len() {
                assert(g[i] == f[i]);
                let k = choose|k: int| 0 <= k < front.len() && front[k] == f[i];
                assert(s[k] == g[i]);
            } else {
                assert(s[s.len() - 1] == g[i]);
            }
        }
        assert forall|i: int, j: int| #![trigger g[i], g[j]]
            0 <= i < j < g.len() implies g[i].serial < g[j].serial by {
            assert(g[i] == f[i]);
            if j < f.len() {
                assert(g[j] == f[j]);
            } else {
                let k = choose|k: int| 0 <= k < front.len() && front[k] == f[i];
                assert(s[k].serial < s[s.len() - 1].serial);
            }
        }
        assert(g.len() <= s.len()) by {
            broadcast use vstd::seq_lib::group_filter_ensures;

        }
    }
}

/// What an identity announced stays in order when another announcement arrives.
proof fn lemma_slot_after_valid(s: Seq<AnnouncementData>, ann: AnnouncementData, now_ms: u64)
    requires
        slot_valid(s, ann.identity),
        ann.genuine(),
    ensures
        slot_valid(slot_after(s, ann, now_ms), ann.identity),
{
    if !outdated(s, ann.serial) {
        let keep = |e: AnnouncementData| e.serial != ann.serial && e.not_after_ms > now_ms;
        lemma_filter_slot(s, ann.identity, keep);
        let kept = staying(s, ann.serial, now_ms);
        let longer = kept.push(ann);
        assert forall|i: int| 0 <= i < kept.len() implies (#[trigger] kept[i]).serial < ann.serial by {
            broadcast use vstd::seq_lib::group_filter_ensures;

            assert(keep(kept[i]));
            let k = choose|k: int| 0 <= k < s.len() && s[k] == kept[i];
            assert(s[k].serial <= ann.serial);
        }
        if longer.len() > MAX_ANNOUNCEMENTS_PER_IDENTITY {
            let shorter = longer.drop_first();
            assert forall|i: int| 0 <= i < shorter.len() implies (#[trigger] shorter[i]).identity
                == ann.identity && shorter[i].genuine() by {
                assert(shorter[i] == longer[i + 1]);
            }
            assert forall|i: int, j: int| #![trigger shorter[i], shorter[j]]
                0 <= i < j < shorter.len() implies shorter[i].serial < shorter[j].serial by {
                assert(shorter[i] == longer[i + 1] && shorter[j] == longer[j + 1]);
            }
        }
    }
}

impl NodeKeyRing {
    /// In a valid ring an identity's place is unique.
    proof fn lemma_slot_is(self, identity: NodeId, i: int)
        requires
            self.wf(),
            self.slot_at(identity, i),
        ensures
            self.slot(identity) == said(self.slots@[i].announcements@),
    {
        let k = choose|k: int| #[trigger] self.slot_at(identity, k);
        assert(self.slot_at(identity, k));
        assert(self.slots@[k].identity == self.slots@[i].identity);
    }

    /// Every slot of a ring is valid, and the ring speaks of each identity apart.
    pub proof fn lemma_slot_valid(self, identity: NodeId)
        requires
            self.wf(),
        ensures
            slot_valid(self.slot(identity), identity),
    {
        if exists|i: int| #[trigger] self.slot_at(identity, i) {
            let i = choose|i: int| #[trigger] self.slot_at(identity, i);
            assert(self.slot_at(identity, i));
            assert(slot_valid(said(self.slots@[i].announcements@), self.slots@[i].identity));
        }
    }

    pub fn new() -> (r: NodeKeyRing)
        ensures
            r.wf(),
            forall|id: NodeId| r.slot(id) == Seq::<AnnouncementData>::empty(),
    {
        NodeKeyRing { slots: Vec::new() }
    }

    fn find(&self, identity: &NodeId) -> (r: Option<usize>)
        ensures
            match r {
                Some(i) => self.slot_at(*identity, i as int),
                None => forall|i: int| !#[trigger] self.slot_at(*identity, i),
            },
    {
        let mut i: usize = 0;
        while i < self.slots.len()
            invariant
                i <= self.slots@.len(),
                forall|k: int| 0 <= k < i ==> !#[trigger] self.slot_at(*identity, k),
            decreases self.slots@.len() - i,
        {
            if same_bytes(&self.slots[i].identity, identity) {
                return Some(i);
            }
            assert(!self.slot_at(*identity, i as int));
            i = i + 1;
        }
        None
    }

    /// Takes an announcement into the ring once it has been checked. One that is older than a
    /// known one changes nothing.
    pub fn upsert(&mut self, ann: &NodeKeyAnnouncement, now_ms: u64) -> (r: Result<(), CoreError>)
        requires
            old(self).wf(),
        ensures
            final(self).wf(),
            r is Ok <==> ann@.acceptable(now_ms),
            r matches Err(e) ==> e is Crypto,
            r matches Err(e) ==> ann@.genuine() ==> e.text() == "announcement already expired"@,
            forall|id: NodeId| #[trigger]
                final(self).slot(id) == if r is Ok && id == ann.identity {
                    slot_after(old(self).slot(id), ann@, now_ms)
                } else {
                    old(self).slot(id)
                },
    {
        ann.verify()?;
        if ann.not_after_ms <= now_ms {
            return Err(CoreError::Crypto("announcement already expired".to_owned()));
        }
        let ghost identity = ann.identity;
        let ghost before = self.slot(identity);
        let place: Option<usize> = self.find(&ann.identity);
        let mut kept: Vec<NodeKeyAnnouncement> = Vec::new();
        proof {
            self.lemma_slot_valid(identity);
        }
        if let Some(p) = place {
            proof {
                self.lemma_slot_is(identity, p as int);
            }
            let slot: &Vec<NodeKeyAnnouncement> = &self.slots[p].announcements;
            let mut i: usize = 0;
            let ghost keep = |e: AnnouncementData| e.serial != ann.serial && e.not_after_ms > now_ms;
            assert(said(kept@) =~= said(slot@).take(0).filter(keep)) by {
                reveal(Seq::filter);
            }
            while i < slot.len()
                invariant
                    i <= slot@.len(),
                    before == said(slot@),
                    keep == (|e: AnnouncementData|
                        e.serial != ann.serial && e.not_after_ms > now_ms),
                    *self == *old(self),
                    old(self).wf(),
                    before == old(self).slot(ann.identity),
                    ann@.acceptable(now_ms),
                    forall|k: int| 0 <= k < i ==> before[k].serial <= ann.serial,
                    said(kept@) == said(slot@).take(i as int).filter(keep),
                decreases slot@.len() - i,
            {
                let e: &NodeKeyAnnouncement = &slot[i];
                assert(before[i as int] == e@);
                if e.serial > ann.serial {
                    assert(outdated(before, ann.serial));
                    return Ok(());
                }
                proof {
                    reveal(Seq::filter);
                    assert(said(slot@).take(i + 1).drop_last() =~= said(slot@).take(i as int));
                }
                if e.serial != ann.serial && e.not_after_ms > now_ms {
                    let copy = e.clone();
                    let ghost earlier = kept@;
                    kept.push(copy);
                    assert(said(kept@) =~= said(earlier).push(e@));
                }
                i = i + 1;
            }
            assert(said(slot@).take(i as int) =~= said(slot@));
        } else {
            assert(said(kept@) =~= staying(before, ann.serial, now_ms)) by {
                reveal(Seq::filter);
            }
        }
        assert(said(kept@) == staying(before, ann.serial, now_ms));
        assert(!outdated(before, ann.serial));
        let copy = ann.clone();
        let ghost earlier = kept@;
        kept.push(copy);
        assert(said(kept@) =~= said(earlier).push(ann@));
        if kept.len() > MAX_ANNOUNCEMENTS_PER_IDENTITY {
            let ghost longer = kept@;
            kept.remove(0);
            assert(said(kept@) =~= said(longer).drop_first());
        }
        proof {
            lemma_slot_after_valid(before, ann@, now_ms);
        }
        let slot = RingSlot { identity: ann.identity, announcements: kept };
        match place {
            Some(p) => {
                self.slots.set(p, slot);
            },
            None => {
                self.slots.push(slot);
            },
        }
        proof {
            let was = *old(self);
            let now = *self;
            let p = match place {
                Some(p) => p as int,
                None => was.slots@.len() as int,
            };
            assert forall|i: int, j: int| #![trigger now.slots@[i], now.slots@[j]]
                0 <= i < j < now.slots@.len() implies now.slots@[i].identity
                != now.slots@[j].identity by {
                if i != p && j != p {
                    assert(was.slots@[i].identity != was.slots@[j].identity);
                } else {
                    let other = if i == p { j } else { i };
                    if place is Some {
                        assert(was.slots@[i].identity != was.slots@[j].identity);
                    } else {
                        assert(!was.slot_at(identity, other));
                    }
                }
            }
            assert forall|id: NodeId| #[trigger] now.slot(id) == if id == identity {
                slot_after(was.slot(id), ann@, now_ms)
            } else {
                was.slot(id)
            } by {
                assert(now.slot_at(identity, p));
                now.lemma_slot_is(identity, p);
                if id != identity {
                    if exists|i: int| #[trigger] was.slot_at(id, i) {
                        let i = choose|i: int| #[trigger] was.slot_at(id, i);
                        assert(was.slot_at(id, i));
                        assert(now.slot_at(id, i));
                        was.lemma_slot_is(id, i);
                        now.lemma_slot_is(id, i);
                    } else if exists|i: int| #[trigger] now.slot_at(id, i) {
                        let i = choose|i: int| #[trigger] now.slot_at(id, i);
                        assert(now.slot_at(id, i));
                        assert(was.slot_at(id, i));
                    }
                }
            }
        }
        Ok(())
    }

    /// The key to dial: that of the highest serial in force.
    pub fn current(&self, identity: &NodeId, now_ms: u64) -> (r: Option<&NodeId>)
        requires
            self.wf(),
        ensures
            match r {
                Some(k) => current_key_of(self.slot(*identity), now_ms) == Some(*k),
                None => current_key_of(self.slot(*identity), now_ms) is None,
            },
    {
        match self.find(identity) {
            None => None,
            Some(p) => {
                proof {
                    self.lemma_slot_is(*identity, p as int);
                    self.lemma_slot_valid(*identity);
                }
                let slot: &Vec<NodeKeyAnnouncement> = &self.slots[p].announcements;
                let ghost s = said(slot@);
                let mut i: usize = slot.len();
                while i > 0
                    invariant
                        i <= slot@.len(),
                        s == said(slot@),
                        s == self.slot(*identity),
                        slot_valid(s, *identity),
                        forall|k: int| i <= k < s.len() ==> !(#[trigger] s[k]).in_force(now_ms),
                    decreases i,
                {
                    i = i - 1;
                    let e: &NodeKeyAnnouncement = &slot[i];
                    assert(s[i as int] == e@);
                    if e.not_before_ms <= now_ms && e.not_after_ms > now_ms {
                        proof {
                            lemma_current_is(s, now_ms, i as int);
                        }
                        return Some(&e.node_key);
                    }
                }
                None
            },
        }
    }

    /// Whether a key may be dialled: an older one too, as long as its time is not over.
    pub fn accepts(&self, identity: &NodeId, node_key: &NodeId, now_ms: u64) -> (r: bool)
        requires
            self.wf(),
        ensures
            r == dialable(self.slot(*identity), *node_key, now_ms),
    {
        match self.find(identity) {
            None => false,
            Some(p) => {
                proof {
                    self.lemma_slot_is(*identity, p as int);
                }
                let slot: &Vec<NodeKeyAnnouncement> = &self.slots[p].announcements;
                let ghost s = said(slot@);
                let mut i: usize = 0;
                while i < slot.len()
                    invariant
                        i <= slot@.len(),
                        s == said(slot@),
                        s == self.slot(*identity),
                        forall|k: int|
                            0 <= k < i ==> !((#[trigger] s[k]).node_key == *node_key && s[k].in_force(
                                now_ms,
                            )),
                    decreases slot@.len() - i,
                {
                    let e: &NodeKeyAnnouncement = &slot[i];
                    assert(s[i as int] == e@);
                    if same_bytes(&e.node_key, node_key) && e.not_before_ms <= now_ms && e.not_after_ms
                        > now_ms {
                        return true;
                    }
                    i = i + 1;
                }
                false
            },
        }
    }
}

/// `i` is the place of the highest serial in force.
pub open spec fn is_current(s: Seq<AnnouncementData>, now_ms: u64, i: int) -> bool {
    &&& 0 <= i < s.len()
    &&& s[i].in_force(now_ms)
    &&& forall|j: int|
        0 <= j < s.len() && (#[trigger] s[j]).in_force(now_ms) ==> s[j].serial <= s[i].serial
}

/// The key of the highest serial in force.
pub open spec fn current_key_of(s: Seq<AnnouncementData>, now_ms: u64) -> Option<NodeId> {
    if exists|i: int| 0 <= i < s.len() && (#[trigger] s[i]).in_force(now_ms) {
        Some(s[choose|i: int| #[trigger] is_current(s, now_ms, i)].node_key)
    } else {
        None
    }
}

/// Some announcement in force names the key.
pub open spec fn dialable(s: Seq<AnnouncementData>, node_key: NodeId, now_ms: u64) -> bool {
    exists|i: int|
        0 <= i < s.len() && (#[trigger] s[i]).node_key == node_key && s[i].in_force(now_ms)
}

/// With growing serials the last announcement in force is the current one.
proof fn lemma_current_is(s: Seq<AnnouncementData>, now_ms: u64, i: int)
    requires
        forall|a: int, b: int|
            #![trigger s[a], s[b]]
            0 <= a < b < s.len() ==> s[a].serial < s[b].serial,
        0 <= i < s.len(),
        s[i].in_force(now_ms),
        forall|k: int| i < k < s.len() ==> !(#[trigger] s[k]).in_force(now_ms),
    ensures
        current_key_of(s, now_ms) == Some(s[i].node_key),
{
    assert(is_current(s, now_ms, i));
    let c = choose|c: int| #[trigger] is_current(s, now_ms, c);
    assert(is_current(s, now_ms, c));
    if c < i {
        assert(s[c].serial < s[i].serial);
    }
}


/// The announcements of an identity after a number of others, in their order.
pub open spec fn slot_after_all(
    s: Seq<AnnouncementData>,
    identity: NodeId,
    anns: Seq<AnnouncementData>,
    now_ms: u64,
) -> Seq<AnnouncementData>
    decreases anns.len(),
{
    if anns.len() == 0 {
        s
    } else {
        let before = slot_after_all(s, identity, anns.drop_last(), now_ms);
        if anns.last().identity == identity {
            slot_after(before, anns.last(), now_ms)
        } else {
            before
        }
    }
}

/// How many announcements stand before the first one that a ring refuses.
pub open spec fn good_prefix(anns: Seq<AnnouncementData>, now_ms: u64) -> nat
    decreases anns.len(),
{
    if anns.len() == 0 {
        0
    } else if good_prefix(anns.drop_last(), now_ms) < anns.len() - 1 {
        good_prefix(anns.drop_last(), now_ms)
    } else if anns.last().acceptable(now_ms) {
        anns.len()
    } else {
        (anns.len() - 1) as nat
    }
}

/// The good prefix ends before the first refused announcement.
proof fn lemma_good_prefix(anns: Seq<AnnouncementData>, now_ms: u64, n: int)
    requires
        0 <= n <= anns.len(),
        forall|i: int| 0 <= i < n ==> (#[trigger] anns[i]).acceptable(now_ms),
        n < anns.len() ==> !anns[n].acceptable(now_ms),
    ensures
        good_prefix(anns, now_ms) == n,
    decreases anns.len(),
{
    if anns.len() > 0 {
        let front = anns.drop_last();
        if n < anns.len() {
            if n < front.len() {
                assert(front[n] == anns[n]);
            }
            lemma_good_prefix(front, now_ms, n);
        } else {
            lemma_good_prefix(front, now_ms, n - 1);
            assert(anns[n - 1] == anns.last());
        }
    }
}

/// Filtering what belongs to one identity gives all of it or nothing.
proof fn lemma_of_identity_slot(s: Seq<AnnouncementData>, owner: NodeId, id: NodeId)
    requires
        forall|i: int| 0 <= i < s.len() ==> (#[trigger] s[i]).identity == owner,
    ensures
        of_identity(s, id) == if owner == id {
            s
        } else {
            Seq::empty()
        },
    decreases s.len(),
{
    reveal(Seq::filter);
    if s.len() > 0 {
        let front = s.drop_last();
        assert forall|i: int| 0 <= i < front.len() implies (#[trigger] front[i]).identity == owner by {
            assert(s[i].identity == owner);
        }
        lemma_of_identity_slot(front, owner, id);
        assert(s[s.len() - 1].identity == owner);
        assert(front.push(s.last()) =~= s);
    }
}

impl NodeKeyRing {
    /// All announcements, for keeping them. Those of one identity come in their order.
    pub fn state(&self) -> (r: Vec<NodeKeyAnnouncement>)
        requires
            self.wf(),
        ensures
            forall|id: NodeId| #[trigger] of_identity(said(r@), id) == self.slot(id),
    {
        let mut out: Vec<NodeKeyAnnouncement> = Vec::new();
        let mut i: usize = 0;
        proof {
            assert forall|id: NodeId| #[trigger] of_identity(said(out@), id) == self.slot_before(
                id,
                0,
            ) by {
                reveal(Seq::filter);
            }
        }
        while i < self.slots.len()
            invariant
                i <= self.slots@.len(),
                self.wf(),
                forall|id: NodeId| #[trigger]
                    of_identity(said(out@), id) == self.slot_before(id, i as int),
            decreases self.slots@.len() - i,
        {
            let slot: &Vec<NodeKeyAnnouncement> = &self.slots[i].announcements;
            let ghost before = said(out@);
            let mut k: usize = 0;
            assert(said(out@) =~= before + said(slot@).take(0));
            while k < slot.len()
                invariant
                    k <= slot@.len(),
                    said(out@) == before + said(slot@).take(k as int),
                decreases slot@.len() - k,
            {
                let ghost earlier = out@;
                out.push(slot[k].clone());
                assert(said(out@) =~= said(earlier).push(said(slot@)[k as int]));
                assert(said(out@) =~= before + said(slot@).take(k + 1));
                k = k + 1;
            }
            assert(said(slot@).take(k as int) =~= said(slot@));
            proof {
                let owner = self.slots@[i as int].identity;
                let s = said(slot@);
                assert(slot_valid(said(self.slots@[i as int].announcements@), owner));
                assert forall|id: NodeId| #[trigger] of_identity(said(out@), id) == self.slot_before(
                    id,
                    i + 1,
                ) by {
                    Seq::filter_distributes_over_add(
                        before,
                        s,
                        |a: AnnouncementData| a.identity == id,
                    );
                    assert(of_identity(said(out@), id) == of_identity(before, id) + of_identity(s, id));
                    lemma_of_identity_slot(s, owner, id);
                    assert(of_identity(before, id) == self.slot_before(id, i as int));
                    self.lemma_slot_before(id, i as int);
                    assert(of_identity(before, id) + Seq::<AnnouncementData>::empty() =~= of_identity(
                        before,
                        id,
                    ));
                    assert(Seq::<AnnouncementData>::empty() + s =~= s);
                }
            }
            i = i + 1;
        }
        proof {
            assert forall|id: NodeId| #[trigger] of_identity(said(out@), id) == self.slot(id) by {
                assert(of_identity(said(out@), id) == self.slot_before(id, i as int));
                if exists|p: int| #[trigger] self.slot_at(id, p) {
                    let p = choose|p: int| #[trigger] self.slot_at(id, p);
                    assert(self.slot_at(id, p));
                }
            }
        }
        out
    }

    /// The slot of an identity as far as the first `n` slots tell.
    closed spec fn slot_before(self, id: NodeId, n: int) -> Seq<AnnouncementData> {
        if exists|i: int| #[trigger] self.slot_at(id, i) && i < n {
            self.slot(id)
        } else {
            Seq::empty()
        }
    }

    /// One more slot tells of one more identity.
    proof fn lemma_slot_before(self, id: NodeId, n: int)
        requires
            self.wf(),
            0 <= n < self.slots@.len(),
        ensures
            self.slot_before(id, n + 1) == if self.slots@[n].identity == id {
                said(self.slots@[n].announcements@)
            } else {
                self.slot_before(id, n)
            },
            self.slots@[n].identity == id ==> self.slot_before(id, n) == Seq::<
                AnnouncementData,
            >::empty(),
    {
        if self.slots@[n].identity == id {
            assert(self.slot_at(id, n));
            self.lemma_slot_is(id, n);
            if exists|i: int| #[trigger] self.slot_at(id, i) && i < n {
                let i = choose|i: int| #[trigger] self.slot_at(id, i) && i < n;
                assert(self.slots@[i].identity != self.slots@[n].identity);
            }
        } else if exists|i: int| #[trigger] self.slot_at(id, i) && i < n + 1 {
            let i = choose|i: int| #[trigger] self.slot_at(id, i) && i < n + 1;
            assert(self.slot_at(id, i) && i < n);
        }
    }

    /// Takes kept announcements back, each after its check. The first bad one ends it.
    pub fn restore(&mut self, entries: Vec<NodeKeyAnnouncement>, now_ms: u64) -> (r: Result<
        (),
        CoreError,
    >)
        requires
            old(self).wf(),
        ensures
            final(self).wf(),
            r is Ok <==> forall|i: int|
                0 <= i < entries@.len() ==> (#[trigger] said(entries@)[i]).acceptable(now_ms),
            r matches Err(e) ==> e is Crypto,
            forall|id: NodeId| #[trigger]
                final(self).slot(id) == slot_after_all(
                    old(self).slot(id),
                    id,
                    said(entries@).take(good_prefix(said(entries@), now_ms) as int),
                    now_ms,
                ),
    {
        let ghost all = said(entries@);
        let mut i: usize = 0;
        proof {
            assert forall|id: NodeId| #[trigger] self.slot(id) == slot_after_all(
                old(self).slot(id),
                id,
                all.take(0),
                now_ms,
            ) by {
                assert(all.take(0) =~= Seq::empty());
            }
        }
        while i < entries.len()
            invariant
                i <= entries@.len(),
                all == said(entries@),
                self.wf(),
                forall|k: int| 0 <= k < i ==> (#[trigger] all[k]).acceptable(now_ms),
                forall|id: NodeId| #[trigger]
                    self.slot(id) == slot_after_all(
                        old(self).slot(id),
                        id,
                        all.take(i as int),
                        now_ms,
                    ),
            decreases entries@.len() - i,
        {
            let ghost before = *self;
            assert(all[i as int] == entries@[i as int]@);
            match self.upsert(&entries[i], now_ms) {
                Ok(_) => {},
                Err(e) => {
                    proof {
                        lemma_good_prefix(all, now_ms, i as int);
                        assert(!said(entries@)[i as int].acceptable(now_ms));
                    }
                    return Err(e);
                },
            }
            proof {
                assert(all.take(i + 1).drop_last() =~= all.take(i as int));
                assert(all.take(i + 1).last() == entries@[i as int]@);
                assert forall|id: NodeId| #[trigger] self.slot(id) == slot_after_all(
                    old(self).slot(id),
                    id,
                    all.take(i + 1),
                    now_ms,
                ) by {
                    assert(before.slot(id) == slot_after_all(
                        old(self).slot(id),
                        id,
                        all.take(i as int),
                        now_ms,
                    ));
                }
            }
            i = i + 1;
        }
        proof {
            lemma_good_prefix(all, now_ms, i as int);
        }
        Ok(())
    }
}

/// Taking announcements one after the other into nothing gives those of an identity again.
proof fn lemma_refill(kept: Seq<AnnouncementData>, id: NodeId, now_ms: u64)
    requires
        slot_valid(of_identity(kept, id), id),
        forall|i: int| 0 <= i < kept.len() ==> (#[trigger] kept[i]).acceptable(now_ms),
    ensures
        slot_after_all(Seq::empty(), id, kept, now_ms) == of_identity(kept, id),
        forall|i: int|
            0 <= i < of_identity(kept, id).len() ==> (#[trigger] of_identity(kept, id)[i]).not_after_ms
                > now_ms,
    decreases kept.len(),
{
    reveal(Seq::filter);
    if kept.len() > 0 {
        let (front, ann) = (kept.drop_last(), kept.last());
        let (s, all) = (of_identity(front, id), of_identity(kept, id));
        if ann.identity == id {
            assert(all =~= s.push(ann));
            assert forall|i: int| 0 <= i < s.len() implies (#[trigger] s[i]).identity == id
                && s[i].genuine() && s[i].serial < ann.serial by {
                assert(all[i] == s[i]);
                assert(all[i].serial < all[s.len() as int].serial);
            }
            assert forall|i: int, j: int| #![trigger s[i], s[j]]
                0 <= i < j < s.len() implies s[i].serial < s[j].serial by {
                assert(all[i].serial < all[j].serial);
            }
            lemma_refill(front, id, now_ms);
            lemma_all_stay(s, ann.serial, now_ms);
            assert(kept[kept.len() - 1].acceptable(now_ms));
        } else {
            lemma_refill(front, id, now_ms);
        }
    }
}

/// Announcements of other serials stay as long as their time is not over.
proof fn lemma_all_stay(s: Seq<AnnouncementData>, serial: u64, now_ms: u64)
    requires
        forall|i: int|
            0 <= i < s.len() ==> (#[trigger] s[i]).serial != serial && s[i].not_after_ms > now_ms,
    ensures
        staying(s, serial, now_ms) == s,
    decreases s.len(),
{
    reveal(Seq::filter);
    if s.len() > 0 {
        let front = s.drop_last();
        assert forall|i: int| 0 <= i < front.len() implies (#[trigger] front[i]).serial != serial
            && front[i].not_after_ms > now_ms by {
            assert(front[i] == s[i]);
        }
        lemma_all_stay(front, serial, now_ms);
        assert(s[s.len() - 1].serial != serial);
        assert(front.push(s.last()) =~= s);
    }
}

/// A ring comes through a restart: what was kept of it, taken back into an empty ring while no
/// announcement has expired, gives every identity the announcements that it had.
pub proof fn law_kept_ring_is_restored(
    ring: NodeKeyRing,
    kept: Seq<AnnouncementData>,
    id: NodeId,
    now_ms: u64,
)
    requires
        ring.wf(),
        forall|other: NodeId| #[trigger] of_identity(kept, other) == ring.slot(other),
        forall|i: int| 0 <= i < kept.len() ==> (#[trigger] kept[i]).acceptable(now_ms),
    ensures
        good_prefix(kept, now_ms) == kept.len(),
        slot_after_all(
            Seq::empty(),
            id,
            kept.take(good_prefix(kept, now_ms) as int),
            now_ms,
        ) == ring.slot(id),
{
    lemma_good_prefix(kept, now_ms, kept.len() as int);
    assert(kept.take(kept.len() as int) =~= kept);
    ring.lemma_slot_valid(id);
    assert(of_identity(kept, id) == ring.slot(id));
    lemma_refill(kept, id, now_ms);
}

/// An announcement that is older than a known one changes nothing: a key cannot be taken back to
/// an earlier one.
pub proof fn law_older_announcement_changes_nothing(
    s: Seq<AnnouncementData>,
    ann: AnnouncementData,
    now_ms: u64,
    i: int,
)
    requires
        0 <= i < s.len(),
        s[i].serial > ann.serial,
    ensures
        slot_after(s, ann, now_ms) == s,
{
    assert(outdated(s, ann.serial));
}

/// The newest announcement is the one to dial by, from the moment it is in force.
pub proof fn law_newest_announcement_is_current(
    s: Seq<AnnouncementData>,
    ann: AnnouncementData,
    now_ms: u64,
    later_ms: u64,
)
    requires
        slot_valid(s, ann.identity),
        ann.genuine(),
        !outdated(s, ann.serial),
        ann.in_force(later_ms),
    ensures
        current_key_of(slot_after(s, ann, now_ms), later_ms) == Some(ann.node_key),
        dialable(slot_after(s, ann, now_ms), ann.node_key, later_ms),
{
    lemma_slot_after_valid(s, ann, now_ms);
    let after = slot_after(s, ann, now_ms);
    assert(after[after.len() - 1] == ann);
    lemma_current_is(after, later_ms, after.len() - 1);
}

/// A key stays dialable beside its successor until its time is over, as long as the ring has
/// room for it.
pub proof fn law_overlapping_key_stays_dialable(
    s: Seq<AnnouncementData>,
    ann: AnnouncementData,
    now_ms: u64,
    i: int,
    later_ms: u64,
)
    requires
        slot_valid(s, ann.identity),
        ann.genuine(),
        0 <= i < s.len(),
        s[i].serial != ann.serial,
        s.len() < MAX_ANNOUNCEMENTS_PER_IDENTITY,
        now_ms <= later_ms,
        s[i].in_force(later_ms),
    ensures
        dialable(slot_after(s, ann, now_ms), s[i].node_key, later_ms),
{
    broadcast use vstd::seq_lib::group_filter_ensures;

    let after = slot_after(s, ann, now_ms);
    if outdated(s, ann.serial) {
        assert(after[i] == s[i]);
    } else {
        let kept = staying(s, ann.serial, now_ms);
        assert(kept.contains(s[i]));
        let k = choose|k: int| 0 <= k < kept.len() && kept[k] == s[i];
        assert(after[k] == s[i]);
    }
}

/// Makes announcements for the node's own identity, each with the next serial.
pub struct AnnouncementDispatcher {
    ring: NodeKeyRing,
    current_serial: u64,
}

impl AnnouncementDispatcher {
    /// The announcements made so far.
    pub closed spec fn known(self) -> NodeKeyRing {
        self.ring
    }

    /// The serial of the last announcement, zero before the first.
    pub closed spec fn serial(self) -> u64 {
        self.current_serial
    }

    /// The invariant of the dispatcher: no announcement has a serial that is still to come.
    pub open spec fn wf(self) -> bool {
        &&& self.known().wf()
        &&& forall|id: NodeId, i: int|
            0 <= i < self.known().slot(id).len() ==> (#[trigger] self.known().slot(id)[i]).serial
                <= self.serial()
    }

    /// Why a rotation may fail: there is no further serial, the announcement could not be in force
    /// for any time, or the first half of its signature encodes the neutral element.
    pub open spec fn cannot_rotate(self, seed: Seq<u8>, node_key: Seq<u8>, now_ms: u64) -> bool {
        ||| self.serial() == u64::MAX
        ||| now_ms == u64::MAX
        ||| forall|id: NodeId, key: NodeId|
            id@ == ed25519_public(seed) && key@ == node_key ==> ed25519_signature(
                seed,
                #[trigger] AnnouncementData::draft(
                    id,
                    key,
                    (self.serial() + 1) as u64,
                    now_ms,
                    DEFAULT_OVERLAP_MS,
                ).signing_payload(),
            ).take(32) == neutral_point()
    }

    /// The same announcements and the same serial.
    pub open spec fn same(self, other: AnnouncementDispatcher) -> bool {
        &&& self.serial() == other.serial()
        &&& forall|id: NodeId| #[trigger] self.known().slot(id) == other.known().slot(id)
    }

    pub fn new() -> (r: AnnouncementDispatcher)
        ensures
            r.wf(),
            r.serial() == 0,
            forall|id: NodeId| r.known().slot(id) == Seq::<AnnouncementData>::empty(),
    {
        AnnouncementDispatcher { ring: NodeKeyRing::new(), current_serial: 0 }
    }

    /// Announces a new node key: the next serial, signed, and taken into the ring. It fails when
    /// there is no further serial, when the announcement could not be in force for any time, or
    /// when the signature is one that the strict check refuses.
    pub fn rotate(&mut self, identity: &Identity, new_node_key: &NodeId, now_ms: u64) -> (r: Result<
        NodeKeyAnnouncement,
        CoreError,
    >)
        requires
            old(self).wf(),
        ensures
            final(self).wf(),
            match r {
                Ok(ann) => {
                    &&& old(self).serial() < u64::MAX
                    &&& final(self).serial() == old(self).serial() + 1
                    &&& ann.identity@ == ed25519_public(identity@)
                    &&& ann@ == AnnouncementData::draft(
                        ann.identity,
                        *new_node_key,
                        final(self).serial(),
                        now_ms,
                        DEFAULT_OVERLAP_MS,
                    ).with_sig(ann@.sig)
                    &&& ann@.sig == ed25519_signature(identity@, ann@.signing_payload())
                    &&& ann@.acceptable(now_ms)
                    &&& current_key_of(final(self).known().slot(ann.identity), now_ms) == Some(
                        *new_node_key,
                    )
                    &&& forall|id: NodeId| #[trigger]
                        final(self).known().slot(id) == if id == ann.identity {
                            slot_after(old(self).known().slot(id), ann@, now_ms)
                        } else {
                            old(self).known().slot(id)
                        }
                },
                Err(e) => {
                    &&& e is Crypto
                    &&& old(self).serial() == u64::MAX ==> e.text()
                        == "announcement serial exhausted"@
                    &&& final(self).serial() == old(self).serial()
                    &&& forall|id: NodeId| #[trigger]
                        final(self).known().slot(id) == old(self).known().slot(id)
                    &&& old(self).cannot_rotate(identity@, new_node_key@, now_ms)
                },
            },
    {
        if self.current_serial == u64::MAX {
            return Err(CoreError::Crypto("announcement serial exhausted".to_owned()));
        }
        let serial: u64 = self.current_serial + 1;
        let id = identity.node_id();
        let mut ann = NodeKeyAnnouncement::new(&id, new_node_key, serial, now_ms, DEFAULT_OVERLAP_MS);
        let ghost draft = ann@;
        ann.sign(identity)?;
        let ghost before = self.ring;
        proof {
            assert forall|other: NodeId| other@ == ed25519_public(identity@) implies other == id by {
                assert(other =~= id);
            }
            assert forall|key: NodeId| key@ == new_node_key@ implies key == *new_node_key by {
                assert(key =~= *new_node_key);
            }
            assert(ann@.signing_payload() == draft.signing_payload());
        }
        match self.ring.upsert(&ann, now_ms) {
            Ok(_) => {},
            Err(e) => {
                return Err(e);
            },
        }
        self.current_serial = serial;
        proof {
            let s = before.slot(id);
            before.lemma_slot_valid(id);
            if outdated(s, serial) {
                let i = choose|i: int| 0 <= i < s.len() && (#[trigger] s[i]).serial > serial;
                assert(old(self).known().slot(id)[i].serial <= old(self).serial());
            }
            law_newest_announcement_is_current(s, ann@, now_ms, now_ms);
            lemma_slot_after_serials(s, ann@, now_ms, serial);
            assert forall|other: NodeId, i: int| 0 <= i < self.known().slot(other).len() implies (
            #[trigger] self.known().slot(other)[i]).serial <= serial by {
                if other != id {
                    assert(old(self).known().slot(other)[i].serial <= old(self).serial());
                } else {
                    assert(self.known().slot(other) == slot_after(s, ann@, now_ms));
                }
            }
        }
        Ok(ann)
    }

    /// The key to dial an identity by.
    pub fn current_key(&self, identity: &NodeId, now_ms: u64) -> (r: Option<&NodeId>)
        requires
            self.wf(),
        ensures
            match r {
                Some(k) => current_key_of(self.known().slot(*identity), now_ms) == Some(*k),
                None => current_key_of(self.known().slot(*identity), now_ms) is None,
            },
    {
        self.ring.current(identity, now_ms)
    }

    pub fn ring(&self) -> (r: &NodeKeyRing)
        ensures
            *r == self.known(),
    {
        &self.ring
    }
}

/// No serial is higher than those that were there and the new one.
proof fn lemma_slot_after_serials(
    s: Seq<AnnouncementData>,
    ann: AnnouncementData,
    now_ms: u64,
    most: u64,
)
    requires
        slot_valid(s, ann.identity),
        forall|i: int| 0 <= i < s.len() ==> (#[trigger] s[i]).serial <= most,
        ann.serial <= most,
    ensures
        forall|i: int|
            0 <= i < slot_after(s, ann, now_ms).len() ==> (#[trigger] slot_after(s, ann, now_ms)[i]).serial
                <= most,
{
    let keep = |e: AnnouncementData| e.serial != ann.serial && e.not_after_ms > now_ms;
    lemma_filter_slot(s, ann.identity, keep);
    let kept = staying(s, ann.serial, now_ms);
    let after = slot_after(s, ann, now_ms);
    assert forall|i: int| 0 <= i < kept.len() implies (#[trigger] kept[i]).serial <= most by {
        let k = choose|k: int| 0 <= k < s.len() && s[k] == kept[i];
        assert(s[k].serial <= most);
    }
    let longer = kept.push(ann);
    if !outdated(s, ann.serial) && longer.len() > MAX_ANNOUNCEMENTS_PER_IDENTITY {
        assert forall|i: int| 0 <= i < after.len() implies (#[trigger] after[i]).serial <= most by {
            assert(after[i] == longer[i + 1]);
        }
    }
}

impl Default for NodeKeyRing {
    fn default() -> (r: NodeKeyRing)
        ensures
            r.wf(),
            forall|id: NodeId| r.slot(id) == Seq::<AnnouncementData>::empty(),
    {
        NodeKeyRing::new()
    }
}

impl Default for AnnouncementDispatcher {
    fn default() -> (r: AnnouncementDispatcher)
        ensures
            r.wf(),
            r.serial() == 0,
            forall|id: NodeId| r.known().slot(id) == Seq::<AnnouncementData>::empty(),
    {
        AnnouncementDispatcher::new()
    }
}

/// When an announcement counts: its identity signed it, it is in force for some time but for thirty days at
/// most, and it has a serial. It is in force from its beginning on and no longer at its end, and a ring takes
/// it up to its end.
pub proof fn law_announcement_in_numbers(a: AnnouncementData, now_ms: u64)
    ensures
        a.genuine() <==> {
            &&& signed_by(a.identity@, a.signing_payload(), a.sig)
            &&& 0 < a.not_after_ms - a.not_before_ms <= 2_592_000_000
            &&& a.serial != 0
        },
        a.in_force(now_ms) <==> a.not_before_ms <= now_ms && now_ms < a.not_after_ms,
        a.acceptable(now_ms) <==> a.genuine() && now_ms < a.not_after_ms,
{
}

/// A draft names the identity, the key and the serial, and is in force from now on for the given time.
pub proof fn law_draft_starts_now(
    identity: NodeId,
    node_key: NodeId,
    serial: u64,
    now_ms: u64,
    overlap_ms: u64,
)
    requires
        now_ms + overlap_ms <= u64::MAX,
    ensures
        AnnouncementData::draft(identity, node_key, serial, now_ms, overlap_ms) == (AnnouncementData {
            identity,
            node_key,
            serial,
            not_before_ms: now_ms,
            not_after_ms: (now_ms + overlap_ms) as u64,
            sig: Seq::empty(),
        }),
{
}

/// The key to dial is that of an announcement in force that none in force with a higher serial stands
/// against. There is one whenever some announcement is in force.
pub proof fn law_current_key_is_the_newest_in_force(s: Seq<AnnouncementData>, now_ms: u64, a: AnnouncementData)
    requires
        s.contains(a),
        a.not_before_ms <= now_ms < a.not_after_ms,
    ensures
        current_key_of(s, now_ms) is Some,
        exists|i: int|
            {
                &&& 0 <= i < s.len()
                &&& Some((#[trigger] s[i]).node_key) == current_key_of(s, now_ms)
                &&& s[i].not_before_ms <= now_ms < s[i].not_after_ms
                &&& a.serial <= s[i].serial
            },
        dialable(s, a.node_key, now_ms),
{
    let k = choose|k: int| 0 <= k < s.len() && s[k] == a;
    assert(s[k].in_force(now_ms));
    lemma_current_exists(s, now_ms);
    let i = choose|i: int| #[trigger] is_current(s, now_ms, i);
    assert(is_current(s, now_ms, i));
    assert(a.serial <= s[i].serial);
    assert(Some(s[i].node_key) == current_key_of(s, now_ms));
}

/// Where some announcement is in force, one of them has the highest serial.
proof fn lemma_current_exists(s: Seq<AnnouncementData>, now_ms: u64)
    requires
        exists|i: int| 0 <= i < s.len() && (#[trigger] s[i]).in_force(now_ms),
    ensures
        exists|i: int| #[trigger] is_current(s, now_ms, i),
    decreases s.len(),
{
    let (front, last) = (s.drop_last(), s.len() - 1);
    if exists|i: int| 0 <= i < front.len() && (#[trigger] front[i]).in_force(now_ms) {
        lemma_current_exists(front, now_ms);
        let f = choose|f: int| #[trigger] is_current(front, now_ms, f);
        assert(is_current(front, now_ms, f));
        let w = if s[last].in_force(now_ms) && s[last].serial > s[f].serial {
            last
        } else {
            f
        };
        assert forall|j: int| 0 <= j < s.len() && (#[trigger] s[j]).in_force(now_ms) implies s[j].serial
            <= s[w].serial by {
            if j < last {
                assert(front[j] == s[j]);
            }
        }
        assert(is_current(s, now_ms, w));
    } else {
        assert forall|j: int| 0 <= j < s.len() && (#[trigger] s[j]).in_force(now_ms) implies j == last by {
            if j < last {
                assert(front[j] == s[j]);
            }
        }
        assert(is_current(s, now_ms, last));
    }
}

/// Without an announcement in force there is no key to dial, and a key that no announcement in force names
/// may not be dialled.
pub proof fn law_nothing_in_force_nothing_to_dial(s: Seq<AnnouncementData>, node_key: NodeId, now_ms: u64)
    ensures
        (forall|a: AnnouncementData| #[trigger]
            s.contains(a) ==> !(a.not_before_ms <= now_ms < a.not_after_ms)) ==> current_key_of(s, now_ms)
            is None,
        (forall|a: AnnouncementData| #[trigger]
            s.contains(a) && a.node_key == node_key ==> !(a.not_before_ms <= now_ms
                < a.not_after_ms)) ==> !dialable(s, node_key, now_ms),
{
    assert forall|i: int| 0 <= i < s.len() implies s.contains(#[trigger] s[i]) by {
    }
    assert(forall|i: int| 0 <= i < s.len() && (#[trigger] s[i]).in_force(now_ms) ==> s.contains(s[i]));
}

/// A newer announcement stands last. Beside it stay all those of other serials that are not over; only the
/// oldest of 33 goes. One that is over, or of the same serial, does not stay.
#[verifier::rlimit(40)]
pub proof fn law_newer_announcement_is_taken(
    s: Seq<AnnouncementData>,
    ann: AnnouncementData,
    now_ms: u64,
    e: AnnouncementData,
)
    requires
        s.len() <= 32,
        forall|x: AnnouncementData| #[trigger] s.contains(x) ==> x.serial <= ann.serial,
    ensures
        ({
            let after = slot_after(s, ann, now_ms);
            let stays = s.contains(e) && e.serial != ann.serial && e.not_after_ms > now_ms;
            &&& after.last() == ann
            &&& after.contains(ann)
            &&& after.len() <= 32
            &&& after.contains(e) ==> e == ann || stays
            &&& stays && s.len() < 32 ==> after.contains(e)
            &&& stays && e != s[0] ==> after.contains(e)
        }),
{
    let keep = |x: AnnouncementData| x.serial != ann.serial && x.not_after_ms > now_ms;
    let rest = staying(s, ann.serial, now_ms);
    let longer = rest.push(ann);
    let after = slot_after(s, ann, now_ms);
    s.lemma_filter_len(keep);
    lemma_filter_keeps(s, keep, e);
    lemma_push_contains(rest, ann, e);
    if outdated(s, ann.serial) {
        let i = choose|i: int| 0 <= i < s.len() && (#[trigger] s[i]).serial > ann.serial;
        assert(s.contains(s[i]));
    }
    assert(after[after.len() - 1] == ann);
    if longer.len() > 32 {
        lemma_full_filter(s, keep);
        if after.contains(e) {
            let i = choose|i: int| 0 <= i < after.len() && after[i] == e;
            assert(longer[i + 1] == e);
        }
        if longer.contains(e) && e != s[0] {
            let i = choose|i: int| 0 <= i < longer.len() && longer[i] == e;
            assert(longer[0] == s[0]);
            assert(after[i - 1] == e);
        }
    }
}

/// A filter that drops nothing changes nothing.
proof fn lemma_full_filter(s: Seq<AnnouncementData>, keep: spec_fn(AnnouncementData) -> bool)
    requires
        s.filter(keep).len() == s.len(),
    ensures
        s.filter(keep) == s,
    decreases s.len(),
{
    reveal(Seq::filter);
    if s.len() > 0 {
        s.drop_last().lemma_filter_len(keep);
        lemma_full_filter(s.drop_last(), keep);
        assert(s.drop_last().push(s.last()) =~= s);
    }
}

/// What an identity has announced does not depend on what others announce.
pub proof fn law_identities_are_separate(
    s: Seq<AnnouncementData>,
    identity: NodeId,
    anns: Seq<AnnouncementData>,
    now_ms: u64,
)
    ensures
        slot_after_all(s, identity, anns, now_ms) == slot_after_all(
            s,
            identity,
            anns.filter(|a: AnnouncementData| a.identity == identity),
            now_ms,
        ),
    decreases anns.len(),
{
    let own = |a: AnnouncementData| a.identity == identity;
    if anns.len() > 0 {
        let (front, last) = (anns.drop_last(), anns.last());
        law_identities_are_separate(s, identity, front, now_ms);
        assert(front.push(last) =~= anns);
        lemma_filter_push(front, last, own);
        if own(last) {
            assert(front.filter(own).push(last).drop_last() =~= front.filter(own));
        }
    } else {
        reveal(Seq::filter);
    }
}

/// One announcement after another: what came first is taken first.
pub proof fn law_announcements_are_taken_in_order(
    s: Seq<AnnouncementData>,
    identity: NodeId,
    anns: Seq<AnnouncementData>,
    more: Seq<AnnouncementData>,
    now_ms: u64,
)
    ensures
        slot_after_all(s, identity, anns + more, now_ms) == slot_after_all(
            slot_after_all(s, identity, anns, now_ms),
            identity,
            more,
            now_ms,
        ),
        more.len() == 1 && more[0].identity == identity ==> slot_after_all(s, identity, more, now_ms)
            == slot_after(s, more[0], now_ms),
    decreases more.len(),
{
    if more.len() > 0 {
        law_announcements_are_taken_in_order(s, identity, anns, more.drop_last(), now_ms);
        assert((anns + more).drop_last() =~= anns + more.drop_last());
    } else {
        assert(anns + more =~= anns);
    }
    if more.len() == 1 {
        assert(slot_after_all(s, identity, more.drop_last(), now_ms) == s);
    }
}

/// Of a number of announcements those before the first bad one count, and it is bad: not genuine, or over.
pub proof fn law_first_bad_announcement_ends_it(anns: Seq<AnnouncementData>, now_ms: u64, i: int)
    requires
        0 <= i < anns.len(),
    ensures
        good_prefix(anns, now_ms) <= anns.len(),
        i < good_prefix(anns, now_ms) ==> anns[i].genuine() && anns[i].not_after_ms > now_ms,
        i == good_prefix(anns, now_ms) ==> !(anns[i].genuine() && anns[i].not_after_ms > now_ms),
    decreases anns.len(),
{
    let front = anns.drop_last();
    if front.len() > 0 {
        law_first_bad_announcement_ends_it(front, now_ms, if i < front.len() { i } else { 0 });
    } else {
        assert(good_prefix(front, now_ms) == 0);
    }
}

/// The announcements of an identity are those that name it.
pub proof fn law_announcements_of_an_identity(
    s: Seq<AnnouncementData>,
    identity: NodeId,
    a: AnnouncementData,
)
    ensures
        of_identity(s, identity).contains(a) <==> s.contains(a) && a.identity == identity,
{
    lemma_filter_keeps(s, |x: AnnouncementData| x.identity == identity, a);
}

/// Where the fields of an announcement stand in what is signed, behind a tag of 28 bytes.
#[verifier::rlimit(40)]
pub proof fn law_announcement_fields_in_their_places(a: AnnouncementData)
    ensures
        ({
            let p = a.signing_payload();
            &&& p.len() == 116
            &&& p.take(28) == ascii("dc-node-key-announcement-v1\n"@)
            &&& p.subrange(28, 60) == a.identity@
            &&& p.subrange(60, 92) == a.node_key@
            &&& p.subrange(92, 100) == be_bytes(a.serial as nat, 8)
            &&& p.subrange(100, 108) == be_bytes(a.not_before_ms as nat, 8)
            &&& p.subrange(108, 116) == be_bytes(a.not_after_ms as nat, 8)
        }),
{
    broadcast use lemma_be_bytes_len;

    reveal_strlit("dc-node-key-announcement-v1\n");
    let p = a.signing_payload();
    assert(p.take(28) =~= ascii("dc-node-key-announcement-v1\n"@));
    assert(p.subrange(28, 60) =~= a.identity@);
    assert(p.subrange(60, 92) =~= a.node_key@);
    assert(p.subrange(92, 100) =~= be_bytes(a.serial as nat, 8));
    assert(p.subrange(100, 108) =~= be_bytes(a.not_before_ms as nat, 8));
    assert(p.subrange(108, 116) =~= be_bytes(a.not_after_ms as nat, 8));
}

/// A rotation may fail only where the serials or the times are used up, or where the first half of the
/// signature encodes the neutral element.
pub proof fn law_rotation_is_owed(
    dispatcher: AnnouncementDispatcher,
    seed: Seq<u8>,
    id: NodeId,
    key: NodeId,
    now_ms: u64,
)
    requires
        dispatcher.serial() < u64::MAX,
        now_ms < u64::MAX,
        id@ == ed25519_public(seed),
        ed25519_signature(
            seed,
            AnnouncementData::draft(
                id,
                key,
                (dispatcher.serial() + 1) as u64,
                now_ms,
                604_800_000,
            ).signing_payload(),
        ).take(32) != neutral_point(),
    ensures
        !dispatcher.cannot_rotate(seed, key@, now_ms),
{
}

/// Dispatchers that are the same have announced the same keys, and go on with the same serial.
pub proof fn law_same_dispatchers_go_on_alike(
    a: AnnouncementDispatcher,
    b: AnnouncementDispatcher,
    id: NodeId,
    now_ms: u64,
)
    requires
        a.same(b),
    ensures
        a.serial() == b.serial(),
        a.known().slot(id) == b.known().slot(id),
        current_key_of(a.known().slot(id), now_ms) == current_key_of(b.known().slot(id), now_ms),
        b.same(a),
{
}

} // verus!

//! Contacts and what was written with them.
use vstd::prelude::*;
use crate::bytes::to_vec;
use crate::lists::{lemma_filter_keeps, lemma_filter_push};
use crate::text::same_text;
use crate::timeline::{
    before, in_order, law_every_place_has_its_turn, law_order_is_by_time, order_of, places,
};
use crate::CoreError;

verus! {

/// A contact.
#[derive(Debug)]
pub struct ContactInfo {
    pub name: String,
    /// The contact's long-term public key.
    pub identity: Vec<u8>,
    /// The bucket for messages to the contact.
    pub bucket: Vec<u8>,
    /// The safety code has been compared.
    pub verified: bool,
    pub note: String,
    pub added_ms: i64,
    /// The secret of the link with the contact, empty where there is none.
    pub link_secret: Vec<u8>,
    /// The contact's node, empty where it is not known.
    pub node_id: String,
    /// The last snapshot of the node's addresses, empty where there is none.
    pub node_naddr: String,
}

/// A contact, as plain values.
pub struct ContactData {
    pub name: Seq<char>,
    pub identity: Seq<u8>,
    pub bucket: Seq<u8>,
    pub verified: bool,
    pub note: Seq<char>,
    pub added_ms: i64,
    pub link_secret: Seq<u8>,
    pub node_id: Seq<char>,
    pub node_naddr: Seq<char>,
}

impl View for ContactInfo {
    type V = ContactData;

    open spec fn view(&self) -> ContactData {
        ContactData {
            name: self.name@,
            identity: self.identity@,
            bucket: self.bucket@,
            verified: self.verified,
            note: self.note@,
            added_ms: self.added_ms,
            link_secret: self.link_secret@,
            node_id: self.node_id@,
            node_naddr: self.node_naddr@,
        }
    }
}

impl Clone for ContactInfo {
    fn clone(&self) -> (r: ContactInfo)
        ensures
            r@ == self@,
    {
        ContactInfo {
            name: self.name.as_str().to_owned(),
            identity: to_vec(self.identity.as_slice()),
            bucket: to_vec(self.bucket.as_slice()),
            verified: self.verified,
            note: self.note.as_str().to_owned(),
            added_ms: self.added_ms,
            link_secret: to_vec(self.link_secret.as_slice()),
            node_id: self.node_id.as_str().to_owned(),
            node_naddr: self.node_naddr.as_str().to_owned(),
        }
    }
}

/// One line of a chat.
#[derive(Debug)]
pub struct ChatMsg {
    pub peer: String,
    pub outgoing: bool,
    pub text: String,
    pub ts_ms: i64,
}

/// One line of a chat, as plain values.
pub struct ChatData {
    pub peer: Seq<char>,
    pub outgoing: bool,
    pub text: Seq<char>,
    pub ts_ms: i64,
}

impl View for ChatMsg {
    type V = ChatData;

    open spec fn view(&self) -> ChatData {
        ChatData {
            peer: self.peer@,
            outgoing: self.outgoing,
            text: self.text@,
            ts_ms: self.ts_ms,
        }
    }
}

impl Clone for ChatMsg {
    fn clone(&self) -> (r: ChatMsg)
        ensures
            r@ == self@,
    {
        ChatMsg {
            peer: self.peer.as_str().to_owned(),
            outgoing: self.outgoing,
            text: self.text.as_str().to_owned(),
            ts_ms: self.ts_ms,
        }
    }
}

/// What contacts say.
pub open spec fn contacts_said(v: Seq<ContactInfo>) -> Seq<ContactData> {
    Seq::new(v.len(), |i: int| v[i]@)
}

/// What chat lines say.
pub open spec fn lines_said(v: Seq<ChatMsg>) -> Seq<ChatData> {
    Seq::new(v.len(), |i: int| v[i]@)
}

/// Contacts and chats, in the order in which they came.
pub struct ContactStore {
    contacts: Vec<ContactInfo>,
    log: Vec<ChatMsg>,
}

/// Contacts and chats, as plain values.
#[verifier::ext_equal]
pub struct ContactState {
    pub contacts: Seq<ContactData>,
    pub log: Seq<ChatData>,
}

/// A byte string has the length of a contact's identity: a public key of 32 bytes, or one behind
/// the byte that tells its type.
pub open spec fn identity_sized(identity: Seq<u8>) -> bool {
    identity.len() == 32 || identity.len() == 33
}

impl View for ContactStore {
    type V = ContactState;

    closed spec fn view(&self) -> ContactState {
        ContactState { contacts: contacts_said(self.contacts@), log: lines_said(self.log@) }
    }
}

/// The contact with a name stands at `i`.
pub open spec fn contact_at(s: Seq<ContactData>, name: Seq<char>, i: int) -> bool {
    0 <= i < s.len() && s[i].name == name
}

/// There is a contact with a name.
pub open spec fn known(s: Seq<ContactData>, name: Seq<char>) -> bool {
    exists|i: int| #[trigger] contact_at(s, name, i)
}

/// The place of the contact with a name.
pub open spec fn place_of(s: Seq<ContactData>, name: Seq<char>) -> int {
    choose|i: int| #[trigger] contact_at(s, name, i)
}

/// No two contacts have one name.
pub open spec fn names_distinct(s: Seq<ContactData>) -> bool {
    forall|i: int, j: int|
        #![trigger s[i], s[j]]
        0 <= i < j < s.len() ==> s[i].name != s[j].name
}

/// A contact's place is unique.
proof fn lemma_place_of(s: Seq<ContactData>, name: Seq<char>, i: int)
    requires
        names_distinct(s),
        contact_at(s, name, i),
    ensures
        known(s, name),
        place_of(s, name) == i,
{
    let k = place_of(s, name);
    assert(contact_at(s, name, k));
    assert(s[k].name == s[i].name);
}

/// Contacts after one was added or replaced. Who was known before stays where they were, and
/// keeps the time at which they were added.
pub open spec fn contacts_with(s: Seq<ContactData>, c: ContactData) -> Seq<ContactData> {
    if known(s, c.name) {
        let i = place_of(s, c.name);
        s.update(i, ContactData { added_ms: s[i].added_ms, ..c })
    } else {
        s.push(c)
    }
}

/// The times at which contacts were added.
pub open spec fn added_times(s: Seq<ContactData>) -> Seq<i64> {
    Seq::new(s.len(), |i: int| s[i].added_ms)
}

/// Contacts by the time at which they were added.
pub open spec fn by_added(s: Seq<ContactData>) -> Seq<ContactData> {
    let order = in_order(added_times(s));
    Seq::new(order.len(), |k: int| s[order[k]])
}

/// The lines of one chat, in the order in which they came.
pub open spec fn chat_with(log: Seq<ChatData>, peer: Seq<char>) -> Seq<ChatData> {
    log.filter(|m: ChatData| m.peer == peer)
}

/// The times of chat lines.
pub open spec fn line_times(s: Seq<ChatData>) -> Seq<i64> {
    Seq::new(s.len(), |i: int| s[i].ts_ms)
}

/// Chat lines by their time.
pub open spec fn by_time(s: Seq<ChatData>) -> Seq<ChatData> {
    let order = in_order(line_times(s));
    Seq::new(order.len(), |k: int| s[order[k]])
}

/// The last lines of a list. A negative number means all of them.
pub open spec fn last_lines(s: Seq<ChatData>, limit: i32) -> Seq<ChatData> {
    if limit < 0 || s.len() <= limit {
        s
    } else {
        s.skip(s.len() - limit)
    }
}

/// There is a line with a contact.
pub open spec fn mentions(s: Seq<ChatData>, peer: Seq<char>) -> bool {
    exists|i: int| 0 <= i < s.len() && (#[trigger] s[i]).peer == peer
}

/// The first line of each chat in a list.
pub open spec fn first_of_each(s: Seq<ChatData>) -> Seq<ChatData>
    decreases s.len(),
{
    if s.len() == 0 {
        Seq::empty()
    } else if mentions(s.drop_last(), s.last().peer) {
        first_of_each(s.drop_last())
    } else {
        first_of_each(s.drop_last()).push(s.last())
    }
}

/// The newest line of each chat, newest first.
pub open spec fn newest_lines(log: Seq<ChatData>) -> Seq<ChatData> {
    first_of_each(by_time(log).reverse())
}

impl ContactStore {
    /// The invariant of the store.
    pub open spec fn wf(self) -> bool {
        names_distinct(self@.contacts)
    }

    /// A store without contacts and chats.
    pub fn new() -> (r: ContactStore)
        ensures
            r.wf(),
            r@ == (ContactState { contacts: Seq::empty(), log: Seq::empty() }),
    {
        let r = ContactStore { contacts: Vec::new(), log: Vec::new() };
        assert(r@ =~= ContactState { contacts: Seq::empty(), log: Seq::empty() });
        r
    }

    /// The place of the contact with a name.
    fn find(&self, name: &str) -> (r: Option<usize>)
        requires
            self.wf(),
        ensures
            match r {
                Some(i) => contact_at(self@.contacts, name@, i as int) && known(self@.contacts, name@)
                    && place_of(self@.contacts, name@) == i,
                None => !known(self@.contacts, name@),
            },
    {
        let mut i: usize = 0;
        let ghost all = self@.contacts;
        while i < self.contacts.len()
            invariant
                i <= self.contacts@.len(),
                self.wf(),
                all == self@.contacts,
                forall|k: int| 0 <= k < i ==> !#[trigger] contact_at(all, name@, k),
            decreases self.contacts@.len() - i,
        {
            assert(all[i as int] == self.contacts@[i as int]@);
            if same_text(self.contacts[i].name.as_str(), name) {
                proof {
                    lemma_place_of(all, name@, i as int);
                }
                return Some(i);
            }
            assert(!contact_at(all, name@, i as int));
            i = i + 1;
        }
        None
    }

    /// Adds a contact without a link or a node, or replaces what is known of one.
    pub fn upsert(
        &mut self,
        name: &str,
        identity: &[u8],
        bucket: &[u8],
        verified: bool,
        note: &str,
        now_ms: i64,
    ) -> (r: Result<(), CoreError>)
        requires
            old(self).wf(),
        ensures
            final(self).wf(),
            r is Ok <==> identity_sized(identity@) && bucket@.len() == 32,
            r matches Err(e) ==> e is Config && e.text() == if !identity_sized(identity@) {
                "contact identity must be 32 or 33 bytes"@
            } else {
                "contact bucket must be 32 bytes"@
            },
            final(self)@ == if r is Ok {
                ContactState {
                    contacts: contacts_with(
                        old(self)@.contacts,
                        ContactData {
                            name: name@,
                            identity: identity@,
                            bucket: bucket@,
                            verified,
                            note: note@,
                            added_ms: now_ms,
                            link_secret: Seq::empty(),
                            node_id: Seq::empty(),
                            node_naddr: Seq::empty(),
                        },
                    ),
                    log: old(self)@.log,
                }
            } else {
                old(self)@
            },
    {
        proof {
            reveal_strlit("");
        }
        let none: [u8; 0] = [];
        assert(none@ =~= Seq::<u8>::empty());
        assert(""@ =~= Seq::<char>::empty());
        self.upsert_linked(name, identity, bucket, verified, note, none.as_slice(), "", "", now_ms)
    }

    /// Adds a contact, or replaces what is known of one.
    pub fn upsert_linked(
        &mut self,
        name: &str,
        identity: &[u8],
        bucket: &[u8],
        verified: bool,
        note: &str,
        link_secret: &[u8],
        node_id: &str,
        node_naddr: &str,
        now_ms: i64,
    ) -> (r: Result<(), CoreError>)
        requires
            old(self).wf(),
        ensures
            final(self).wf(),
            r is Ok <==> identity_sized(identity@) && bucket@.len() == 32,
            r matches Err(e) ==> e is Config && e.text() == if !identity_sized(identity@) {
                "contact identity must be 32 or 33 bytes"@
            } else {
                "contact bucket must be 32 bytes"@
            },
            final(self)@ == if r is Ok {
                ContactState {
                    contacts: contacts_with(
                        old(self)@.contacts,
                        ContactData {
                            name: name@,
                            identity: identity@,
                            bucket: bucket@,
                            verified,
                            note: note@,
                            added_ms: now_ms,
                            link_secret: link_secret@,
                            node_id: node_id@,
                            node_naddr: node_naddr@,
                        },
                    ),
                    log: old(self)@.log,
                }
            } else {
                old(self)@
            },
    {
        if identity.len() != 32 && identity.len() != 33 {
            return Err(CoreError::Config("contact identity must be 32 or 33 bytes".to_owned()));
        }
        if bucket.len() != 32 {
            return Err(CoreError::Config("contact bucket must be 32 bytes".to_owned()));
        }
        let ghost was = self@;
        let mut c = ContactInfo {
            name: name.to_owned(),
            identity: to_vec(identity),
            bucket: to_vec(bucket),
            verified,
            note: note.to_owned(),
            added_ms: now_ms,
            link_secret: to_vec(link_secret),
            node_id: node_id.to_owned(),
            node_naddr: node_naddr.to_owned(),
        };
        let ghost wished = c@;
        match self.find(name) {
            Some(i) => {
                assert(was.contacts[i as int] == self.contacts@[i as int]@);
                c.added_ms = self.contacts[i].added_ms;
                self.contacts.set(i, c);
            },
            None => {
                self.contacts.push(c);
            },
        }
        proof {
            let now = self@;
            assert(now.contacts =~= contacts_with(was.contacts, wished));
            assert(now.log =~= was.log);
            assert forall|i: int, j: int| #![trigger now.contacts[i], now.contacts[j]]
                0 <= i < j < now.contacts.len() implies now.contacts[i].name
                != now.contacts[j].name by {
                if j < was.contacts.len() {
                    assert(was.contacts[i].name != was.contacts[j].name);
                } else {
                    assert(!contact_at(was.contacts, name@, i));
                }
            }
        }
        Ok(())
    }

    /// The contacts, those added first before the others.
    pub fn list(&self) -> (r: Vec<ContactInfo>)
        ensures
            contacts_said(r@) == by_added(self@.contacts),
    {
        let mut times: Vec<i64> = Vec::new();
        let mut i: usize = 0;
        let ghost all = self@.contacts;
        while i < self.contacts.len()
            invariant
                i <= self.contacts@.len(),
                all == self@.contacts,
                times@ == added_times(all).take(i as int),
            decreases self.contacts@.len() - i,
        {
            assert(all[i as int] == self.contacts@[i as int]@);
            times.push(self.contacts[i].added_ms);
            assert(times@ =~= added_times(all).take(i + 1));
            i = i + 1;
        }
        assert(added_times(all).take(i as int) =~= added_times(all));
        let order = order_of(&times);
        let mut out: Vec<ContactInfo> = Vec::new();
        let mut k: usize = 0;
        while k < order.len()
            invariant
                k <= order@.len(),
                all == self@.contacts,
                order@.len() == self.contacts@.len(),
                forall|j: int| 0 <= j < order@.len() ==> (#[trigger] order@[j]) < self.contacts@.len(),
                places(order@) == in_order(added_times(all)),
                contacts_said(out@) == by_added(all).take(k as int),
            decreases order@.len() - k,
        {
            let ghost had = out@;
            let p: usize = order[k];
            proof {
                assert(places(order@)[k as int] == p);
                assert(all[p as int] == self.contacts@[p as int]@);
            }
            out.push(self.contacts[p].clone());
            assert(contacts_said(out@) =~= contacts_said(had).push(all[p as int]));
            assert(contacts_said(out@) =~= by_added(all).take(k + 1));
            k = k + 1;
        }
        assert(by_added(all).take(k as int) =~= by_added(all));
        out
    }

    /// Notes whether the safety code of a contact has been compared.
    pub fn set_verified(&mut self, name: &str, verified: bool)
        requires
            old(self).wf(),
        ensures
            final(self).wf(),
            final(self)@ == (ContactState {
                contacts: if known(old(self)@.contacts, name@) {
                    let i = place_of(old(self)@.contacts, name@);
                    old(self)@.contacts.update(
                        i,
                        ContactData { verified, ..old(self)@.contacts[i] },
                    )
                } else {
                    old(self)@.contacts
                },
                log: old(self)@.log,
            }),
    {
        let ghost was = self@;
        if let Some(i) = self.find(name) {
            assert(was.contacts[i as int] == self.contacts@[i as int]@);
            self.contacts[i].verified = verified;
            proof {
                let now = self@;
                assert(now.contacts =~= was.contacts.update(
                    i as int,
                    ContactData { verified, ..was.contacts[i as int] },
                ));
                assert(now.log =~= was.log);
                assert forall|a: int, b: int| #![trigger now.contacts[a], now.contacts[b]]
                    0 <= a < b < now.contacts.len() implies now.contacts[a].name
                    != now.contacts[b].name by {
                    assert(was.contacts[a].name != was.contacts[b].name);
                }
            }
        }
    }

    /// Forgets a contact. The chat with them stays.
    pub fn delete(&mut self, name: &str)
        requires
            old(self).wf(),
        ensures
            final(self).wf(),
            final(self)@ == (ContactState {
                contacts: if known(old(self)@.contacts, name@) {
                    old(self)@.contacts.remove(place_of(old(self)@.contacts, name@))
                } else {
                    old(self)@.contacts
                },
                log: old(self)@.log,
            }),
    {
        let ghost was = self@;
        if let Some(i) = self.find(name) {
            let _gone = self.contacts.remove(i);
            proof {
                let now = self@;
                assert(now.contacts =~= was.contacts.remove(i as int));
                assert(now.log =~= was.log);
                assert forall|a: int, b: int| #![trigger now.contacts[a], now.contacts[b]]
                    0 <= a < b < now.contacts.len() implies now.contacts[a].name
                    != now.contacts[b].name by {
                    let x = if a < i {
                        a
                    } else {
                        a + 1
                    };
                    let y = if b < i {
                        b
                    } else {
                        b + 1
                    };
                    assert(was.contacts[x].name != was.contacts[y].name);
                }
            }
        }
    }

    /// Adds a line to a chat.
    pub fn append_message(&mut self, peer: &str, outgoing: bool, text: &str, now_ms: i64)
        ensures
            final(self)@ == (ContactState {
                contacts: old(self)@.contacts,
                log: old(self)@.log.push(
                    ChatData { peer: peer@, outgoing, text: text@, ts_ms: now_ms },
                ),
            }),
    {
        let ghost was = self@;
        let line = ChatMsg {
            peer: peer.to_owned(),
            outgoing,
            text: text.to_owned(),
            ts_ms: now_ms,
        };
        self.log.push(line);
        assert(self@.log =~= was.log.push(line@));
        assert(self@.contacts =~= was.contacts);
    }

    /// The last lines of a chat, oldest first. A negative limit means all of them.
    pub fn messages(&self, peer: &str, limit: i32) -> (r: Vec<ChatMsg>)
        ensures
            lines_said(r@) == last_lines(by_time(chat_with(self@.log, peer@)), limit),
    {
        let mut mine: Vec<usize> = Vec::new();
        let mut times: Vec<i64> = Vec::new();
        let ghost log = self@.log;
        let ghost keep = |m: ChatData| m.peer == peer@;
        let mut i: usize = 0;
        proof {
            reveal(Seq::filter);
            assert(log.take(0) =~= Seq::empty());
        }
        while i < self.log.len()
            invariant
                i <= self.log@.len(),
                log == self@.log,
                keep == (|m: ChatData| m.peer == peer@),
                mine@.len() == times@.len(),
                forall|k: int| 0 <= k < mine@.len() ==> (#[trigger] mine@[k]) < i,
                lines_at(log, mine@) == log.take(i as int).filter(keep),
                times@ == line_times(lines_at(log, mine@)),
            decreases self.log@.len() - i,
        {
            let ghost before_mine = mine@;
            proof {
                reveal(Seq::filter);
                assert(log[i as int] == self.log@[i as int]@);
                assert(log.take(i + 1).drop_last() =~= log.take(i as int));
                assert(log.take(i + 1).last() == log[i as int]);
            }
            if same_text(self.log[i].peer.as_str(), peer) {
                mine.push(i);
                times.push(self.log[i].ts_ms);
                assert(lines_at(log, mine@) =~= lines_at(log, before_mine).push(log[i as int]));
                assert(times@ =~= line_times(lines_at(log, mine@)));
            }
            i = i + 1;
        }
        assert(log.take(i as int) =~= log);
        let ghost chat = lines_at(log, mine@);
        let order = order_of(&times);
        let n: usize = order.len();
        let start: usize = if limit < 0 || n <= limit as usize {
            0
        } else {
            n - limit as usize
        };
        let mut out: Vec<ChatMsg> = Vec::new();
        let mut k: usize = start;
        assert(lines_said(out@) =~= by_time(chat).subrange(start as int, k as int));
        while k < n
            invariant
                start <= k <= n,
                n == order@.len(),
                n == mine@.len(),
                log == self@.log,
                log.len() == self.log@.len(),
                chat == lines_at(log, mine@),
                forall|j: int| 0 <= j < mine@.len() ==> (#[trigger] mine@[j]) < self.log@.len(),
                forall|j: int| 0 <= j < order@.len() ==> (#[trigger] order@[j]) < mine@.len(),
                places(order@) == in_order(line_times(chat)),
                lines_said(out@) == by_time(chat).subrange(start as int, k as int),
            decreases n - k,
        {
            let ghost had = out@;
            let q: usize = order[k];
            let p: usize = mine[q];
            proof {
                assert(places(order@)[k as int] == q);
                assert(chat[q as int] == log[p as int]);
                assert(log[p as int] == self.log@[p as int]@);
            }
            out.push(self.log[p].clone());
            assert(lines_said(out@) =~= lines_said(had).push(chat[q as int]));
            assert(lines_said(out@) =~= by_time(chat).subrange(start as int, k + 1));
            k = k + 1;
        }
        assert(lines_said(out@) =~= last_lines(by_time(chat), limit));
        out
    }

    /// The newest line of each chat, newest first.
    pub fn last_messages(&self) -> (r: Vec<ChatMsg>)
        ensures
            lines_said(r@) == newest_lines(self@.log),
    {
        let mut times: Vec<i64> = Vec::new();
        let mut i: usize = 0;
        let ghost log = self@.log;
        while i < self.log.len()
            invariant
                i <= self.log@.len(),
                log == self@.log,
                times@ == line_times(log).take(i as int),
            decreases self.log@.len() - i,
        {
            assert(log[i as int] == self.log@[i as int]@);
            times.push(self.log[i].ts_ms);
            assert(times@ =~= line_times(log).take(i + 1));
            i = i + 1;
        }
        assert(line_times(log).take(i as int) =~= line_times(log));
        let order = order_of(&times);
        let ghost newest = by_time(log).reverse();
        let mut out: Vec<ChatMsg> = Vec::new();
        let n: usize = order.len();
        let mut k: usize = 0;
        assert(newest.take(0) =~= Seq::empty());
        assert(lines_said(out@) =~= Seq::empty());
        while k < n
            invariant
                k <= n,
                n == order@.len(),
                n == self.log@.len(),
                log == self@.log,
                log.len() == n,
                newest == by_time(log).reverse(),
                newest.len() == n,
                forall|j: int| 0 <= j < order@.len() ==> (#[trigger] order@[j]) < self.log@.len(),
                places(order@) == in_order(line_times(log)),
                lines_said(out@) == first_of_each(newest.take(k as int)),
            decreases n - k,
        {
            let p: usize = order[n - 1 - k];
            let line: &ChatMsg = &self.log[p];
            proof {
                assert(places(order@)[n - 1 - k] == p);
                assert(log[p as int] == line@);
                assert(newest[k as int] == line@);
                assert(newest.take(k + 1).drop_last() =~= newest.take(k as int));
                assert(newest.take(k + 1).last() == line@);
                lemma_mentions_first(newest.take(k as int), line.peer@);
            }
            let mut seen: bool = false;
            let mut m: usize = 0;
            while m < out.len()
                invariant
                    m <= out@.len(),
                    seen == mentions(lines_said(out@).take(m as int), line.peer@),
                decreases out@.len() - m,
            {
                let same: bool = same_text(out[m].peer.as_str(), line.peer.as_str());
                proof {
                    let said = lines_said(out@);
                    lemma_mentions_push(said.take(m as int), said[m as int], line.peer@);
                    assert(said.take(m + 1) =~= said.take(m as int).push(said[m as int]));
                }
                seen = seen || same;
                m = m + 1;
            }
            assert(lines_said(out@).take(m as int) =~= lines_said(out@));
            if !seen {
                let ghost had = out@;
                out.push(line.clone());
                assert(lines_said(out@) =~= lines_said(had).push(line@));
            }
            k = k + 1;
        }
        assert(newest.take(k as int) =~= newest);
        out
    }
}

/// The lines at some places.
pub open spec fn lines_at(log: Seq<ChatData>, at: Seq<usize>) -> Seq<ChatData> {
    Seq::new(at.len(), |k: int| log[at[k] as int])
}

/// One more line adds its own contact.
proof fn lemma_mentions_push(s: Seq<ChatData>, m: ChatData, peer: Seq<char>)
    ensures
        mentions(s.push(m), peer) == (mentions(s, peer) || m.peer == peer),
{
    let t = s.push(m);
    if mentions(s, peer) {
        let i = choose|i: int| 0 <= i < s.len() && (#[trigger] s[i]).peer == peer;
        assert(t[i].peer == peer);
    }
    if mentions(t, peer) && m.peer != peer {
        let i = choose|i: int| 0 <= i < t.len() && (#[trigger] t[i]).peer == peer;
        assert(s[i].peer == peer);
    }
    assert(t[s.len() as int] == m);
}

/// The first lines of all chats have the same contacts as all lines.
proof fn lemma_mentions_first(s: Seq<ChatData>, peer: Seq<char>)
    ensures
        mentions(first_of_each(s), peer) == mentions(s, peer),
    decreases s.len(),
{
    if s.len() > 0 {
        let front = s.drop_last();
        lemma_mentions_first(front, peer);
        lemma_mentions_push(front, s.last(), peer);
        assert(front.push(s.last()) =~= s);
        lemma_mentions_push(first_of_each(front), s.last(), peer);
    }
}

/// Re-adding a contact replaces what is known of them and nothing else: there are as many contacts
/// as before, the contact has the new values, and the time of the first meeting stays.
pub proof fn law_adding_again_replaces(s: Seq<ContactData>, c: ContactData)
    requires
        names_distinct(s),
        known(s, c.name),
    ensures
        contacts_with(s, c).len() == s.len(),
        contacts_with(s, c)[place_of(s, c.name)] == (ContactData {
            added_ms: s[place_of(s, c.name)].added_ms,
            ..c
        }),
        forall|i: int|
            0 <= i < s.len() && i != place_of(s, c.name) ==> #[trigger] contacts_with(s, c)[i] == s[i],
{
    let i = place_of(s, c.name);
    assert(contact_at(s, c.name, i));
}

/// A chat is shown by time: of two lines the one with the earlier time stands first.
pub proof fn law_chat_is_by_time(chat: Seq<ChatData>, i: int, j: int)
    requires
        0 <= i < j < chat.len(),
    ensures
        by_time(chat).len() == chat.len(),
        by_time(chat)[i].ts_ms <= by_time(chat)[j].ts_ms,
{
    let times = line_times(chat);
    law_order_is_by_time(times);
    let order = in_order(times);
    assert(before(times, order[i], order[j]));
    assert(0 <= order[i] < times.len() && 0 <= order[j] < times.len());
}

/// The list of chats has one line for each contact that was written with.
pub proof fn law_one_line_per_chat(s: Seq<ChatData>)
    ensures
        forall|i: int, j: int|
            #![trigger first_of_each(s)[i], first_of_each(s)[j]]
            0 <= i < j < first_of_each(s).len() ==> first_of_each(s)[i].peer != first_of_each(
                s,
            )[j].peer,
        forall|peer: Seq<char>| #[trigger] mentions(first_of_each(s), peer) == mentions(s, peer),
    decreases s.len(),
{
    assert forall|peer: Seq<char>| #[trigger] mentions(first_of_each(s), peer) == mentions(s, peer) by {
        lemma_mentions_first(s, peer);
    }
    if s.len() > 0 {
        let front = s.drop_last();
        law_one_line_per_chat(front);
        let f = first_of_each(front);
        let g = first_of_each(s);
        assert forall|i: int, j: int| #![trigger g[i], g[j]]
            0 <= i < j < g.len() implies g[i].peer != g[j].peer by {
            if j < f.len() {
                assert(f[i].peer != f[j].peer);
            } else {
                lemma_mentions_first(front, s.last().peer);
                assert(g[i] == f[i]);
            }
        }
    }
}

/// Of the lines of a chat up to some place, one is shown in the list of first lines.
proof fn lemma_first_stands_before(s: Seq<ChatData>, i: int) -> (k: int)
    requires
        0 <= i < s.len(),
    ensures
        0 <= k <= i,
        s[k].peer == s[i].peer,
        first_of_each(s).contains(s[k]),
    decreases s.len(),
{
    let front = s.drop_last();
    let f = first_of_each(front);
    let g = first_of_each(s);
    if i < s.len() - 1 || mentions(front, s.last().peer) {
        let j = if i < s.len() - 1 {
            i
        } else {
            choose|j: int| 0 <= j < front.len() && (#[trigger] front[j]).peer == s.last().peer
        };
        let k = lemma_first_stands_before(front, j);
        let h = choose|h: int| 0 <= h < f.len() && f[h] == front[k];
        assert(g[h] == s[k]);
        k
    } else {
        assert(g[g.len() - 1] == s[i]);
        i
    }
}

/// The list of chats shows the newest line of each: no line of a chat is newer than the one that is
/// shown for it.
pub proof fn law_newest_line_is_shown(log: Seq<ChatData>, i: int)
    requires
        0 <= i < log.len(),
    ensures
        exists|h: int|
            0 <= h < newest_lines(log).len() && (#[trigger] newest_lines(log)[h]).peer == log[i].peer
                && newest_lines(log)[h].ts_ms >= log[i].ts_ms,
{
    let times = line_times(log);
    law_order_is_by_time(times);
    let order = in_order(times);
    assert(order.contains(i));
    let p = choose|p: int| 0 <= p < order.len() && order[p] == i;
    let sorted = by_time(log);
    let newest = sorted.reverse();
    let q = sorted.len() - 1 - p;
    assert(newest[q] == log[i]);
    let k = lemma_first_stands_before(newest, q);
    let h = choose|h: int| 0 <= h < newest_lines(log).len() && newest_lines(log)[h] == newest[k];
    assert(newest[k] == sorted[sorted.len() - 1 - k]);
    if k < q {
        law_chat_is_by_time(log, p, sorted.len() - 1 - k);
    }
    assert(newest_lines(log)[h].peer == log[i].peer);
}

/// Who is new stands behind the others, as they were given.
pub proof fn law_new_contact_comes_last(s: Seq<ContactData>, c: ContactData)
    requires
        forall|x: ContactData| #[trigger] s.contains(x) ==> x.name != c.name,
    ensures
        contacts_with(s, c) == s.push(c),
{
    if known(s, c.name) {
        let i = choose|i: int| #[trigger] contact_at(s, c.name, i);
        assert(s.contains(s[i]));
    }
}

/// Who is known is replaced where they stand, but for the time at which they were added.
pub proof fn law_known_contact_is_replaced(s: Seq<ContactData>, c: ContactData, i: int)
    requires
        names_distinct(s),
        0 <= i < s.len(),
        s[i].name == c.name,
    ensures
        contacts_with(s, c) == s.update(i, ContactData { added_ms: s[i].added_ms, ..c }),
{
    assert(contact_at(s, c.name, i));
    lemma_place_of(s, c.name, i);
}

/// The list of contacts holds each of them once, whoever was added earlier before whoever was added later,
/// and those of one time in the order in which they came.
pub proof fn law_list_is_by_added(s: Seq<ContactData>)
    ensures
        exists|p: Seq<int>|
            {
                &&& #[trigger] p.no_duplicates()
                &&& p.len() == s.len()
                &&& by_added(s).len() == s.len()
                &&& forall|k: int| 0 <= k < s.len() ==> 0 <= #[trigger] p[k] < s.len()
                &&& forall|k: int| 0 <= k < s.len() ==> #[trigger] by_added(s)[k] == s[p[k]]
                &&& forall|a: int, b: int|
                    #![trigger p[a], p[b]]
                    0 <= a < b < s.len() ==> s[p[a]].added_ms < s[p[b]].added_ms || (s[p[a]].added_ms
                        == s[p[b]].added_ms && p[a] < p[b])
            },
{
    let times = added_times(s);
    let p = in_order(times);
    law_every_place_has_its_turn(times);
    assert forall|a: int, b: int| #![trigger p[a], p[b]] 0 <= a < b < s.len() implies s[p[a]].added_ms
        < s[p[b]].added_ms || (s[p[a]].added_ms == s[p[b]].added_ms && p[a] < p[b]) by {
        assert(times[p[a]] == s[p[a]].added_ms && times[p[b]] == s[p[b]].added_ms);
    }
    assert(p.no_duplicates());
}

/// A chat by time holds each of its lines once, an earlier one before a later one, and those of one time in
/// the order in which they came.
pub proof fn law_chat_keeps_its_lines(s: Seq<ChatData>)
    ensures
        exists|p: Seq<int>|
            {
                &&& #[trigger] p.no_duplicates()
                &&& p.len() == s.len()
                &&& by_time(s).len() == s.len()
                &&& forall|k: int| 0 <= k < s.len() ==> 0 <= #[trigger] p[k] < s.len()
                &&& forall|k: int| 0 <= k < s.len() ==> #[trigger] by_time(s)[k] == s[p[k]]
                &&& forall|a: int, b: int|
                    #![trigger p[a], p[b]]
                    0 <= a < b < s.len() ==> s[p[a]].ts_ms < s[p[b]].ts_ms || (s[p[a]].ts_ms
                        == s[p[b]].ts_ms && p[a] < p[b])
            },
{
    let times = line_times(s);
    let p = in_order(times);
    law_every_place_has_its_turn(times);
    assert forall|a: int, b: int| #![trigger p[a], p[b]] 0 <= a < b < s.len() implies s[p[a]].ts_ms
        < s[p[b]].ts_ms || (s[p[a]].ts_ms == s[p[b]].ts_ms && p[a] < p[b]) by {
        assert(times[p[a]] == s[p[a]].ts_ms && times[p[b]] == s[p[b]].ts_ms);
    }
    assert(p.no_duplicates());
}

/// A chat grows by each line of its contact, and by no other.
pub proof fn law_chat_has_its_own_lines(log: Seq<ChatData>, peer: Seq<char>, m: ChatData)
    ensures
        chat_with(log, peer).contains(m) <==> log.contains(m) && m.peer == peer,
        chat_with(log.push(m), peer) == if m.peer == peer {
            chat_with(log, peer).push(m)
        } else {
            chat_with(log, peer)
        },
{
    lemma_filter_keeps(log, |x: ChatData| x.peer == peer, m);
    lemma_filter_push(log, m, |x: ChatData| x.peer == peer);
}

/// A limit leaves the last lines, as many as it says and as there are; one below zero leaves them all.
pub proof fn law_limit_leaves_the_last_lines(s: Seq<ChatData>, limit: i32, i: int)
    ensures
        limit < 0 ==> last_lines(s, limit) == s,
        limit >= 0 ==> last_lines(s, limit).len() == if s.len() < limit {
            s.len() as int
        } else {
            limit as int
        },
        0 <= i < last_lines(s, limit).len() ==> last_lines(s, limit)[i] == s[s.len() - last_lines(
            s,
            limit,
        ).len() + i],
{
}

/// The newest lines are lines of the log, the newest of them first.
pub proof fn law_newest_lines_go_back_in_time(log: Seq<ChatData>, i: int, j: int)
    requires
        0 <= i < j < newest_lines(log).len(),
    ensures
        log.contains(newest_lines(log)[i]),
        newest_lines(log)[i].ts_ms >= newest_lines(log)[j].ts_ms,
{
    let s = by_time(log).reverse();
    let p = in_order(line_times(log));
    law_every_place_has_its_turn(line_times(log));
    assert forall|a: int, b: int| 0 <= a < b < s.len() implies (#[trigger] s[a]).ts_ms >= (
    #[trigger] s[b]).ts_ms by {
        let (x, y) = (s.len() - 1 - b, s.len() - 1 - a);
        assert(s[b] == log[p[x]] && s[a] == log[p[y]]);
        assert(line_times(log)[p[x]] <= line_times(log)[p[y]]);
    }
    lemma_first_of_each_goes_down(s, i, j);
    let f = lemma_first_is_a_line(s, i);
    assert(s[f] == log[p[s.len() - 1 - f]]);
}

/// Every first line is a line.
proof fn lemma_first_is_a_line(s: Seq<ChatData>, i: int) -> (k: int)
    requires
        0 <= i < first_of_each(s).len(),
    ensures
        0 <= k < s.len(),
        s[k] == first_of_each(s)[i],
    decreases s.len(),
{
    let front = s.drop_last();
    if i < first_of_each(front).len() {
        let k = lemma_first_is_a_line(front, i);
        k
    } else {
        s.len() - 1
    }
}

/// First lines go back in time where all lines do.
proof fn lemma_first_of_each_goes_down(s: Seq<ChatData>, i: int, j: int)
    requires
        0 <= i < j < first_of_each(s).len(),
        forall|a: int, b: int|
            0 <= a < b < s.len() ==> (#[trigger] s[a]).ts_ms >= (#[trigger] s[b]).ts_ms,
    ensures
        first_of_each(s)[i].ts_ms >= first_of_each(s)[j].ts_ms,
    decreases s.len(),
{
    let front = s.drop_last();
    if j < first_of_each(front).len() {
        assert forall|a: int, b: int| 0 <= a < b < front.len() implies (#[trigger] front[a]).ts_ms >= (
        #[trigger] front[b]).ts_ms by {
            assert(s[a].ts_ms >= s[b].ts_ms);
        }
        lemma_first_of_each_goes_down(front, i, j);
    } else {
        let k = lemma_first_is_a_line(front, i);
        assert(s[k].ts_ms >= s[s.len() - 1].ts_ms);
    }
}

/// An identity has 32 bytes, or 33 with the byte that tells its type.
pub proof fn law_identity_is_a_key(identity: Seq<u8>)
    ensures
        identity_sized(identity) <==> 32 <= identity.len() <= 33,
{
}

} // verus!

//! What the library offers to a user interface: plain values in and out, keys and ids as
//! hexadecimal digits, and errors that a user can read.
use vstd::prelude::*;
use vstd::utf8::encode_utf8;
use crate::arith::same_bytes;
use crate::bytes::{to_array, to_vec};
use crate::clock::{ClockState, InternalClock};
use crate::crypto::{
    draw_array, ed25519_public, ed25519_signature, generator_failed, generator_gave, random_error_text,
};
use crate::contacts::{
    self, by_added, by_time, chat_with, contacts_with, identity_sized, known, last_lines, newest_lines, place_of,
    ChatData, ContactData, ContactState,
};
use crate::delivery::{
    cleaned, is_round, takes_all, without_dead, CleanupReport, DeliveryManager, TickReport,
    DEFAULT_BATCH_LIMIT,
};
use crate::envelope::{Envelope, MsgId};
use crate::handshake;
use crate::identity::{
    contents, fingerprint1024, fingerprint_input, fingerprint_of, law_fingerprint_keeps_parts_apart,
    Identity, NodeId,
};
use crate::mailbox::{
    law_mac_binds_everything, sig_fits, BucketWrite, BucketWriteData, MailboxRead,
};
use crate::maildrop::{
    after_cursor, announces, drawn_at_random, kept_said, ledgers_with, read_accepts, reads_after,
    seal_announcement_write, writes_said, InMemoryBucketStorage, KeptLedger, MailboxError,
    MailboxManager,
};
use crate::node::{node_id_of_naddr, snapshot, tells};
use crate::nodekey::{
    current_key_of, slot_after, AnnouncementData, AnnouncementDispatcher, NodeKeyAnnouncement,
    DEFAULT_OVERLAP_MS,
};
use crate::queue::{
    count_in, first_wanted, queued, revived_row, row_changed, row_place, Db, DbState, RowState, StoredData,
};
use crate::retry::RetryPolicy;
use crate::text::{
    ascii, ascii_bytes, digit_value, hex, hex_text, holds_text, is_space,
    law_holding_is_standing_somewhere, law_pairs_of_digits_are_bytes, trim, trimmed, unhex, unhex_bytes,
};
use crate::CoreError;

verus! {

/// The version of the library.
pub const APP_VERSION: &'static str = "0.1.0";

/// What the library is.
#[derive(Debug, Clone, Copy)]
pub struct CoreInfo;

impl CoreInfo {
    pub fn new() -> (r: CoreInfo) {
        CoreInfo
    }

    pub fn version(&self) -> (r: String)
        ensures
            r@ == APP_VERSION@,
    {
        APP_VERSION.to_owned()
    }

    pub fn license(&self) -> (r: String)
        ensures
            r@ == "AGPL-3.0-or-later"@,
    {
        "AGPL-3.0-or-later".to_owned()
    }
}

/// What can go wrong for a user. That a contact's identity has changed is told apart from the
/// rest: it calls for another comparison of the safety code.
#[derive(Debug)]
pub enum DcError {
    Core { msg: String },
    RemoteIdentityChanged { name: String },
}

impl DcError {
    /// The message for a user.
    pub open spec fn text(self) -> Seq<char> {
        match self {
            DcError::Core { msg } => msg@,
            DcError::RemoteIdentityChanged { name } => "对方身份已变更（"@ + name@
                + " 已绑定不同的长期身份钥），需重新带外验证"@,
        }
    }

    /// The message for a user.
    pub fn message(&self) -> (r: String)
        ensures
            r@ == self.text(),
    {
        match self {
            DcError::Core { msg } => msg.as_str().to_owned(),
            DcError::RemoteIdentityChanged { name } => {
                let mut out = "对方身份已变更（".to_owned();
                out.append(name.as_str());
                out.append(" 已绑定不同的长期身份钥），需重新带外验证");
                out
            },
        }
    }
}

/// An error for a user tells an error of the core.
pub open spec fn tells_core_fault(e: DcError, fault: CoreError) -> bool {
    &&& (e is RemoteIdentityChanged) == (fault is IdentityChanged)
    &&& e.text() == fault.frame_text().0 + fault.text() + fault.frame_text().1
}

/// An error of the core, for a user. Its message stays the same.
pub fn map_err(e: CoreError) -> (r: DcError)
    ensures
        tells_core_fault(r, e),
{
    match e {
        CoreError::IdentityChanged(name) => DcError::RemoteIdentityChanged { name },
        other => DcError::Core { msg: other.message() },
    }
}

/// A refusal of the mailbox, for a user.
pub fn map_refusal(e: MailboxError) -> (r: DcError)
    ensures
        r is Core,
        r.text() == e.text(),
{
    DcError::Core { msg: e.message() }
}

/// The bytes that hexadecimal digits stand for, white space around them aside.
pub open spec fn hex_value(s: Seq<char>) -> Option<Seq<u8>> {
    unhex_bytes(trimmed(s))
}

/// The bytes that hexadecimal digits stand for, white space around them aside.
fn hex_bytes(s: &str) -> (r: Option<Vec<u8>>)
    ensures
        match r {
            Some(v) => hex_value(s@) == Some(v@),
            None => hex_value(s@) is None,
        },
{
    let v = trim(s);
    unhex(v.as_slice())
}

/// Digits stand for a key of 32 bytes.
pub open spec fn is_key_text(s: Seq<char>) -> bool {
    hex_value(s) matches Some(b) && b.len() == 32
}

/// A key of 32 bytes from its digits.
pub fn hex_decode_32(s: &str) -> (r: Option<[u8; 32]>)
    ensures
        match r {
            Some(k) => is_key_text(s@) && hex_value(s@) == Some(k@),
            None => !is_key_text(s@),
        },
{
    match hex_bytes(s) {
        Some(b) => if b.len() == 32 {
            let k: [u8; 32] = to_array::<32>(b.as_slice());
            assert(k@ =~= b@);
            Some(k)
        } else {
            None
        },
        None => None,
    }
}

/// A message id of 16 bytes from its digits.
pub fn hex_decode_16(s: &str) -> (r: Option<MsgId>)
    ensures
        match r {
            Some(k) => hex_value(s@) == Some(k@),
            None => !(hex_value(s@) matches Some(b) && b.len() == 16),
        },
{
    match hex_bytes(s) {
        Some(b) => if b.len() == 16 {
            let k: [u8; 16] = to_array::<16>(b.as_slice());
            assert(k@ =~= b@);
            Some(k)
        } else {
            None
        },
        None => None,
    }
}

/// What is wrong with an argument that should be a key.
pub open spec fn key_fault(name: Seq<char>) -> Seq<char> {
    name + " 必须是 64 个 hex 字符（32 字节）"@
}

/// An error tells that an argument is no key.
pub open spec fn tells_key_fault(e: DcError, name: Seq<char>) -> bool {
    e is Core && e.text() == key_fault(name)
}

/// A key from an argument of the given name.
pub fn hex_arg_32(s: &str, name: &str) -> (r: Result<[u8; 32], DcError>)
    ensures
        match r {
            Ok(k) => is_key_text(s@) && hex_value(s@) == Some(k@),
            Err(e) => !is_key_text(s@) && tells_key_fault(e, name@),
        },
{
    match hex_decode_32(s) {
        Some(k) => Ok(k),
        None => {
            let mut out = name.to_owned();
            out.append(" 必须是 64 个 hex 字符（32 字节）");
            Err(DcError::Core { msg: out })
        },
    }
}

/// Digits of a key stand for the key, whatever white space stands around them.
pub proof fn law_key_text_round_trip(key: Seq<u8>)
    requires
        key.len() == 32,
    ensures
        is_key_text(hex_text(key)),
        hex_value(hex_text(key)) == Some(key),
{
    crate::text::law_hex_round_trip(key);
    crate::text::lemma_hex_len(key);
    lemma_hex_has_no_space(key);
    let t = hex_text(key);
    assert(!is_space(t[0]));
    assert(!is_space(t[t.len() - 1]));
}

/// No digit is white space.
proof fn lemma_hex_has_no_space(key: Seq<u8>)
    ensures
        forall|i: int| 0 <= i < hex_text(key).len() ==> !is_space(#[trigger] hex_text(key)[i]),
    decreases key.len(),
{
    if key.len() > 0 {
        let t = hex_text(key);
        let front = hex_text(key.drop_last());
        lemma_hex_has_no_space(key.drop_last());
        assert forall|i: int| 0 <= i < t.len() implies !is_space(#[trigger] t[i]) by {
            if i < front.len() {
                assert(t[i] == front[i]);
            }
        }
    }
}

/// How many accepted writes are remembered.
pub const ACCEPTED_CAP: usize = 65_536;

/// The parts of a write that its fingerprint covers: all that it says.
pub open spec fn write_parts(write: BucketWriteData) -> Seq<Seq<u8>> {
    seq![ascii("dc-gate-accepted-v1"@), write.mac_input(), write.mac@]
}

/// What an accepted write is remembered by: a fingerprint of all of it.
pub open spec fn write_key(write: BucketWriteData) -> Seq<u8> {
    fingerprint_of(write_parts(write)).take(32)
}

/// The fingerprint of a write.
fn key_of_write(write: &BucketWrite) -> (r: [u8; 32])
    ensures
        r@ == write_key(write@),
{
    let tag = ascii_bytes("dc-gate-accepted-v1");
    let input = write.mac_input();
    let parts: [&[u8]; 3] = [tag.as_slice(), input.as_slice(), write.mac.as_slice()];
    let f = fingerprint1024(parts.as_slice());
    assert(contents(parts@) =~= write_parts(write@));
    to_array::<32>(f.as_slice())
}

/// The fingerprint of a write covers every field: writes whose fingerprints are made of the same
/// bytes are the same.
pub proof fn law_fingerprint_binds_the_write(a: BucketWriteData, b: BucketWriteData)
    requires
        sig_fits(a.envelope.sig),
        sig_fits(b.envelope.sig),
        a.mac_input().len() <= u64::MAX,
        b.mac_input().len() <= u64::MAX,
        fingerprint_input(write_parts(a)) == fingerprint_input(write_parts(b)),
    ensures
        a == b,
{
    let (p, q) = (write_parts(a), write_parts(b));
    assert(ascii("dc-gate-accepted-v1"@).len() == 19) by {
        reveal_strlit("dc-gate-accepted-v1");
    }
    law_fingerprint_keeps_parts_apart(p, q);
    assert(p[1] == q[1] && p[2] == q[2]);
    law_mac_binds_everything(a, b);
    assert(a.mac =~= b.mac);
}

/// The writes that passed the mailbox's checks, by their fingerprints. Only these may be stored.
/// When there are too many, the oldest one is forgotten.
pub struct AcceptedWrites {
    keys: Vec<[u8; 32]>,
}

/// Keys as byte strings.
pub open spec fn keys_said(v: Seq<[u8; 32]>) -> Seq<Seq<u8>> {
    Seq::new(v.len(), |i: int| v[i]@)
}

/// What is remembered after a write was accepted.
pub open spec fn accepted_with(keys: Seq<Seq<u8>>, key: Seq<u8>) -> Seq<Seq<u8>> {
    if keys.contains(key) {
        keys
    } else if keys.len() < ACCEPTED_CAP {
        keys.push(key)
    } else {
        keys.push(key).drop_first()
    }
}

impl AcceptedWrites {
    /// The remembered fingerprints, oldest first.
    pub closed spec fn keys(self) -> Seq<Seq<u8>> {
        keys_said(self.keys@)
    }

    /// No more is remembered than should be.
    pub open spec fn wf(self) -> bool {
        self.keys().len() <= ACCEPTED_CAP
    }

    pub fn new() -> (r: AcceptedWrites)
        ensures
            r.wf(),
            r.keys() == Seq::<Seq<u8>>::empty(),
    {
        let r = AcceptedWrites { keys: Vec::new() };
        assert(r.keys() =~= Seq::<Seq<u8>>::empty());
        r
    }

    /// Whether a write has been accepted.
    pub fn was_accepted(&self, write: &BucketWrite) -> (r: bool)
        ensures
            r == self.keys().contains(write_key(write@)),
    {
        let key = key_of_write(write);
        self.holds(&key)
    }

    fn holds(&self, key: &[u8; 32]) -> (r: bool)
        ensures
            r == self.keys().contains(key@),
    {
        let mut i: usize = 0;
        let ghost all = self.keys();
        while i < self.keys.len()
            invariant
                i <= self.keys@.len(),
                all == self.keys(),
                forall|k: int| 0 <= k < i ==> #[trigger] all[k] != key@,
            decreases self.keys@.len() - i,
        {
            assert(all[i as int] == self.keys@[i as int]@);
            if same_bytes(&self.keys[i], key) {
                return true;
            }
            proof {
                if self.keys@[i as int]@ == key@ {
                    assert(self.keys@[i as int] =~= *key);
                }
            }
            i = i + 1;
        }
        false
    }

    /// Remembers an accepted write.
    pub fn register(&mut self, write: &BucketWrite)
        requires
            old(self).wf(),
        ensures
            final(self).wf(),
            final(self).keys() == accepted_with(old(self).keys(), write_key(write@)),
    {
        let key = key_of_write(write);
        if self.holds(&key) {
            return;
        }
        let ghost was = self.keys();
        self.keys.push(key);
        assert(self.keys() =~= was.push(key@));
        if self.keys.len() > ACCEPTED_CAP {
            let _oldest = self.keys.remove(0);
            assert(self.keys() =~= was.push(key@).drop_first());
        }
    }
}

/// A write that was accepted can be stored right away.
pub proof fn law_accepted_write_is_remembered(keys: Seq<Seq<u8>>, key: Seq<u8>)
    requires
        keys.len() <= ACCEPTED_CAP,
    ensures
        accepted_with(keys, key).contains(key),
        accepted_with(keys, key).len() <= ACCEPTED_CAP,
{
    let after = accepted_with(keys, key);
    if !keys.contains(key) {
        assert(after[after.len() - 1] == key);
    }
}

/// What is remembered after some writes were accepted, one after the other.
pub open spec fn accepted_after_all(writes: Seq<BucketWriteData>) -> Seq<Seq<u8>>
    decreases writes.len(),
{
    if writes.len() == 0 {
        Seq::empty()
    } else {
        accepted_with(accepted_after_all(writes.drop_last()), write_key(writes.last()))
    }
}

/// Only what was accepted may be stored: a fingerprint that is remembered is that of one of the
/// writes that were accepted.
pub proof fn law_only_accepted_writes_are_remembered(writes: Seq<BucketWriteData>, key: Seq<u8>)
    requires
        accepted_after_all(writes).contains(key),
    ensures
        exists|i: int| 0 <= i < writes.len() && write_key(#[trigger] writes[i]) == key,
    decreases writes.len(),
{
    if writes.len() > 0 {
        let front = writes.drop_last();
        let before = accepted_after_all(front);
        let last = write_key(writes.last());
        let after = accepted_with(before, last);
        let k = choose|k: int| 0 <= k < after.len() && after[k] == key;
        if key == last {
            assert(writes[writes.len() - 1] == writes.last());
        } else {
            if before.contains(last) {
                assert(before[k] == key);
            } else if before.len() < ACCEPTED_CAP {
                assert(before[k] == key);
            } else {
                assert(before.push(last)[k + 1] == key);
                assert(before[k + 1] == key);
            }
            law_only_accepted_writes_are_remembered(front, key);
            let i = choose|i: int| 0 <= i < front.len() && write_key(#[trigger] front[i]) == key;
            assert(writes[i] == front[i]);
        }
    }
}

/// The mailbox of a node as an interface uses it: the local clock goes through the internal clock
/// first, so that setting it back opens no window.
pub struct MailboxManagerHandle {
    inner: MailboxManager,
    clock: InternalClock,
}

impl MailboxManagerHandle {
    /// The mailbox.
    pub closed spec fn mailbox(self) -> MailboxManager {
        self.inner
    }

    /// The internal clock.
    pub closed spec fn clock(self) -> InternalClock {
        self.clock
    }

    /// The invariant of the handle.
    pub open spec fn wf(self) -> bool {
        self.mailbox().wf() && self.clock().wf()
    }

    /// The time at which a write is judged when the local clock reads `local_ms`.
    pub open spec fn judged_at(self, local_ms: u64) -> u64 {
        self.clock()@.told(local_ms as i64) as u64
    }

    pub fn new(cap: u32) -> (r: MailboxManagerHandle)
        ensures
            r.wf(),
            r.mailbox().ledgers() == Seq::<(NodeId, Seq<crate::mailbox::LedgerEntry>)>::empty(),
            r.mailbox().rates() == Seq::<crate::maildrop::PairRate>::empty(),
            r.mailbox().reads() == Seq::<(NodeId, Seq<MsgId>)>::empty(),
            r.clock()@ == ClockState::initial(),
    {
        MailboxManagerHandle {
            inner: MailboxManager::new(cap as usize),
            clock: InternalClock::new(),
        }
    }

    /// Judges a write. An accepted one is remembered, so that it may be stored.
    pub fn submit(
        &mut self,
        write: &BucketWrite,
        secret_hex: &str,
        local_ms: u64,
        accepted: &mut AcceptedWrites,
    ) -> (r: Result<String, DcError>)
        requires
            old(self).wf(),
            old(accepted).wf(),
        ensures
            final(self).wf(),
            final(accepted).wf(),
            final(self).mailbox().reads() == old(self).mailbox().reads(),
            !is_key_text(secret_hex@) ==> {
                &&& r matches Err(e) && tells_key_fault(e, "secret_hex"@)
                &&& *final(self) == *old(self)
                &&& *final(accepted) == *old(accepted)
            },
            is_key_text(secret_hex@) ==> {
                let secret = hex_value(secret_hex@)->0;
                let pair = crate::maildrop::pair_of(secret);
                let ledger = crate::maildrop::line_of(old(self).mailbox().ledgers(), pair);
                let now_ms = old(self).judged_at(local_ms);
                &&& final(self).clock()@ == old(self).clock()@.after_now(local_ms as i64)
                &&& r is Ok <==> write@.passes(secret, now_ms) && crate::mailbox::ledger_accepts(
                    ledger,
                    write.envelope.msg_id,
                    now_ms,
                ) && crate::maildrop::rate_allows(old(self).mailbox().rates(), pair, now_ms)
                &&& r matches Ok(s) ==> s@ == "accepted"@
                &&& r matches Err(e) ==> e is Core && e.text() == (if !write@.authentic(secret) {
                    MailboxError::MacMismatch
                } else if !crate::mailbox::in_window(write.ts_ms, now_ms) {
                    MailboxError::WindowExceeded
                } else if !crate::mailbox::ledger_accepts(
                    ledger,
                    write.envelope.msg_id,
                    now_ms,
                ) {
                    MailboxError::ReplayRejected
                } else {
                    MailboxError::RateLimited
                }).text()
                &&& final(self).mailbox().ledgers() == if write@.passes(secret, now_ms) {
                    crate::maildrop::ledgers_after(
                        old(self).mailbox().ledgers(),
                        pair,
                        write.envelope.msg_id,
                        write.ts_ms,
                        now_ms,
                    )
                } else {
                    old(self).mailbox().ledgers()
                }
                &&& final(self).mailbox().rates() == if write@.passes(secret, now_ms)
                    && crate::mailbox::ledger_accepts(ledger, write.envelope.msg_id, now_ms) {
                    crate::maildrop::rates_after(old(self).mailbox().rates(), pair, now_ms)
                } else {
                    old(self).mailbox().rates()
                }
                &&& final(accepted).keys() == if r is Ok {
                    accepted_with(old(accepted).keys(), write_key(write@))
                } else {
                    old(accepted).keys()
                }
            },
    {
        let secret: [u8; 32] = hex_arg_32(secret_hex, "secret_hex")?;
        let now_ms: u64 = self.clock.now(local_ms as i64) as u64;
        match self.inner.submit_write(write, &secret, now_ms) {
            Ok(_) => {
                accepted.register(write);
                Ok("accepted".to_owned())
            },
            Err(e) => Err(map_refusal(e)),
        }
    }

    /// The ledgers of messages, to be kept over a restart.
    pub fn export_ledger(&self) -> (r: Vec<KeptLedger>)
        ensures
            kept_said(r@) == self.mailbox().ledgers(),
    {
        self.inner.export_ledger()
    }

    /// Takes ledgers up that were kept over a restart.
    pub fn import_ledger(&mut self, kept: &Vec<KeptLedger>)
        requires
            old(self).wf(),
        ensures
            final(self).wf(),
            final(self).clock() == old(self).clock(),
            final(self).mailbox().ledgers() == ledgers_with(
                old(self).mailbox().ledgers(),
                kept_said(kept@),
            ),
            final(self).mailbox().rates() == old(self).mailbox().rates(),
            final(self).mailbox().reads() == old(self).mailbox().reads(),
    {
        self.inner.import_ledger(kept);
    }
}

/// The buckets of a node as an interface uses them.
pub struct BucketStorageHandle {
    storage: InMemoryBucketStorage,
    reads: MailboxManager,
}

impl BucketStorageHandle {
    /// What is stored.
    pub closed spec fn stored(self) -> InMemoryBucketStorage {
        self.storage
    }

    /// The remembered read requests.
    pub closed spec fn reads(self) -> crate::maildrop::PerPair<crate::envelope::MsgId> {
        self.reads.reads()
    }

    /// The invariant of the handle.
    pub closed spec fn wf(self) -> bool {
        self.reads.wf()
    }

    pub fn new() -> (r: BucketStorageHandle)
        ensures
            r.wf(),
            r.stored().said() == Seq::<(NodeId, BucketWriteData)>::empty(),
            r.reads() == Seq::<(NodeId, Seq<crate::envelope::MsgId>)>::empty(),
    {
        BucketStorageHandle {
            storage: InMemoryBucketStorage::new(),
            reads: MailboxManager::new(1024),
        }
    }

    /// Stores a write that has been accepted, and says which number it got in its bucket. A write
    /// that was not accepted, or was altered since, is refused.
    pub fn store_write(
        &mut self,
        bucket_hex: &str,
        write: &BucketWrite,
        accepted: &AcceptedWrites,
    ) -> (r: Result<u64, DcError>)
        requires
            old(self).wf(),
        ensures
            final(self).wf(),
            final(self).reads() == old(self).reads(),
            match r {
                Ok(n) => {
                    &&& is_key_text(bucket_hex@)
                    &&& accepted.keys().contains(write_key(write@))
                    &&& final(self).stored().said().len() == old(self).stored().said().len() + 1
                    &&& final(self).stored().said().drop_last() == old(self).stored().said()
                    &&& hex_value(bucket_hex@) == Some(final(self).stored().said().last().0@)
                    &&& final(self).stored().said().last().1 == write@
                    &&& n == final(self).stored().bucket(final(self).stored().said().last().0).len()
                },
                Err(e) => {
                    &&& final(self).stored() == old(self).stored()
                    &&& if !is_key_text(bucket_hex@) {
                        tells_key_fault(e, "bucket_hex"@)
                    } else {
                        &&& !accepted.keys().contains(write_key(write@))
                        &&& e is Core
                        &&& e.text() == "写未经门禁验收：必须先经 submit() 放行后原样入库"@
                    }
                },
            },
    {
        let bucket: [u8; 32] = hex_arg_32(bucket_hex, "bucket_hex")?;
        if !accepted.was_accepted(write) {
            return Err(
                DcError::Core {
                    msg: "写未经门禁验收：必须先经 submit() 放行后原样入库".to_owned(),
                },
            );
        }
        let n: u64 = self.storage.store(&bucket, write);
        assert(self.storage.said().drop_last() =~= old(self).storage.said());
        Ok(n)
    }

    /// Stores an announcement that this node makes itself.
    fn store_own(&mut self, bucket: &NodeId, write: &BucketWrite) -> (r: u64)
        requires
            old(self).wf(),
        ensures
            final(self).wf(),
            final(self).reads() == old(self).reads(),
            final(self).stored().said() == old(self).stored().said().push((*bucket, write@)),
            r == final(self).stored().bucket(*bucket).len(),
    {
        self.storage.store(bucket, write)
    }

    /// How many writes a bucket holds.
    pub fn count(&self, bucket_hex: &str) -> (r: Result<u64, DcError>)
        ensures
            match r {
                Ok(n) => is_key_text(bucket_hex@) && forall|bucket: NodeId|
                    hex_value(bucket_hex@) == Some(bucket@) ==> n == #[trigger] self.stored().bucket(
                        bucket,
                    ).len(),
                Err(e) => !is_key_text(bucket_hex@) && tells_key_fault(e, "bucket_hex"@),
            },
    {
        let bucket: [u8; 32] = hex_arg_32(bucket_hex, "bucket_hex")?;
        proof {
            assert forall|other: NodeId| hex_value(bucket_hex@) == Some(other@) implies other
                == bucket by {
                assert(other =~= bucket);
            }
        }
        Ok(self.storage.count(&bucket))
    }

    /// Reads a bucket. The cursor has to be the one that the request was made for.
    pub fn read_bucket(&mut self, read: &MailboxRead, secret_hex: &str, cursor: u64) -> (r: Result<
        Vec<BucketWrite>,
        DcError,
    >)
        requires
            old(self).wf(),
        ensures
            final(self).wf(),
            final(self).stored() == old(self).stored(),
            match r {
                Ok(writes) => {
                    &&& is_key_text(secret_hex@)
                    &&& read.cursor == cursor
                    &&& read.authentic(hex_value(secret_hex@)->0)
                    &&& read_accepts(
                        old(self).reads(),
                        crate::maildrop::pair_of(hex_value(secret_hex@)->0),
                        read.nonce,
                    )
                    &&& final(self).reads() == reads_after(
                        old(self).reads(),
                        crate::maildrop::pair_of(hex_value(secret_hex@)->0),
                        read.nonce,
                    )
                    &&& writes_said(writes@) == after_cursor(
                        old(self).stored().bucket(read.bucket),
                        cursor,
                    )
                },
                Err(e) => {
                    &&& final(self).reads() == old(self).reads()
                    &&& if !is_key_text(secret_hex@) {
                        tells_key_fault(e, "secret_hex"@)
                    } else {
                        &&& e is Core
                        &&& if read.cursor != cursor {
                            e.text() == "cursor 与读取请求中 MAC 绑定的游标不一致"@
                        } else if !read.authentic(hex_value(secret_hex@)->0) {
                            e.text() == MailboxError::MacMismatch.text()
                        } else {
                            &&& !read_accepts(
                        old(self).reads(),
                        crate::maildrop::pair_of(hex_value(secret_hex@)->0),
                        read.nonce,
                    )
                            &&& e.text() == MailboxError::ReplayRejected.text()
                        }
                    }
                },
            },
    {
        let secret: [u8; 32] = hex_arg_32(secret_hex, "secret_hex")?;
        if read.cursor != cursor {
            return Err(
                DcError::Core { msg: "cursor 与读取请求中 MAC 绑定的游标不一致".to_owned() },
            );
        }
        match self.reads.read_bucket(read, &secret, &self.storage) {
            Ok(writes) => Ok(writes),
            Err(e) => Err(map_refusal(e)),
        }
    }
}

/// Makes a request to read a bucket, with a random nonce.
pub fn seal_bucket_read(bucket_hex: &str, secret_hex: &str, serial: u32, cursor: u64) -> (r: Result<
    MailboxRead,
    DcError,
>)
    ensures
        match r {
            Ok(read) => {
                &&& hex_value(bucket_hex@) == Some(read.bucket@)
                &&& is_key_text(secret_hex@)
                &&& read.serial == serial
                &&& read.cursor == cursor
                &&& read.authentic(hex_value(secret_hex@)->0)
                &&& generator_gave(16, read.nonce@)
            },
            Err(e) => {
                &&& e is Core
                &&& if !is_key_text(bucket_hex@) {
                    tells_key_fault(e, "bucket_hex"@)
                } else if !is_key_text(secret_hex@) {
                    tells_key_fault(e, "secret_hex"@)
                } else {
                    generator_failed(16) && "读取 nonce 生成失败: "@.is_prefix_of(e.text())
                }
            },
        },
{
    let bucket: [u8; 32] = hex_arg_32(bucket_hex, "bucket_hex")?;
    let secret: [u8; 32] = hex_arg_32(secret_hex, "secret_hex")?;
    let nonce: [u8; 16] = match draw_array::<16>() {
        Ok(n) => n,
        Err(e) => {
            let mut out = "读取 nonce 生成失败: ".to_owned();
            out.append(random_error_text(&e).as_str());
            return Err(DcError::Core { msg: out });
        },
    };
    Ok(MailboxRead::seal_read_serial(bucket, &secret, serial, cursor, nonce))
}

/// The announcements of this node's keys as an interface makes them. The secret seed of the
/// identity is handed in with each call and not kept.
pub struct AnnouncementDispatcherHandle {
    inner: AnnouncementDispatcher,
}

/// An announcement is the next one of a dispatcher, for the identity of a seed and a node key.
pub open spec fn is_rotation(
    ann: AnnouncementData,
    seed: Seq<u8>,
    node_key: Seq<u8>,
    serial: int,
    now_ms: u64,
) -> bool {
    &&& ann.identity@ == ed25519_public(seed)
    &&& ann.node_key@ == node_key
    &&& ann.serial == serial
    &&& ann == AnnouncementData::draft(
        ann.identity,
        ann.node_key,
        ann.serial,
        now_ms,
        DEFAULT_OVERLAP_MS,
    ).with_sig(ann.sig)
    &&& ann.sig == ed25519_signature(seed, ann.signing_payload())
    &&& ann.acceptable(now_ms)
}

/// A dispatcher has announced a new key: the announcement has the next serial and is the one to dial
/// by, and nothing has changed for other identities.
pub open spec fn has_rotated(
    was: AnnouncementDispatcher,
    now: AnnouncementDispatcher,
    ann: AnnouncementData,
    seed: Seq<u8>,
    node_key: Seq<u8>,
    now_ms: u64,
) -> bool {
    &&& now.serial() == was.serial() + 1
    &&& is_rotation(ann, seed, node_key, now.serial() as int, now_ms)
    &&& current_key_of(now.known().slot(ann.identity), now_ms) == Some(ann.node_key)
    &&& forall|id: NodeId| #[trigger]
        now.known().slot(id) == if id == ann.identity {
            slot_after(was.known().slot(id), ann, now_ms)
        } else {
            was.known().slot(id)
        }
}

/// A dispatcher could not announce a new key, and an error says so.
pub open spec fn tells_failed_rotation(
    e: DcError,
    was: AnnouncementDispatcher,
    seed: Seq<u8>,
    node_key: Seq<u8>,
    now_ms: u64,
) -> bool {
    &&& was.cannot_rotate(seed, node_key, now_ms)
    &&& exists|fault: CoreError| #[trigger]
        tells_core_fault(e, fault) && fault is Crypto && (was.serial() == u64::MAX ==> fault.text()
            == "announcement serial exhausted"@)
}

/// A new key was not announced, or its announcement was not stored: the rotation failed, or the
/// announcement cannot be encoded, or the generator gave no message id or nonce.
pub open spec fn distribution_fails<F: Fn(&NodeKeyAnnouncement) -> Result<Vec<u8>, CoreError>>(
    e: DcError,
    encode: F,
    was: AnnouncementDispatcher,
    now: AnnouncementDispatcher,
    seed: Seq<u8>,
    node_key: Seq<u8>,
    now_ms: u64,
) -> bool {
    ||| now.same(was) && tells_failed_rotation(e, was, seed, node_key, now_ms)
    ||| exists|ann: NodeKeyAnnouncement, fault: CoreError|
        {
            &&& #[trigger] encode.ensures((&ann,), Err(fault))
            &&& has_rotated(was, now, ann@, seed, node_key, now_ms)
            &&& tells_core_fault(e, fault)
        }
    ||| generator_failed(16) && exists|ann: NodeKeyAnnouncement, encoded: Vec<u8>, fault: CoreError|
        {
            &&& #[trigger] encode.ensures((&ann,), Ok(encoded))
            &&& has_rotated(was, now, ann@, seed, node_key, now_ms)
            &&& #[trigger] tells_core_fault(e, fault)
            &&& fault is Entropy
        }
}

impl AnnouncementDispatcherHandle {
    /// The dispatcher.
    pub closed spec fn dispatcher(self) -> AnnouncementDispatcher {
        self.inner
    }

    /// The invariant of the handle.
    pub open spec fn wf(self) -> bool {
        self.dispatcher().wf()
    }

    pub fn new() -> (r: AnnouncementDispatcherHandle)
        ensures
            r.wf(),
            r.dispatcher().serial() == 0,
            forall|id: NodeId|
                r.dispatcher().known().slot(id) == Seq::<AnnouncementData>::empty(),
    {
        AnnouncementDispatcherHandle { inner: AnnouncementDispatcher::new() }
    }

    /// Announces a new node key for an identity.
    pub fn rotate(&mut self, identity_seed_hex: &str, new_node_key_hex: &str, now_ms: u64) -> (r:
        Result<NodeKeyAnnouncement, DcError>)
        requires
            old(self).wf(),
        ensures
            final(self).wf(),
            match r {
                Ok(ann) => {
                    &&& is_key_text(identity_seed_hex@)
                    &&& is_key_text(new_node_key_hex@)
                    &&& has_rotated(
                        old(self).dispatcher(),
                        final(self).dispatcher(),
                        ann@,
                        hex_value(identity_seed_hex@)->0,
                        hex_value(new_node_key_hex@)->0,
                        now_ms,
                    )
                },
                Err(e) => {
                    &&& final(self).dispatcher().same(old(self).dispatcher())
                    &&& if !is_key_text(identity_seed_hex@) {
                        tells_key_fault(e, "identity_seed_hex"@)
                    } else if !is_key_text(new_node_key_hex@) {
                        tells_key_fault(e, "new_node_key_hex"@)
                    } else {
                        tells_failed_rotation(
                            e,
                            old(self).dispatcher(),
                            hex_value(identity_seed_hex@)->0,
                            hex_value(new_node_key_hex@)->0,
                            now_ms,
                        )
                    }
                },
            },
    {
        let seed: [u8; 32] = hex_arg_32(identity_seed_hex, "identity_seed_hex")?;
        let node_key: [u8; 32] = hex_arg_32(new_node_key_hex, "new_node_key_hex")?;
        let identity = Identity::from_seed(seed);
        match self.inner.rotate(&identity, &node_key, now_ms) {
            Ok(ann) => Ok(ann),
            Err(e) => Err(map_err(e)),
        }
    }

    /// The key to dial an identity by, in hexadecimal digits.
    pub fn current_key(&self, identity_hex: &str, now_ms: u64) -> (r: Result<Option<String>, DcError>)
        requires
            self.wf(),
        ensures
            match r {
                Ok(key) => is_key_text(identity_hex@) && forall|id: NodeId|
                    hex_value(identity_hex@) == Some(id@) ==> match key {
                        Some(k) => current_key_of(
                            #[trigger] self.dispatcher().known().slot(id),
                            now_ms,
                        ) matches Some(found) && k@ == hex_text(found@),
                        None => current_key_of(self.dispatcher().known().slot(id), now_ms) is None,
                    },
                Err(e) => !is_key_text(identity_hex@) && tells_key_fault(e, "identity_hex"@),
            },
    {
        let identity: [u8; 32] = hex_arg_32(identity_hex, "identity_hex")?;
        proof {
            assert forall|other: NodeId| hex_value(identity_hex@) == Some(other@) implies other
                == identity by {
                assert(other =~= identity);
            }
        }
        match self.inner.current_key(&identity, now_ms) {
            Some(k) => Ok(Some(hex(k.as_slice()))),
            None => Ok(None),
        }
    }

    /// Announces a new node key and puts the announcement into a contact's bucket. `encode` gives
    /// the encoded form of an announcement.
    pub fn distribute<F: Fn(&NodeKeyAnnouncement) -> Result<Vec<u8>, CoreError>>(
        &mut self,
        identity_seed_hex: &str,
        new_node_key_hex: &str,
        bucket_hex: &str,
        secret_hex: &str,
        encode: &F,
        storage: &mut BucketStorageHandle,
        now_ms: u64,
    ) -> (r: Result<u64, DcError>)
        requires
            old(self).wf(),
            old(storage).wf(),
            forall|a: &NodeKeyAnnouncement| #[trigger] encode.requires((a,)),
        ensures
            final(self).wf(),
            final(storage).wf(),
            final(storage).reads() == old(storage).reads(),
            match r {
                Ok(n) => {
                    &&& is_key_text(identity_seed_hex@) && is_key_text(new_node_key_hex@)
                    &&& is_key_text(bucket_hex@) && is_key_text(secret_hex@)
                    &&& exists|ann: NodeKeyAnnouncement, encoded: Vec<u8>|
                        {
                            &&& #[trigger] encode.ensures((&ann,), Ok(encoded))
                            &&& has_rotated(
                                old(self).dispatcher(),
                                final(self).dispatcher(),
                                ann@,
                                hex_value(identity_seed_hex@)->0,
                                hex_value(new_node_key_hex@)->0,
                                now_ms,
                            )
                            &&& stored_announcement(
                                old(storage).stored(),
                                final(storage).stored(),
                                hex_value(bucket_hex@)->0,
                                ann.identity,
                                encoded@,
                                hex_value(secret_hex@)->0,
                                now_ms,
                                n,
                            )
                        }
                },
                Err(e) => {
                    &&& final(storage).stored() == old(storage).stored()
                    &&& if !is_key_text(identity_seed_hex@) {
                        &&& tells_key_fault(e, "identity_seed_hex"@)
                        &&& final(self).dispatcher().same(old(self).dispatcher())
                    } else if !is_key_text(new_node_key_hex@) {
                        &&& tells_key_fault(e, "new_node_key_hex"@)
                        &&& final(self).dispatcher().same(old(self).dispatcher())
                    } else if !is_key_text(bucket_hex@) {
                        &&& tells_key_fault(e, "bucket_hex"@)
                        &&& final(self).dispatcher().same(old(self).dispatcher())
                    } else if !is_key_text(secret_hex@) {
                        &&& tells_key_fault(e, "secret_hex"@)
                        &&& final(self).dispatcher().same(old(self).dispatcher())
                    } else {
                        distribution_fails(
                            e,
                            *encode,
                            old(self).dispatcher(),
                            final(self).dispatcher(),
                            hex_value(identity_seed_hex@)->0,
                            hex_value(new_node_key_hex@)->0,
                            now_ms,
                        )
                    }
                },
            },
    {
        let seed: [u8; 32] = hex_arg_32(identity_seed_hex, "identity_seed_hex")?;
        let node_key: [u8; 32] = hex_arg_32(new_node_key_hex, "new_node_key_hex")?;
        let bucket: [u8; 32] = hex_arg_32(bucket_hex, "bucket_hex")?;
        let secret: [u8; 32] = hex_arg_32(secret_hex, "secret_hex")?;
        let identity = Identity::from_seed(seed);
        let ann = match self.inner.rotate(&identity, &node_key, now_ms) {
            Ok(ann) => ann,
            Err(e) => {
                return Err(map_err(e));
            },
        };
        let encoded: Vec<u8> = match encode(&ann) {
            Ok(b) => b,
            Err(e) => {
                assert(encode.ensures((&ann,), Err(e)));
                return Err(map_err(e));
            },
        };
        assert(encode.ensures((&ann,), Ok(encoded)));
        let write = match seal_announcement_write(&ann, encoded.as_slice(), &secret, now_ms) {
            Ok(w) => w,
            Err(e) => {
                return Err(map_err(e));
            },
        };
        let n: u64 = storage.store_own(&bucket, &write);
        assert(storage.stored().said().drop_last() =~= old(storage).stored().said());
        Ok(n)
    }

    /// Puts a signed announcement into a contact's bucket. One rotation can be told to many contacts
    /// this way. An announcement that its identity did not sign is refused.
    pub fn distribute_signed(
        &self,
        ann: &NodeKeyAnnouncement,
        encoded: &[u8],
        bucket_hex: &str,
        secret_hex: &str,
        storage: &mut BucketStorageHandle,
        now_ms: u64,
    ) -> (r: Result<u64, DcError>)
        requires
            old(storage).wf(),
        ensures
            final(storage).wf(),
            final(storage).reads() == old(storage).reads(),
            match r {
                Ok(n) => {
                    &&& is_key_text(bucket_hex@) && is_key_text(secret_hex@)
                    &&& ann@.genuine()
                    &&& stored_announcement(
                        old(storage).stored(),
                        final(storage).stored(),
                        hex_value(bucket_hex@)->0,
                        ann.identity,
                        encoded@,
                        hex_value(secret_hex@)->0,
                        now_ms,
                        n,
                    )
                },
                Err(e) => {
                    &&& final(storage).stored() == old(storage).stored()
                    &&& if !is_key_text(bucket_hex@) {
                        tells_key_fault(e, "bucket_hex"@)
                    } else if !is_key_text(secret_hex@) {
                        tells_key_fault(e, "secret_hex"@)
                    } else {
                        exists|fault: CoreError| #[trigger]
                            tells_core_fault(e, fault) && (fault is Entropy && generator_failed(16)
                                || fault is Crypto && !ann@.genuine())
                    }
                },
            },
    {
        let bucket: [u8; 32] = hex_arg_32(bucket_hex, "bucket_hex")?;
        let secret: [u8; 32] = hex_arg_32(secret_hex, "secret_hex")?;
        let write = match seal_announcement_write(ann, encoded, &secret, now_ms) {
            Ok(w) => w,
            Err(e) => {
                return Err(map_err(e));
            },
        };
        let n: u64 = storage.store_own(&bucket, &write);
        assert(storage.stored().said().drop_last() =~= old(storage).stored().said());
        Ok(n)
    }
}

/// One announcement more is stored, in a bucket and with the number that it got there.
pub open spec fn stored_announcement(
    was: InMemoryBucketStorage,
    now: InMemoryBucketStorage,
    bucket: Seq<u8>,
    identity: NodeId,
    encoded: Seq<u8>,
    secret: Seq<u8>,
    now_ms: u64,
    n: u64,
) -> bool {
    &&& now.said().len() == was.said().len() + 1
    &&& now.said().drop_last() == was.said()
    &&& now.said().last().0@ == bucket
    &&& announces(now.said().last().1, identity, encoded, secret, now_ms)
    &&& drawn_at_random(now.said().last().1)
    &&& n == now.bucket(now.said().last().0).len()
}

/// A message on the wire: its kind and the ciphertext.
#[derive(Debug, PartialEq, Eq)]
pub struct WireMessage {
    pub msg_type: u8,
    pub ciphertext: Vec<u8>,
}

/// A safety number and its short code.
#[derive(Debug, PartialEq, Eq)]
pub struct SasCode {
    pub full: String,
    pub six: String,
}

impl SasCode {
    /// The safety number with its short code.
    pub fn of(full: String) -> (r: SasCode)
        ensures
            r.full == full,
            r.six@ == handshake::six_digits(handshake::sas_number(full@)),
    {
        let (full, six): (String, String) = handshake::sas_code(full);
        SasCode { full, six }
    }
}

/// An argument is a byte string of 32 bytes; if not, an error says so.
pub fn bytes_arg_32(b: &Vec<u8>, fault: &str) -> (r: Result<[u8; 32], DcError>)
    ensures
        match r {
            Ok(k) => k@ == b@,
            Err(e) => b@.len() != 32 && e is Core && e.text() == fault@,
        },
{
    if b.len() != 32 {
        return Err(DcError::Core { msg: fault.to_owned() });
    }
    let k: [u8; 32] = to_array::<32>(b.as_slice());
    assert(k@ =~= b@);
    Ok(k)
}

/// The hash that shows that a first message comes from someone who holds the token.
pub fn first_message_mac(token: Vec<u8>, bucket: Vec<u8>, ciphertext: Vec<u8>) -> (r: Result<
    Vec<u8>,
    DcError,
>)
    ensures
        match r {
            Ok(mac) => bucket@.len() == 32 && mac@ == handshake::first_message_hash(
                token@,
                bucket@,
                ciphertext@,
            ),
            Err(e) => bucket@.len() != 32 && e is Core && e.text() == "bucket must be 32 bytes"@,
        },
{
    let b: [u8; 32] = bytes_arg_32(&bucket, "bucket must be 32 bytes")?;
    let mac = handshake::first_message_mac(token.as_slice(), &b, ciphertext.as_slice());
    Ok(crate::bytes::to_vec(mac.as_slice()))
}

/// Whether the hash of a first message is the right one.
pub fn verify_first_message_mac(token: Vec<u8>, bucket: Vec<u8>, ciphertext: Vec<u8>, mac: Vec<u8>) -> (r:
    Result<bool, DcError>)
    ensures
        match r {
            Ok(ok) => bucket@.len() == 32 && mac@.len() == 32 && ok == (mac@
                == handshake::first_message_hash(token@, bucket@, ciphertext@)),
            Err(e) => e is Core && if bucket@.len() != 32 {
                e.text() == "bucket must be 32 bytes"@
            } else {
                mac@.len() != 32 && e.text() == "mac must be 32 bytes"@
            },
        },
{
    let b: [u8; 32] = bytes_arg_32(&bucket, "bucket must be 32 bytes")?;
    let m: [u8; 32] = bytes_arg_32(&mac, "mac must be 32 bytes")?;
    match handshake::verify_first_message_mac(token.as_slice(), &b, ciphertext.as_slice(), &m) {
        Ok(_) => Ok(true),
        Err(_) => Ok(false),
    }
}

/// The node id of a snapshot, in hexadecimal digits.
pub fn node_id_from_naddr(naddr: &str) -> (r: Result<String, DcError>)
    ensures
        match r {
            Ok(id) => snapshot(encode_utf8(naddr@)) is Ok && id@ == hex_text(
                snapshot(encode_utf8(naddr@))->Ok_0.id,
            ),
            Err(e) => {
                &&& snapshot(encode_utf8(naddr@)) is Err
                &&& e is Core
                &&& exists|c: CoreError| #[trigger]
                    tells(c, snapshot(encode_utf8(naddr@))->Err_0) && e.text() == c.frame_text().0
                        + c.text() + c.frame_text().1
            },
        },
{
    match node_id_of_naddr(naddr) {
        Ok(id) => Ok(id),
        Err(e) => {
            assert(tells(e, snapshot(encode_utf8(naddr@))->Err_0));
            Err(map_err(e))
        },
    }
}

/// The count of one round of delivery.
#[derive(Debug, Clone, Copy, PartialEq, Eq)]
pub struct TickReportRecord {
    pub attempted: u32,
    pub sent: u32,
    pub unreachable: u32,
    pub errored: u32,
    pub dead: u32,
}

impl TickReportRecord {
    /// The record says what a report says.
    pub open spec fn says(self, r: TickReport) -> bool {
        &&& self.attempted == r.attempted
        &&& self.sent == r.sent
        &&& self.unreachable == r.unreachable
        &&& self.errored == r.errored
        &&& self.dead == r.dead
    }

    pub fn of(r: &TickReport) -> (s: TickReportRecord)
        ensures
            s.says(*r),
    {
        TickReportRecord {
            attempted: r.attempted,
            sent: r.sent,
            unreachable: r.unreachable,
            errored: r.errored,
            dead: r.dead,
        }
    }
}

impl Default for TickReportRecord {
    fn default() -> (r: TickReportRecord)
        ensures
            r.says(TickReport::nothing()),
    {
        TickReportRecord::of(&TickReport::default())
    }
}

/// The count of a cleanup.
#[derive(Debug, Clone, Copy, PartialEq, Eq)]
pub struct CleanupReportRecord {
    pub pruned_seen: u32,
    pub pruned_dead: u32,
}

impl CleanupReportRecord {
    pub fn of(r: &CleanupReport) -> (s: CleanupReportRecord)
        ensures
            s.pruned_seen == r.pruned_seen,
            s.pruned_dead == r.pruned_dead,
    {
        CleanupReportRecord { pruned_seen: r.pruned_seen, pruned_dead: r.pruned_dead }
    }
}

impl Default for CleanupReportRecord {
    fn default() -> (r: CleanupReportRecord)
        ensures
            r == (CleanupReportRecord { pruned_seen: 0, pruned_dead: 0 }),
    {
        CleanupReportRecord { pruned_seen: 0, pruned_dead: 0 }
    }
}

/// The outgoing queue as an interface uses it.
pub struct DeliveryManagerHandle<F: Fn(&Envelope) -> Result<bool, String>> {
    inner: DeliveryManager<F>,
}

/// Two managers try again at the same times, and as many messages in a round.
pub open spec fn same_plan<F: Fn(&Envelope) -> Result<bool, String>>(
    a: DeliveryManager<F>,
    b: DeliveryManager<F>,
) -> bool {
    a.retry() == b.retry() && a.batch() == b.batch()
}

impl<F: Fn(&Envelope) -> Result<bool, String>> DeliveryManagerHandle<F> {
    /// The queue and its channel.
    pub closed spec fn manager(self) -> DeliveryManager<F> {
        self.inner
    }

    /// The invariant of the handle.
    pub open spec fn wf(self) -> bool {
        self.manager().wf()
    }

    /// A handle on a queue, with a channel.
    pub fn new(db: Db, callback: F) -> (r: DeliveryManagerHandle<F>)
        requires
            db.wf(),
            takes_all(callback),
        ensures
            r.wf(),
            r.manager().queue() == db,
            r.manager().channel() == Some(callback),
            r.manager().batch() == DEFAULT_BATCH_LIMIT,
            r.manager().retry() == (RetryPolicy {
                max_attempts: 8,
                base_delay_ms: 2_000,
                max_delay_ms: 900_000,
            }),
    {
        DeliveryManagerHandle { inner: DeliveryManager::new(db, callback) }
    }

    /// The queue, to be written to a store.
    pub fn db(&self) -> (r: &Db)
        ensures
            *r == self.manager().queue(),
    {
        self.inner.db()
    }

    /// Connects a channel.
    pub fn set_callback(&mut self, callback: F)
        requires
            old(self).wf(),
            takes_all(callback),
        ensures
            final(self).wf(),
            final(self).manager().channel() == Some(callback),
            same_plan(old(self).manager(), final(self).manager()),
            final(self).manager().queue() == old(self).manager().queue(),
    {
        self.inner.set_send_fn(callback);
    }

    /// Takes the channel away: the messages wait.
    pub fn clear_callback(&mut self)
        requires
            old(self).wf(),
        ensures
            final(self).wf(),
            final(self).manager().channel() == None::<F>,
            same_plan(old(self).manager(), final(self).manager()),
            final(self).manager().queue() == old(self).manager().queue(),
    {
        self.inner.clear_send_fn();
    }

    /// Puts a message into the queue, whole. A message that is in it already stays as it is.
    pub fn enqueue(&mut self, env: &Envelope)
        requires
            old(self).wf(),
        ensures
            final(self).wf(),
            final(self).manager().channel() == old(self).manager().channel(),
            same_plan(old(self).manager(), final(self).manager()),
            final(self).manager().queue()@ == if queued(
                old(self).manager().queue()@.outbox,
                env.msg_id@,
            ) {
                old(self).manager().queue()@
            } else {
                DbState {
                    outbox: old(self).manager().queue()@.outbox.push(
                        StoredData::of_envelope(env@, true),
                    ),
                    ..old(self).manager().queue()@
                }
            },
    {
        self.inner.db_mut().enqueue_full(env);
    }

    /// One round of delivery.
    pub fn tick(&mut self, now_ms: u64) -> (r: Result<TickReportRecord, DcError>)
        requires
            old(self).wf(),
        ensures
            final(self).wf(),
            final(self).manager().channel() == old(self).manager().channel(),
            same_plan(old(self).manager(), final(self).manager()),
            exists|t: Result<TickReport, CoreError>|
                {
                    &&& #[trigger] is_round(old(self).manager(), final(self).manager(), now_ms, t)
                    &&& match (t, r) {
                        (Ok(report), Ok(record)) => record.says(report),
                        (Err(e), Err(d)) => tells_core_fault(d, e),
                        _ => false,
                    }
                },
    {
        match self.inner.tick(now_ms) {
            Ok(report) => {
                assert(is_round(old(self).manager(), self.manager(), now_ms, Ok(report)));
                Ok(TickReportRecord::of(&report))
            },
            Err(e) => {
                assert(is_round(old(self).manager(), self.manager(), now_ms, Err(e)));
                Err(map_err(e))
            },
        }
    }

    /// Drops what has been kept long enough.
    pub fn cleanup(&mut self, now_ms: u64) -> (r: CleanupReportRecord)
        requires
            old(self).wf(),
        ensures
            final(self).wf(),
            final(self).manager().channel() == old(self).manager().channel(),
            same_plan(old(self).manager(), final(self).manager()),
            ({
                let was = old(self).manager().queue()@;
                let now = cleaned(was, now_ms);
                &&& final(self).manager().queue()@ == now
                &&& r.pruned_seen == (was.seen.len() - now.seen.len()) as u32
                &&& r.pruned_dead == (was.outbox.len() - without_dead(was, now_ms).len()) as u32
            }),
    {
        let r = self.inner.cleanup(now_ms);
        CleanupReportRecord::of(&r)
    }

    /// How many messages wait, were given up, and are on record as received.
    pub fn stats(&self) -> (r: Vec<u32>)
        ensures
            r@ == seq![
                count_in(self.manager().queue()@.outbox, RowState::Pending) as u32,
                count_in(self.manager().queue()@.outbox, RowState::Dead) as u32,
                self.manager().queue()@.seen.len() as u32,
            ],
    {
        let (pending, dead, seen): (u32, u32, u32) = self.inner.db().stats();
        let mut out: Vec<u32> = Vec::new();
        out.push(pending);
        out.push(dead);
        out.push(seen);
        out
    }

    /// Gives a dead message another chance.
    pub fn revive(&mut self, msg_id_hex: &str) -> (r: Result<(), DcError>)
        requires
            old(self).wf(),
        ensures
            final(self).wf(),
            final(self).manager().channel() == old(self).manager().channel(),
            same_plan(old(self).manager(), final(self).manager()),
            match r {
                Ok(_) => {
                    let was = old(self).manager().queue()@;
                    let id = hex_value(msg_id_hex@)->0;
                    &&& hex_value(msg_id_hex@) is Some && id.len() == 16
                    &&& final(self).manager().queue()@ == if queued(was.outbox, id) {
                        let i = row_place(was.outbox, id);
                        row_changed(was, i, revived_row(was.outbox[i]))
                    } else {
                        was
                    }
                },
                Err(e) => {
                    &&& !(hex_value(msg_id_hex@) matches Some(b) && b.len() == 16)
                    &&& e is Core
                    &&& e.text() == "msg_id_hex 必须是 32 个 hex 字符（16 字节）"@
                    &&& final(self).manager().queue() == old(self).manager().queue()
                },
            },
    {
        match hex_decode_16(msg_id_hex) {
            Some(id) => {
                self.inner.db_mut().revive(&id);
                Ok(())
            },
            None => Err(
                DcError::Core { msg: "msg_id_hex 必须是 32 个 hex 字符（16 字节）".to_owned() },
            ),
        }
    }

    /// The ids of the messages that were given up, oldest first, in hexadecimal digits.
    pub fn dead_letters(&self, limit: u32) -> (r: Result<Vec<String>, DcError>)
        ensures
            ({
                let rows = first_wanted(
                    self.manager().queue()@.outbox,
                    RowState::Dead,
                    None,
                    limit,
                );
                match r {
                    Ok(v) => v@.len() == rows.len() && forall|k: int|
                        0 <= k < rows.len() ==> (#[trigger] v@[k])@ == hex_text(rows[k].msg_id),
                    Err(e) => {
                        &&& exists|fault: CoreError| #[trigger]
                            tells_core_fault(e, fault) && fault is Db && fault.text()
                                == "Invalid column type Blob at index: 0, name: msg_id"@
                        &&& exists|k: int|
                            0 <= k < rows.len() && (#[trigger] rows[k]).msg_id.len() != 16
                    },
                }
            }),
    {
        let list: Vec<MsgId> = match self.inner.db().dead_list(limit) {
            Ok(v) => v,
            Err(e) => {
                return Err(map_err(e));
            },
        };
        let ghost rows = first_wanted(self.manager().queue()@.outbox, RowState::Dead, None, limit);
        let mut out: Vec<String> = Vec::new();
        let mut k: usize = 0;
        while k < list.len()
            invariant
                k <= list@.len(),
                list@.len() == rows.len(),
                out@.len() == k,
                forall|j: int| 0 <= j < rows.len() ==> (#[trigger] list@[j])@ == rows[j].msg_id,
                forall|j: int| 0 <= j < k ==> (#[trigger] out@[j])@ == hex_text(rows[j].msg_id),
            decreases list@.len() - k,
        {
            out.push(hex(list[k].as_slice()));
            k = k + 1;
        }
        Ok(out)
    }
}

/// A contact, for an interface.
#[derive(Debug, Clone, PartialEq, Eq)]
pub struct Contact {
    pub name: String,
    pub identity: Vec<u8>,
    pub bucket: Vec<u8>,
    pub verified: bool,
    pub note: String,
    pub added_ms: i64,
    pub link_secret: Vec<u8>,
    pub node_id: String,
    pub node_naddr: String,
}

impl View for Contact {
    type V = ContactData;

    open spec fn view(&self) -> ContactData {
        ContactData {
            name: self.name@,
            identity: self.identity@,
            bucket: self.bucket@,
            verified: self.verified,
            note: self.note@,
            added_ms: self.added_ms,
            link_secret: self.link_secret@,
            node_id: self.node_id@,
            node_naddr: self.node_naddr@,
        }
    }
}

impl Contact {
    pub fn of(c: &contacts::ContactInfo) -> (r: Contact)
        ensures
            r@ == c@,
    {
        Contact {
            name: c.name.as_str().to_owned(),
            identity: to_vec(c.identity.as_slice()),
            bucket: to_vec(c.bucket.as_slice()),
            verified: c.verified,
            note: c.note.as_str().to_owned(),
            added_ms: c.added_ms,
            link_secret: to_vec(c.link_secret.as_slice()),
            node_id: c.node_id.as_str().to_owned(),
            node_naddr: c.node_naddr.as_str().to_owned(),
        }
    }
}

/// One line of a chat, for an interface.
#[derive(Debug, Clone, PartialEq, Eq)]
pub struct ChatMessage {
    pub peer: String,
    pub outgoing: bool,
    pub text: String,
    pub ts_ms: i64,
}

impl View for ChatMessage {
    type V = ChatData;

    open spec fn view(&self) -> ChatData {
        ChatData {
            peer: self.peer@,
            outgoing: self.outgoing,
            text: self.text@,
            ts_ms: self.ts_ms,
        }
    }
}

impl ChatMessage {
    pub fn of(m: &contacts::ChatMsg) -> (r: ChatMessage)
        ensures
            r@ == m@,
    {
        ChatMessage {
            peer: m.peer.as_str().to_owned(),
            outgoing: m.outgoing,
            text: m.text.as_str().to_owned(),
            ts_ms: m.ts_ms,
        }
    }
}

/// What some contacts say.
pub open spec fn contacts_told(v: Seq<Contact>) -> Seq<ContactData> {
    Seq::new(v.len(), |i: int| v[i]@)
}

/// What some chat lines say.
pub open spec fn chats_told(v: Seq<ChatMessage>) -> Seq<ChatData> {
    Seq::new(v.len(), |i: int| v[i]@)
}

/// Chat lines for an interface.
fn chat_messages(lines: &Vec<contacts::ChatMsg>) -> (r: Vec<ChatMessage>)
    ensures
        chats_told(r@) == contacts::lines_said(lines@),
{
    let mut out: Vec<ChatMessage> = Vec::new();
    let mut i: usize = 0;
    while i < lines.len()
        invariant
            i <= lines@.len(),
            out@.len() == i,
            forall|k: int| 0 <= k < i ==> (#[trigger] out@[k])@ == lines@[k]@,
        decreases lines@.len() - i,
    {
        out.push(ChatMessage::of(&lines[i]));
        i = i + 1;
    }
    assert(chats_told(out@) =~= contacts::lines_said(lines@));
    out
}

/// Contacts and chats as an interface uses them.
pub struct ContactStore {
    inner: contacts::ContactStore,
}

impl View for ContactStore {
    type V = ContactState;

    closed spec fn view(&self) -> ContactState {
        self.inner@
    }
}

impl ContactStore {
    /// The invariant of the store.
    pub closed spec fn wf(self) -> bool {
        self.inner.wf()
    }

    pub fn new() -> (r: ContactStore)
        ensures
            r.wf(),
            r@ == (ContactState { contacts: Seq::empty(), log: Seq::empty() }),
    {
        ContactStore { inner: contacts::ContactStore::new() }
    }

    /// Adds a contact, or replaces what is known of one.
    pub fn upsert_contact(
        &mut self,
        name: &str,
        identity: &[u8],
        bucket: &[u8],
        verified: bool,
        note: &str,
        link_secret: &[u8],
        node_id: &str,
        node_naddr: &str,
        now_ms: i64,
    ) -> (r: Result<(), DcError>)
        requires
            old(self).wf(),
        ensures
            final(self).wf(),
            r is Ok <==> identity_sized(identity@) && bucket@.len() == 32,
            r matches Err(e) ==> e is Core && e.text() == "配置错误: "@ + (if !identity_sized(
                identity@,
            ) {
                "contact identity must be 32 or 33 bytes"@
            } else {
                "contact bucket must be 32 bytes"@
            }),
            final(self)@ == if r is Ok {
                ContactState {
                    contacts: contacts_with(
                        old(self)@.contacts,
                        ContactData {
                            name: name@,
                            identity: identity@,
                            bucket: bucket@,
                            verified,
                            note: note@,
                            added_ms: now_ms,
                            link_secret: link_secret@,
                            node_id: node_id@,
                            node_naddr: node_naddr@,
                        },
                    ),
                    log: old(self)@.log,
                }
            } else {
                old(self)@
            },
    {
        match self.inner.upsert_linked(
            name,
            identity,
            bucket,
            verified,
            note,
            link_secret,
            node_id,
            node_naddr,
            now_ms,
        ) {
            Ok(_) => Ok(()),
            Err(e) => {
                let told = map_err(e);
                proof {
                    reveal_strlit("");
                    assert(e.frame_text().0 + e.text() + ""@ =~= e.frame_text().0 + e.text());
                }
                Err(told)
            },
        }
    }

    /// The contacts, those added first before the others.
    pub fn list_contacts(&self) -> (r: Vec<Contact>)
        ensures
            contacts_told(r@) == by_added(self@.contacts),
    {
        let list = self.inner.list();
        let mut out: Vec<Contact> = Vec::new();
        let mut i: usize = 0;
        while i < list.len()
            invariant
                i <= list@.len(),
                out@.len() == i,
                forall|k: int| 0 <= k < i ==> (#[trigger] out@[k])@ == list@[k]@,
            decreases list@.len() - i,
        {
            out.push(Contact::of(&list[i]));
            i = i + 1;
        }
        assert(contacts_told(out@) =~= contacts::contacts_said(list@));
        out
    }

    /// Notes whether the safety code of a contact has been compared.
    pub fn set_verified(&mut self, name: &str, verified: bool)
        requires
            old(self).wf(),
        ensures
            final(self).wf(),
            final(self)@ == (ContactState {
                contacts: if known(old(self)@.contacts, name@) {
                    let i = place_of(old(self)@.contacts, name@);
                    old(self)@.contacts.update(
                        i,
                        ContactData { verified, ..old(self)@.contacts[i] },
                    )
                } else {
                    old(self)@.contacts
                },
                log: old(self)@.log,
            }),
    {
        self.inner.set_verified(name, verified);
    }

    /// Forgets a contact. The chat with them stays.
    pub fn delete_contact(&mut self, name: &str)
        requires
            old(self).wf(),
        ensures
            final(self).wf(),
            final(self)@ == (ContactState {
                contacts: if known(old(self)@.contacts, name@) {
                    old(self)@.contacts.remove(place_of(old(self)@.contacts, name@))
                } else {
                    old(self)@.contacts
                },
                log: old(self)@.log,
            }),
    {
        self.inner.delete(name);
    }

    /// Adds a line to a chat.
    pub fn append_message(&mut self, peer: &str, outgoing: bool, text: &str, now_ms: i64)
        requires
            old(self).wf(),
        ensures
            final(self).wf(),
            final(self)@ == (ContactState {
                contacts: old(self)@.contacts,
                log: old(self)@.log.push(
                    ChatData { peer: peer@, outgoing, text: text@, ts_ms: now_ms },
                ),
            }),
    {
        self.inner.append_message(peer, outgoing, text, now_ms);
    }

    /// The newest line of each chat, newest first.
    pub fn last_messages(&self) -> (r: Vec<ChatMessage>)
        ensures
            chats_told(r@) == newest_lines(self@.log),
    {
        chat_messages(&self.inner.last_messages())
    }

    /// The last lines of a chat, oldest first. A negative limit means all of them.
    pub fn messages(&self, peer: &str, limit: i32) -> (r: Vec<ChatMessage>)
        ensures
            chats_told(r@) == last_lines(by_time(chat_with(self@.log, peer@)), limit),
    {
        chat_messages(&self.inner.messages(peer, limit))
    }
}

/// An argument is a key if and only if, white space around it aside, it is 64 hexadecimal digits; each two of
/// them give a byte.
pub proof fn law_key_text_is_64_digits(s: Seq<char>, i: int)
    requires
        0 <= i < 32,
    ensures
        is_key_text(s) <==> trimmed(s).len() == 64 && forall|k: int|
            0 <= k < 64 ==> digit_value(#[trigger] trimmed(s)[k]) is Some,
        is_key_text(s) ==> hex_value(s)->0[i] == 16 * digit_value(trimmed(s)[2 * i])->0 + digit_value(
            trimmed(s)[2 * i + 1],
        )->0,
{
    let t = trimmed(s);
    if t.len() >= 2 {
        law_pairs_of_digits_are_bytes(t, if t.len() >= 64 { i } else { 0 });
    }
}

/// What is remembered of accepted writes: everything new comes last, what is known already changes nothing,
/// and only the oldest of more than 65536 goes.
pub proof fn law_latest_writes_are_remembered(keys: Seq<Seq<u8>>, key: Seq<u8>)
    requires
        keys.len() <= 65_536,
    ensures
        keys.contains(key) ==> accepted_with(keys, key) == keys,
        !keys.contains(key) ==> accepted_with(keys, key).last() == key,
        !keys.contains(key) && keys.len() < 65_536 ==> accepted_with(keys, key).drop_last() == keys,
        !keys.contains(key) && keys.len() == 65_536 ==> accepted_with(keys, key).drop_last() == keys.skip(1),
{
    if !keys.contains(key) {
        if keys.len() < 65_536 {
            assert(accepted_with(keys, key).drop_last() =~= keys);
        } else {
            assert(accepted_with(keys, key).drop_last() =~= keys.skip(1));
        }
    }
}

/// A write is remembered by the first 32 bytes of the fingerprint over a tag, all that its hash covers, and
/// its hash.
pub proof fn law_write_is_known_by_all_of_it(w: BucketWriteData)
    ensures
        write_key(w) == fingerprint_of(
            seq![ascii("dc-gate-accepted-v1"@), w.mac_input(), w.mac@],
        ).subrange(0, 32),
{
}

/// A new key is in force at once and for a week, under the next serial, for the identity of the seed, and
/// signed by it.
pub proof fn law_new_key_is_in_force_for_a_week(
    was: AnnouncementDispatcher,
    now: AnnouncementDispatcher,
    ann: AnnouncementData,
    seed: Seq<u8>,
    node_key: Seq<u8>,
    now_ms: u64,
)
    requires
        has_rotated(was, now, ann, seed, node_key, now_ms),
        now_ms <= u64::MAX - 604_800_000,
    ensures
        ann.identity@ == ed25519_public(seed),
        ann.node_key@ == node_key,
        ann.serial == was.serial() + 1,
        ann.not_before_ms == now_ms,
        ann.not_after_ms == now_ms + 604_800_000,
        ann.sig == ed25519_signature(seed, ann.signing_payload()),
        current_key_of(now.known().slot(ann.identity), now_ms) == Some(ann.node_key),
        forall|id: NodeId| id != ann.identity ==> #[trigger] now.known().slot(id) == was.known().slot(id),
{
}

/// What a user is told of an error holds all that the error says, and a changed identity is told apart from
/// everything else.
pub proof fn law_error_is_told_in_full(e: DcError, fault: CoreError)
    requires
        tells_core_fault(e, fault),
    ensures
        holds_text(e.text(), fault.text()),
        e is RemoteIdentityChanged <==> fault is IdentityChanged,
{
    law_holding_is_standing_somewhere(
        e.text(),
        fault.text(),
        fault.frame_text().0,
        fault.frame_text().1,
    );
}

/// What a user is told of an argument that is no key begins with the name of the argument.
pub proof fn law_key_fault_names_the_argument(e: DcError, name: Seq<char>)
    requires
        tells_key_fault(e, name),
    ensures
        e is Core,
        name.is_prefix_of(e.text()),
        e.text().skip(name.len() as int) == " 必须是 64 个 hex 字符（32 字节）"@,
{
    assert(e.text().take(name.len() as int) =~= name);
    assert(e.text().skip(name.len() as int) =~= " 必须是 64 个 hex 字符（32 字节）"@);
}

} // verus!

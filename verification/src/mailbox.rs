//! The mailbox entrance: who may write into a bucket, and when.
//!
//! Each pair of contacts shares a secret per bucket. A write carries a keyed hash over all it
//! says; the relay checks the hash and never sees the message. A time window and a ledger of
//! message ids keep a write from being played back.
use vstd::prelude::*;
use crate::arith::{same_bytes, sat_u64};
use crate::bytes::{
    append, be_bytes, law_be_injective, lemma_be_bytes_len, lemma_ranges, lemma_split,
    push_be,
};
use crate::crypto::{
    blake3_derived, blake3_keyed, derive_key, draw_array, generator_failed, generator_gave, keyed_hash,
    random_error_text,
};
use crate::envelope::{law_fields_bind_everything, Envelope, EnvelopeData, MsgId};
use crate::lists::{lemma_filter_keeps, lemma_push_contains};
use crate::identity::NodeId;
use crate::text::{ascii, ascii_bytes};
use crate::CoreError;

verus! {

/// A write is accepted this long before and after its time stamp.
pub const REPLAY_WINDOW_MS: u64 = 300_000;

/// Tolerance for clocks that disagree.
pub const SKEW_MS: u64 = 120_000;

/// Most message ids that the ledger holds.
pub const LEDGER_CAP: usize = 4096;

/// A random address for a bucket: what the operating system's generator gave. It says nothing of
/// the identity behind it.
pub fn generate_bucket_address() -> (r: Result<[u8; 32], CoreError>)
    ensures
        match r {
            Ok(address) => generator_gave(32, address@),
            Err(e) => generator_failed(32) && e is Entropy,
        },
{
    match draw_array::<32>() {
        Ok(address) => Ok(address),
        Err(e) => Err(CoreError::Entropy(random_error_text(&e))),
    }
}

/// What a mailbox secret is derived from.
pub open spec fn secret_material(handshake: Seq<u8>, bucket: Seq<u8>, serial: u32) -> Seq<u8> {
    handshake + bucket + be_bytes(serial as nat, 4)
}

/// The mailbox secret of a bucket and a key version.
pub open spec fn mailbox_secret(handshake: Seq<u8>, bucket: Seq<u8>, serial: u32) -> Seq<u8> {
    blake3_derived("dc-mailbox-v1"@, secret_material(handshake, bucket, serial))
}

/// Derives the mailbox secret of a bucket and a key version from what a handshake agreed on.
pub fn derive_mailbox_secret(handshake_secret: &[u8], bucket: &NodeId, serial: u32) -> (r: [u8; 32])
    ensures
        r@ == mailbox_secret(handshake_secret@, bucket@, serial),
{
    let mut material: Vec<u8> = Vec::new();
    append(&mut material, handshake_secret);
    append(&mut material, bucket.as_slice());
    push_be(&mut material, serial as u64, 4);
    assert(material@ =~= secret_material(handshake_secret@, bucket@, serial));
    derive_key("dc-mailbox-v1", material.as_slice())
}

/// Different handshakes, buckets or versions are derived from different material.
pub proof fn law_secret_binds_bucket_and_serial(
    h1: Seq<u8>,
    b1: Seq<u8>,
    s1: u32,
    h2: Seq<u8>,
    b2: Seq<u8>,
    s2: u32,
)
    requires
        b1.len() == 32,
        b2.len() == 32,
        secret_material(h1, b1, s1) == secret_material(h2, b2, s2),
    ensures
        h1 == h2,
        b1 == b2,
        s1 == s2,
{
    broadcast use lemma_be_bytes_len;

    let (m1, m2) = (secret_material(h1, b1, s1), secret_material(h2, b2, s2));
    assert(h1.len() == m1.len() - 36);
    assert(h2.len() == m2.len() - 36);
    lemma_split(h1 + b1, be_bytes(s1 as nat, 4), h2 + b2, be_bytes(s2 as nat, 4));
    lemma_split(h1, b1, h2, b2);
    lemma_ranges();
    law_be_injective(s1 as nat, s2 as nat, 4);
}

/// One write into a bucket: an envelope and what authorises it.
#[derive(Debug, PartialEq)]
pub struct BucketWrite {
    pub envelope: Envelope,
    /// The version of the secret that the receiver is to check with.
    pub serial: u32,
    pub nonce: [u8; 16],
    /// The sender's time stamp. It decides about the replay window and nothing else.
    pub ts_ms: u64,
    pub mac: [u8; 32],
}

/// What a write says.
pub struct BucketWriteData {
    pub envelope: EnvelopeData,
    pub serial: u32,
    pub nonce: [u8; 16],
    pub ts_ms: u64,
    pub mac: [u8; 32],
}

impl View for BucketWrite {
    type V = BucketWriteData;

    open spec fn view(&self) -> BucketWriteData {
        BucketWriteData {
            envelope: self.envelope@,
            serial: self.serial,
            nonce: self.nonce,
            ts_ms: self.ts_ms,
            mac: self.mac,
        }
    }
}

impl Clone for BucketWrite {
    fn clone(&self) -> (r: BucketWrite)
        ensures
            r@ == self@,
    {
        BucketWrite {
            envelope: self.envelope.clone(),
            serial: self.serial,
            nonce: self.nonce,
            ts_ms: self.ts_ms,
            mac: self.mac,
        }
    }
}

/// A time stamp lies in the replay window around `now_ms`.
pub open spec fn in_window(ts_ms: u64, now_ms: u64) -> bool {
    now_ms - REPLAY_WINDOW_MS <= ts_ms <= now_ms + REPLAY_WINDOW_MS
}

/// A signature behind a flag and its length; the flag alone where there is none.
pub open spec fn sig_bytes(sig: Option<Seq<u8>>) -> Seq<u8> {
    match sig {
        Some(s) => seq![1u8] + be_bytes(s.len(), 8) + s,
        None => seq![0u8],
    }
}

/// The length of a signature, where there is one, can be written down in eight bytes.
pub open spec fn sig_fits(sig: Option<Seq<u8>>) -> bool {
    sig matches Some(s) ==> s.len() <= u64::MAX
}

/// The flag and the length say how long a signature is, so what follows can be told apart.
proof fn lemma_sig_split(a: Option<Seq<u8>>, x: Seq<u8>, b: Option<Seq<u8>>, y: Seq<u8>)
    requires
        sig_fits(a),
        sig_fits(b),
        sig_bytes(a) + x == sig_bytes(b) + y,
    ensures
        a == b,
        x == y,
{
    let (p, q) = (sig_bytes(a), sig_bytes(b));
    assert((p + x)[0] == p[0]);
    assert((q + y)[0] == q[0]);
    match (a, b) {
        (Some(s), Some(t)) => {
            let (m, n) = (be_bytes(s.len(), 8), be_bytes(t.len(), 8));
            lemma_be_bytes_len(s.len(), 8);
            lemma_be_bytes_len(t.len(), 8);
            assert(p + x =~= seq![1u8] + (m + (s + x)));
            assert(q + y =~= seq![1u8] + (n + (t + y)));
            lemma_split(seq![1u8], m + (s + x), seq![1u8], n + (t + y));
            lemma_split(m, s + x, n, t + y);
            lemma_ranges();
            law_be_injective(s.len(), t.len(), 8);
            lemma_split(s, x, t, y);
        },
        _ => {
            lemma_split(p, x, q, y);
        },
    }
}

impl BucketWriteData {
    /// What the write's hash covers: the version, the nonce, the time and all of the envelope,
    /// its signature too.
    pub open spec fn mac_input(self) -> Seq<u8> {
        ascii("dc-bucket-write-v1\n"@) + be_bytes(self.serial as nat, 4) + self.nonce@ + be_bytes(
            self.ts_ms as nat,
            8,
        ) + sig_bytes(self.envelope.sig) + self.envelope.field_bytes()
    }

    /// The hash is the one that the holder of the secret computes.
    pub open spec fn authentic(self, secret: Seq<u8>) -> bool {
        self.mac@ == blake3_keyed(secret, self.mac_input())
    }

    /// The write passes the check at `now_ms`.
    pub open spec fn passes(self, secret: Seq<u8>, now_ms: u64) -> bool {
        self.authentic(secret) && in_window(self.ts_ms, now_ms)
    }
}

/// The first `n` bytes of two byte strings are the same.
pub open spec fn agree_up_to(a: Seq<u8>, b: Seq<u8>, n: int) -> bool {
    forall|k: int| 0 <= k < n ==> a[k] == b[k]
}

/// Compares two hashes byte by byte to the end, whether or not they differ early.
pub fn same_mac(a: &[u8; 32], b: &[u8; 32]) -> (r: bool)
    ensures
        r == (*a == *b),
{
    let mut diff: u8 = 0;
    let mut i: usize = 0;
    while i < 32
        invariant
            i <= 32,
            diff == 0 <==> agree_up_to(a@, b@, i as int),
        decreases 32 - i,
    {
        let (x, y, d) = (a[i], b[i], diff);
        diff = diff | (x ^ y);
        proof {
            assert((d | (x ^ y)) == 0 <==> d == 0 && x == y) by (bit_vector);
            assert(a@[i as int] == x && b@[i as int] == y);
            assert(agree_up_to(a@, b@, i + 1) <==> agree_up_to(a@, b@, i as int) && x == y);
        }
        i = i + 1;
    }
    proof {
        if diff == 0 {
            assert(a@ =~= b@);
            assert(*a =~= *b);
        }
    }
    diff == 0
}

impl BucketWrite {
    /// Wraps an envelope for a bucket.
    pub fn seal(env: Envelope, secret: &[u8; 32], serial: u32, ts_ms: u64, nonce: [u8; 16]) -> (r:
        BucketWrite)
        ensures
            r@.envelope == env@,
            r@.serial == serial,
            r@.ts_ms == ts_ms,
            r@.nonce == nonce,
            r@.authentic(secret@),
    {
        let mut w = BucketWrite { envelope: env, serial, nonce, ts_ms, mac: [0; 32] };
        w.mac = w.compute_mac(secret);
        w
    }

    /// What the write's hash covers.
    pub fn mac_input(&self) -> (r: Vec<u8>)
        ensures
            r@ == self@.mac_input(),
    {
        let mut v = ascii_bytes("dc-bucket-write-v1\n");
        push_be(&mut v, self.serial as u64, 4);
        append(&mut v, self.nonce.as_slice());
        push_be(&mut v, self.ts_ms, 8);
        match &self.envelope.sig {
            Some(sig) => {
                v.push(1);
                push_be(&mut v, sig.len() as u64, 8);
                append(&mut v, sig.as_slice());
            },
            None => v.push(0),
        }
        self.envelope.append_fields(&mut v);
        assert(v@ =~= self@.mac_input());
        v
    }

    fn compute_mac(&self, secret: &[u8; 32]) -> (r: [u8; 32])
        ensures
            r@ == blake3_keyed(secret@, self@.mac_input()),
    {
        let input = self.mac_input();
        keyed_hash(secret, input.as_slice())
    }

    /// Checks the hash, then the replay window. The ledger of message ids is up to the caller.
    pub fn verify(&self, secret: &[u8; 32], now_ms: u64) -> (r: Result<(), CoreError>)
        ensures
            r is Ok <==> self@.passes(secret@, now_ms),
            r matches Err(e) ==> e is Crypto && e.text() == if !self@.authentic(secret@) {
                "mailbox mac mismatch"@
            } else {
                "mailbox write outside replay window"@
            },
    {
        let expected = self.compute_mac(secret);
        if !same_mac(&self.mac, &expected) {
            proof {
                if self.mac@ == expected@ {
                    assert(self.mac =~= expected);
                }
            }
            return Err(CoreError::Crypto("mailbox mac mismatch".to_owned()));
        }
        let early: bool = self.ts_ms > now_ms.saturating_add(REPLAY_WINDOW_MS);
        let late: bool = self.ts_ms < now_ms.saturating_sub(REPLAY_WINDOW_MS);
        if early || late {
            return Err(CoreError::Crypto("mailbox write outside replay window".to_owned()));
        }
        Ok(())
    }
}

/// A sealed write passes as long as its time stamp lies in the window.
pub proof fn law_sealed_write_passes(w: BucketWriteData, secret: Seq<u8>, now_ms: u64)
    requires
        w.authentic(secret),
        w.ts_ms - REPLAY_WINDOW_MS <= now_ms <= w.ts_ms + REPLAY_WINDOW_MS,
    ensures
        w.passes(secret, now_ms),
{
}

/// The hash covers every field: two writes with one hash input agree in all but the hash.
pub proof fn law_mac_binds_everything(a: BucketWriteData, b: BucketWriteData)
    requires
        sig_fits(a.envelope.sig),
        sig_fits(b.envelope.sig),
        a.mac_input() == b.mac_input(),
    ensures
        a.serial == b.serial,
        a.nonce == b.nonce,
        a.ts_ms == b.ts_ms,
        a.envelope == b.envelope,
{
    let tag = ascii("dc-bucket-write-v1\n"@);
    let (sa, sb) = (be_bytes(a.serial as nat, 4), be_bytes(b.serial as nat, 4));
    let (ta, tb) = (be_bytes(a.ts_ms as nat, 8), be_bytes(b.ts_ms as nat, 8));
    let (ga, gb) = (sig_bytes(a.envelope.sig), sig_bytes(b.envelope.sig));
    let (fa, fb) = (a.envelope.field_bytes(), b.envelope.field_bytes());
    lemma_be_bytes_len(a.serial as nat, 4);
    lemma_be_bytes_len(b.serial as nat, 4);
    lemma_be_bytes_len(a.ts_ms as nat, 8);
    lemma_be_bytes_len(b.ts_ms as nat, 8);
    assert(a.mac_input() =~= tag + sa + a.nonce@ + ta + (ga + fa));
    assert(b.mac_input() =~= tag + sb + b.nonce@ + tb + (gb + fb));
    lemma_split(tag + sa + a.nonce@ + ta, ga + fa, tag + sb + b.nonce@ + tb, gb + fb);
    lemma_split(tag + sa + a.nonce@, ta, tag + sb + b.nonce@, tb);
    lemma_split(tag + sa, a.nonce@, tag + sb, b.nonce@);
    lemma_split(tag, sa, tag, sb);
    lemma_ranges();
    law_be_injective(a.serial as nat, b.serial as nat, 4);
    law_be_injective(a.ts_ms as nat, b.ts_ms as nat, 8);
    assert(a.nonce =~= b.nonce);
    lemma_sig_split(a.envelope.sig, fa, b.envelope.sig, fb);
    law_fields_bind_everything(a.envelope, b.envelope);
    assert(a.envelope == a.envelope.with_sig(None).with_sig(a.envelope.sig));
    assert(b.envelope == b.envelope.with_sig(None).with_sig(b.envelope.sig));
}

/// One line of the ledger: a message id and the time until which it is kept, but for the skew.
pub type LedgerEntry = (MsgId, u64);

/// An entry still has to be kept at `now_ms`.
pub open spec fn live(e: LedgerEntry, now_ms: u64) -> bool {
    sat_u64(e.1 + SKEW_MS) > now_ms
}

/// The entries that still have to be kept.
pub open spec fn live_entries(entries: Seq<LedgerEntry>, now_ms: u64) -> Seq<LedgerEntry> {
    entries.filter(|e: LedgerEntry| live(e, now_ms))
}

/// A message id stands in the ledger.
pub open spec fn listed(entries: Seq<LedgerEntry>, id: MsgId) -> bool {
    exists|i: int| 0 <= i < entries.len() && (#[trigger] entries[i]).0 == id
}

/// The line for a message with the time stamp `ts_ms`.
pub open spec fn ledger_line(id: MsgId, ts_ms: u64) -> LedgerEntry {
    (id, sat_u64(ts_ms + REPLAY_WINDOW_MS + SKEW_MS))
}

/// A message is let through: it is new, and there is room for it.
pub open spec fn ledger_accepts(entries: Seq<LedgerEntry>, id: MsgId, now_ms: u64) -> bool {
    !listed(live_entries(entries, now_ms), id) && live_entries(entries, now_ms).len() < LEDGER_CAP
}

/// The ledger after a message.
pub open spec fn ledger_after(entries: Seq<LedgerEntry>, id: MsgId, ts_ms: u64, now_ms: u64) -> Seq<
    LedgerEntry,
> {
    if ledger_accepts(entries, id, now_ms) {
        live_entries(entries, now_ms).push(ledger_line(id, ts_ms))
    } else {
        live_entries(entries, now_ms)
    }
}

/// No message id stands in the ledger twice.
pub open spec fn ids_distinct(entries: Seq<LedgerEntry>) -> bool {
    forall|i: int, j: int|
        #![trigger entries[i], entries[j]]
        0 <= i < j < entries.len() ==> entries[i].0 != entries[j].0
}

/// The ledger of accepted messages. An entry is dropped when its time is over and never before:
/// a full ledger refuses new messages.
pub struct NonceCache {
    entries: Vec<LedgerEntry>,
}

impl View for NonceCache {
    type V = Seq<LedgerEntry>;

    closed spec fn view(&self) -> Seq<LedgerEntry> {
        self.entries@
    }
}

impl NonceCache {
    #[verifier::type_invariant]
    closed spec fn inv(self) -> bool {
        ids_distinct(self.entries@) && self.entries@.len() <= LEDGER_CAP
    }

    /// An empty ledger. The capacity asked for is a soft target: whatever it is, messages are
    /// refused at the fixed cap.
    pub fn new(_cap: usize) -> (r: NonceCache)
        ensures
            r@ == Seq::<LedgerEntry>::empty(),
    {
        NonceCache { entries: Vec::new() }
    }

    /// Lets a message through if it is new and there is room, and writes it down. Lines whose
    /// time is over are dropped first.
    pub fn check_and_insert(&mut self, msg_id: &MsgId, ts_ms: u64, now_ms: u64) -> (r: bool)
        ensures
            r == ledger_accepts(old(self)@, *msg_id, now_ms),
            final(self)@ == ledger_after(old(self)@, *msg_id, ts_ms, now_ms),
            final(self)@.len() <= LEDGER_CAP,
            ids_distinct(final(self)@),
    {
        proof {
            use_type_invariant(&*self);
        }
        let mut kept: Vec<LedgerEntry> = Vec::new();
        let mut found: bool = false;
        let mut i: usize = 0;
        let ghost keep = |e: LedgerEntry| live(e, now_ms);
        while i < self.entries.len()
            invariant
                i <= self.entries@.len(),
                self.entries@ == old(self)@,
                keep == (|e: LedgerEntry| live(e, now_ms)),
                kept@ == self.entries@.take(i as int).filter(keep),
                found == listed(kept@, *msg_id),
            decreases self.entries@.len() - i,
        {
            proof {
                reveal(Seq::filter);
                assert(self.entries@.take(i + 1).drop_last() =~= self.entries@.take(i as int));
            }
            let e: LedgerEntry = self.entries[i];
            let ghost before = kept@;
            if e.1.saturating_add(SKEW_MS) > now_ms {
                kept.push(e);
                let same: bool = same_bytes(&e.0, msg_id);
                proof {
                    lemma_listed_push(before, e, *msg_id);
                }
                found = found || same;
            }
            i = i + 1;
        }
        proof {
            assert(self.entries@.take(i as int) =~= self.entries@);
            lemma_filter_distinct(self.entries@, keep);
            broadcast use vstd::seq_lib::group_filter_ensures;
        }
        let accept: bool = !found && kept.len() < LEDGER_CAP;
        if accept {
            let expiry: u64 = ts_ms.saturating_add(REPLAY_WINDOW_MS + SKEW_MS);
            kept.push((*msg_id, expiry));
        }
        self.entries = kept;
        accept
    }

    /// The lines of the ledger, to be kept over a restart.
    pub fn export_state(&self) -> (r: Vec<LedgerEntry>)
        ensures
            r@ == self@,
    {
        let mut out: Vec<LedgerEntry> = Vec::new();
        let mut i: usize = 0;
        while i < self.entries.len()
            invariant
                i <= self.entries@.len(),
                out@ == self.entries@.take(i as int),
            decreases self.entries@.len() - i,
        {
            out.push(self.entries[i]);
            assert(out@ =~= self.entries@.take(i + 1));
            i = i + 1;
        }
        assert(self.entries@.take(i as int) =~= self.entries@);
        out
    }

    /// Takes lines up that were kept over a restart, as far as there is room.
    pub fn import_state(&mut self, lines: &Vec<LedgerEntry>)
        ensures
            final(self)@ == ledger_with(old(self)@, lines@),
    {
        proof {
            use_type_invariant(&*self);
        }
        let mut kept: Vec<LedgerEntry> = Vec::new();
        std::mem::swap(&mut kept, &mut self.entries);
        let mut i: usize = 0;
        assert(lines@.take(0) =~= Seq::empty());
        while i < lines.len()
            invariant
                i <= lines@.len(),
                kept@ == ledger_with(old(self)@, lines@.take(i as int)),
                ids_distinct(kept@),
                kept@.len() <= LEDGER_CAP,
            decreases lines@.len() - i,
        {
            let e: LedgerEntry = lines[i];
            let ghost before = kept@;
            proof {
                assert(lines@.take(i + 1).drop_last() =~= lines@.take(i as int));
                assert(lines@.take(i + 1).last() == e);
            }
            let known: bool = stands_in(&kept, &e.0);
            if !known && kept.len() < LEDGER_CAP {
                kept.push(e);
                proof {
                    let after = kept@;
                    assert forall|a: int, b: int| #![trigger after[a], after[b]]
                        0 <= a < b < after.len() implies after[a].0 != after[b].0 by {
                        if b < before.len() {
                            assert(before[a].0 != before[b].0);
                        } else {
                            assert(before[a].0 != e.0);
                        }
                    }
                }
            }
            i = i + 1;
        }
        assert(lines@.take(i as int) =~= lines@);
        self.entries = kept;
    }

    pub fn len(&self) -> (r: usize)
        ensures
            r == self@.len(),
    {
        self.entries.len()
    }

    pub fn is_empty(&self) -> (r: bool)
        ensures
            r == (self@.len() == 0),
    {
        self.entries.len() == 0
    }
}

/// The ledger after lines were taken up that were kept over a restart: those of messages that are
/// not in it, as far as there is room.
pub open spec fn ledger_with(entries: Seq<LedgerEntry>, lines: Seq<LedgerEntry>) -> Seq<LedgerEntry>
    decreases lines.len(),
{
    if lines.len() == 0 {
        entries
    } else {
        let front = ledger_with(entries, lines.drop_last());
        if !listed(front, lines.last().0) && front.len() < LEDGER_CAP {
            front.push(lines.last())
        } else {
            front
        }
    }
}

/// Whether a message stands among the lines of a ledger.
fn stands_in(entries: &Vec<LedgerEntry>, id: &MsgId) -> (r: bool)
    ensures
        r == listed(entries@, *id),
{
    let mut i: usize = 0;
    while i < entries.len()
        invariant
            i <= entries@.len(),
            forall|k: int| 0 <= k < i ==> (#[trigger] entries@[k]).0 != *id,
        decreases entries@.len() - i,
    {
        if same_bytes(&entries[i].0, id) {
            assert(entries@[i as int].0 == *id);
            return true;
        }
        i = i + 1;
    }
    false
}

/// A restart does not make a message new again: a fresh ledger that takes up the lines of another
/// one is the same ledger.
pub proof fn law_restart_forgets_nothing(lines: Seq<LedgerEntry>)
    requires
        ids_distinct(lines),
        lines.len() <= LEDGER_CAP,
    ensures
        ledger_with(Seq::empty(), lines) == lines,
    decreases lines.len(),
{
    if lines.len() > 0 {
        let front = lines.drop_last();
        assert forall|i: int, j: int| #![trigger front[i], front[j]]
            0 <= i < j < front.len() implies front[i].0 != front[j].0 by {
            assert(lines[i].0 != lines[j].0);
        }
        law_restart_forgets_nothing(front);
        assert forall|i: int| 0 <= i < front.len() implies (#[trigger] front[i]).0
            != lines.last().0 by {
            assert(lines[i].0 != lines[lines.len() - 1].0);
        }
        assert(front.push(lines.last()) =~= lines);
    } else {
        assert(lines =~= Seq::empty());
    }
}

/// One more line adds its own id.
proof fn lemma_listed_push(entries: Seq<LedgerEntry>, e: LedgerEntry, id: MsgId)
    ensures
        listed(entries.push(e), id) == (listed(entries, id) || e.0 == id),
{
    let longer = entries.push(e);
    if listed(entries, id) {
        let i = choose|i: int| 0 <= i < entries.len() && (#[trigger] entries[i]).0 == id;
        assert(longer[i].0 == id);
    }
    if listed(longer, id) && e.0 != id {
        let i = choose|i: int| 0 <= i < longer.len() && (#[trigger] longer[i]).0 == id;
        assert(entries[i].0 == id);
    }
    assert(longer[entries.len() as int] == e);
}

/// Filtering leaves the ids distinct.
proof fn lemma_filter_distinct(entries: Seq<LedgerEntry>, keep: spec_fn(LedgerEntry) -> bool)
    requires
        ids_distinct(entries),
    ensures
        ids_distinct(entries.filter(keep)),
        forall|i: int|
            0 <= i < entries.filter(keep).len() ==> entries.contains(
                #[trigger] entries.filter(keep)[i],
            ),
    decreases entries.len(),
{
    reveal(Seq::filter);
    if entries.len() > 0 {
        let front = entries.drop_last();
        assert(ids_distinct(front)) by {
            assert forall|i: int, j: int| #![trigger front[i], front[j]]
                0 <= i < j < front.len() implies front[i].0 != front[j].0 by {
                assert(entries[i].0 != entries[j].0);
            }
        }
        lemma_filter_distinct(front, keep);
        let f = front.filter(keep);
        let g = entries.filter(keep);
        assert forall|i: int| 0 <= i < g.len() implies entries.contains(#[trigger] g[i]) by {
            if i < f.len() {
                assert(g[i] == f[i]);
                let k = choose|k: int| 0 <= k < front.len() && front[k] == f[i];
                assert(entries[k] == g[i]);
            } else {
                assert(entries[entries.len() - 1] == g[i]);
            }
        }
        assert forall|i: int, j: int| #![trigger g[i], g[j]]
            0 <= i < j < g.len() implies g[i].0 != g[j].0 by {
            assert(g[i] == f[i]);
            if j < f.len() {
                assert(g[j] == f[j]);
            } else {
                let k = choose|k: int| 0 <= k < front.len() && front[k] == f[i];
                assert(entries[k].0 != entries[entries.len() - 1].0);
            }
        }
    }
}

/// A message at the entrance: its id, its time stamp and the time of its arrival.
pub struct Arrival {
    pub id: MsgId,
    pub ts_ms: u64,
    pub now_ms: u64,
}

/// The ledger after a number of messages.
pub open spec fn ledger_after_all(entries: Seq<LedgerEntry>, arrivals: Seq<Arrival>) -> Seq<LedgerEntry>
    decreases arrivals.len(),
{
    if arrivals.len() == 0 {
        entries
    } else {
        let a = arrivals.last();
        ledger_after(ledger_after_all(entries, arrivals.drop_last()), a.id, a.ts_ms, a.now_ms)
    }
}

/// A line that has to be kept at the time of every message in between is still there.
proof fn lemma_line_survives(entries: Seq<LedgerEntry>, arrivals: Seq<Arrival>, e: LedgerEntry)
    requires
        entries.contains(e),
        forall|i: int| 0 <= i < arrivals.len() ==> live(e, (#[trigger] arrivals[i]).now_ms),
    ensures
        ledger_after_all(entries, arrivals).contains(e),
    decreases arrivals.len(),
{
    if arrivals.len() > 0 {
        let front = arrivals.drop_last();
        lemma_line_survives(entries, front, e);
        let before = ledger_after_all(entries, front);
        let a = arrivals.last();
        assert(live(e, arrivals[arrivals.len() - 1].now_ms));
        let i = choose|i: int| 0 <= i < before.len() && before[i] == e;
        assert(live_entries(before, a.now_ms).contains(before[i])) by {
            broadcast use vstd::seq_lib::group_filter_ensures;

        }
        let kept = live_entries(before, a.now_ms);
        let k = choose|k: int| 0 <= k < kept.len() && kept[k] == e;
        assert(ledger_after(before, a.id, a.ts_ms, a.now_ms)[k] == e);
    }
}

/// Nothing is played back: after a message was let through, the same id is refused as long as
/// its line has to be kept, whatever came in between and however much.
pub proof fn law_no_replay_while_the_line_is_kept(
    entries: Seq<LedgerEntry>,
    first: Arrival,
    between: Seq<Arrival>,
    again: Arrival,
)
    requires
        ledger_accepts(entries, first.id, first.now_ms),
        again.id == first.id,
        live(ledger_line(first.id, first.ts_ms), again.now_ms),
        forall|i: int|
            0 <= i < between.len() ==> live(
                ledger_line(first.id, first.ts_ms),
                (#[trigger] between[i]).now_ms,
            ),
    ensures
        !ledger_accepts(
            ledger_after_all(
                ledger_after(entries, first.id, first.ts_ms, first.now_ms),
                between,
            ),
            again.id,
            again.now_ms,
        ),
{
    let e = ledger_line(first.id, first.ts_ms);
    let start = ledger_after(entries, first.id, first.ts_ms, first.now_ms);
    assert(start[start.len() - 1] == e);
    lemma_line_survives(start, between, e);
    let s = ledger_after_all(start, between);
    let i = choose|i: int| 0 <= i < s.len() && s[i] == e;
    assert(live_entries(s, again.now_ms).contains(s[i])) by {
        broadcast use vstd::seq_lib::group_filter_ensures;

    }
    let kept = live_entries(s, again.now_ms);
    let k = choose|k: int| 0 <= k < kept.len() && kept[k] == e;
    assert(kept[k].0 == again.id);
}

/// The line of a message is kept longer than the message's time stamp lies in the window, so that
/// no message is played back within it.
pub proof fn law_no_replay_within_the_window(
    entries: Seq<LedgerEntry>,
    first: Arrival,
    between: Seq<Arrival>,
    again: Arrival,
)
    requires
        ledger_accepts(entries, first.id, first.now_ms),
        again.id == first.id,
        in_window(first.ts_ms, again.now_ms),
        forall|i: int|
            0 <= i < between.len() ==> live(
                ledger_line(first.id, first.ts_ms),
                (#[trigger] between[i]).now_ms,
            ),
        again.now_ms < u64::MAX,
    ensures
        !ledger_accepts(
            ledger_after_all(
                ledger_after(entries, first.id, first.ts_ms, first.now_ms),
                between,
            ),
            again.id,
            again.now_ms,
        ),
{
    law_no_replay_while_the_line_is_kept(entries, first, between, again);
}

/// A full ledger refuses, and gives up no line that still has to be kept.
pub proof fn law_full_ledger_refuses(entries: Seq<LedgerEntry>, id: MsgId, ts_ms: u64, now_ms: u64)
    requires
        live_entries(entries, now_ms).len() >= LEDGER_CAP,
    ensures
        !ledger_accepts(entries, id, now_ms),
        ledger_after(entries, id, ts_ms, now_ms) == live_entries(entries, now_ms),
{
}

/// The check of a write on its way in: the hash, the window, then the ledger. The ledger comes
/// last, so that nobody without the secret can probe it or fill it.
pub fn verify_inbound(write: &BucketWrite, secret: &[u8; 32], nonces: &mut NonceCache, now_ms: u64) -> (r:
    Result<(), CoreError>)
    ensures
        r is Ok <==> write@.passes(secret@, now_ms) && ledger_accepts(
            old(nonces)@,
            write.envelope.msg_id,
            now_ms,
        ),
        r matches Err(e) ==> e is Crypto && e.text() == if !write@.authentic(secret@) {
            "mailbox mac mismatch"@
        } else if !in_window(write.ts_ms, now_ms) {
            "mailbox write outside replay window"@
        } else {
            "replayed write"@
        },
        final(nonces)@ == if write@.passes(secret@, now_ms) {
            ledger_after(old(nonces)@, write.envelope.msg_id, write.ts_ms, now_ms)
        } else {
            old(nonces)@
        },
{
    write.verify(secret, now_ms)?;
    if !nonces.check_and_insert(&write.envelope.msg_id, write.ts_ms, now_ms) {
        return Err(CoreError::Crypto("replayed write".to_owned()));
    }
    Ok(())
}

/// A request to read a bucket: which one, with which version of the secret, from where on, and
/// what authorises it.
#[derive(Debug, Clone, Copy, PartialEq, Eq)]
pub struct MailboxRead {
    pub bucket: NodeId,
    pub serial: u32,
    pub nonce: [u8; 16],
    /// The number of the last message that the reader has.
    pub cursor: u64,
    pub mac: [u8; 32],
}

impl MailboxRead {
    /// What the request's hash covers: all of the request but the hash.
    pub open spec fn covered(self) -> Seq<u8> {
        ascii("dc-bucket-read-v1\n"@) + self.bucket@ + be_bytes(self.serial as nat, 4) + self.nonce@
            + be_bytes(self.cursor as nat, 8)
    }

    /// The hash is the one that the holder of the secret computes.
    pub open spec fn authentic(self, secret: Seq<u8>) -> bool {
        self.mac@ == blake3_keyed(secret, self.covered())
    }

    /// A request with the first version of the secret.
    pub fn seal_read(bucket: NodeId, secret: &[u8; 32], cursor: u64, nonce: [u8; 16]) -> (r:
        MailboxRead)
        ensures
            r.bucket == bucket,
            r.serial == 1,
            r.cursor == cursor,
            r.nonce == nonce,
            r.authentic(secret@),
    {
        MailboxRead::seal_read_serial(bucket, secret, 1, cursor, nonce)
    }

    /// A request with a given version of the secret.
    pub fn seal_read_serial(
        bucket: NodeId,
        secret: &[u8; 32],
        serial: u32,
        cursor: u64,
        nonce: [u8; 16],
    ) -> (r: MailboxRead)
        ensures
            r.bucket == bucket,
            r.serial == serial,
            r.cursor == cursor,
            r.nonce == nonce,
            r.authentic(secret@),
    {
        let mut r = MailboxRead { bucket, serial, nonce, cursor, mac: [0; 32] };
        r.mac = r.compute_mac(secret);
        r
    }

    fn compute_mac(&self, secret: &[u8; 32]) -> (r: [u8; 32])
        ensures
            r@ == blake3_keyed(secret@, self.covered()),
    {
        let mut v = ascii_bytes("dc-bucket-read-v1\n");
        append(&mut v, self.bucket.as_slice());
        push_be(&mut v, self.serial as u64, 4);
        append(&mut v, self.nonce.as_slice());
        push_be(&mut v, self.cursor, 8);
        keyed_hash(secret, v.as_slice())
    }

    /// Whether the request was made by a holder of the secret.
    pub fn verify(&self, secret: &[u8; 32]) -> (r: bool)
        ensures
            r == self.authentic(secret@),
    {
        let expected = self.compute_mac(secret);
        proof {
            if self.mac@ == expected@ {
                assert(self.mac =~= expected);
            }
        }
        same_mac(&self.mac, &expected)
    }
}

/// The hash of a request covers every field: nobody can move the cursor, the bucket or the version
/// of a request and keep its hash input.
pub proof fn law_read_mac_binds_everything(a: MailboxRead, b: MailboxRead)
    requires
        a.covered() == b.covered(),
    ensures
        a.bucket == b.bucket,
        a.serial == b.serial,
        a.nonce == b.nonce,
        a.cursor == b.cursor,
{
    let tag = ascii("dc-bucket-read-v1\n"@);
    let (sa, sb) = (be_bytes(a.serial as nat, 4), be_bytes(b.serial as nat, 4));
    let (ca, cb) = (be_bytes(a.cursor as nat, 8), be_bytes(b.cursor as nat, 8));
    lemma_be_bytes_len(a.serial as nat, 4);
    lemma_be_bytes_len(b.serial as nat, 4);
    lemma_be_bytes_len(a.cursor as nat, 8);
    lemma_be_bytes_len(b.cursor as nat, 8);
    lemma_split(tag + a.bucket@ + sa + a.nonce@, ca, tag + b.bucket@ + sb + b.nonce@, cb);
    lemma_split(tag + a.bucket@ + sa, a.nonce@, tag + b.bucket@ + sb, b.nonce@);
    lemma_split(tag + a.bucket@, sa, tag + b.bucket@, sb);
    lemma_split(tag, a.bucket@, tag, b.bucket@);
    lemma_ranges();
    law_be_injective(a.serial as nat, b.serial as nat, 4);
    law_be_injective(a.cursor as nat, b.cursor as nat, 8);
    assert(a.nonce =~= b.nonce);
    assert(a.bucket =~= b.bucket);
}

/// A write passes if and only if its hash is the keyed one over all that it covers and its time lies within
/// five minutes of now, on either side.
pub proof fn law_write_passes_within_five_minutes(w: BucketWriteData, secret: Seq<u8>, now_ms: u64)
    ensures
        in_window(w.ts_ms, now_ms) <==> -300_000 <= w.ts_ms - now_ms <= 300_000,
        w.passes(secret, now_ms) <==> w.mac@ == blake3_keyed(secret, w.mac_input()) && -300_000 <= w.ts_ms
            - now_ms <= 300_000,
{
}

/// A read request is good if and only if its hash is the keyed one over all that it covers.
pub proof fn law_read_needs_the_secret(r: MailboxRead, secret: Seq<u8>)
    ensures
        r.authentic(secret) <==> r.mac@ == blake3_keyed(secret, r.covered()),
{
}

/// The hashes of writes and of read requests never cover the same bytes.
pub proof fn law_reads_and_writes_are_told_apart(w: BucketWriteData, r: MailboxRead)
    ensures
        w.mac_input() != r.covered(),
{
    reveal_strlit("dc-bucket-write-v1\n");
    reveal_strlit("dc-bucket-read-v1\n");
    let (a, b) = (ascii("dc-bucket-write-v1\n"@), ascii("dc-bucket-read-v1\n"@));
    assert(a[10] == w.mac_input()[10]);
    assert(b[10] == r.covered()[10]);
    assert(a[10] != b[10]);
}

/// A line of the ledger counts until two minutes after its time.
pub proof fn law_line_lives_for_its_time(e: LedgerEntry, now_ms: u64)
    requires
        e.1 + 120_000 <= u64::MAX,
    ensures
        live(e, now_ms) <==> now_ms < e.1 + 120_000,
{
}

/// A message that no line that still counts names is let through, as long as there is room: fewer than 4096
/// such lines. It is not let through otherwise.
pub proof fn law_new_message_passes(entries: Seq<LedgerEntry>, id: MsgId, now_ms: u64)
    ensures
        ledger_accepts(entries, id, now_ms) <==> {
            &&& forall|e: LedgerEntry| #[trigger] entries.contains(e) && e.0 == id ==> !live(e, now_ms)
            &&& entries.filter(|e: LedgerEntry| live(e, now_ms)).len() < 4096
        },
        entries.len() < 4096 && (forall|e: LedgerEntry| #[trigger]
            entries.contains(e) ==> e.0 != id) ==> ledger_accepts(entries, id, now_ms),
{
    let keep = |e: LedgerEntry| live(e, now_ms);
    let kept = live_entries(entries, now_ms);
    entries.lemma_filter_len(keep);
    if listed(kept, id) {
        let i = choose|i: int| 0 <= i < kept.len() && (#[trigger] kept[i]).0 == id;
        assert(kept.contains(kept[i]));
        lemma_filter_keeps(entries, keep, kept[i]);
    } else {
        assert forall|e: LedgerEntry| #[trigger] entries.contains(e) && e.0 == id implies !live(
            e,
            now_ms,
        ) by {
            lemma_filter_keeps(entries, keep, e);
            if kept.contains(e) {
                let i = choose|i: int| 0 <= i < kept.len() && kept[i] == e;
                assert(kept[i].0 == id);
            }
        }
    }
}

/// The ledger keeps every line that still counts and nothing else, and with a message that was let through
/// one line more: its id, until seven minutes after its time.
pub proof fn law_ledger_remembers(
    entries: Seq<LedgerEntry>,
    id: MsgId,
    ts_ms: u64,
    now_ms: u64,
    e: LedgerEntry,
)
    requires
        ts_ms + 420_000 <= u64::MAX,
    ensures
        ledger_after(entries, id, ts_ms, now_ms).contains(e) <==> (entries.contains(e) && live(e, now_ms))
            || (ledger_accepts(entries, id, now_ms) && e == (id, (ts_ms + 420_000) as u64)),
{
    let keep = |x: LedgerEntry| live(x, now_ms);
    lemma_filter_keeps(entries, keep, e);
    lemma_push_contains(live_entries(entries, now_ms), ledger_line(id, ts_ms), e);
}

/// A restart loses no line and makes none up: all that stood in the ledger stays, what comes in was kept,
/// and where there is room for all lines, every message of them is known after it.
pub proof fn law_restart_adds_what_was_kept(
    entries: Seq<LedgerEntry>,
    lines: Seq<LedgerEntry>,
    e: LedgerEntry,
)
    ensures
        entries.contains(e) ==> ledger_with(entries, lines).contains(e),
        ledger_with(entries, lines).contains(e) ==> entries.contains(e) || lines.contains(e),
        ledger_with(entries, lines).len() <= entries.len() + lines.len(),
        entries.len() + lines.len() <= 4096 && lines.contains(e) ==> listed(
            ledger_with(entries, lines),
            e.0,
        ),
    decreases lines.len(),
{
    if lines.len() > 0 {
        let (before, last) = (lines.drop_last(), lines.last());
        let front = ledger_with(entries, before);
        let after = ledger_with(entries, lines);
        law_restart_adds_what_was_kept(entries, before, e);
        assert(lines == before.push(last));
        lemma_push_contains(before, last, e);
        lemma_push_contains(front, last, e);
        lemma_push_contains(front, last, last);
        if entries.len() + lines.len() <= 4096 && lines.contains(e) {
            if before.contains(e) {
                let i = choose|i: int| 0 <= i < front.len() && (#[trigger] front[i]).0 == e.0;
                assert(after[i].0 == e.0);
            } else if !listed(front, last.0) {
                assert(after[front.len() as int].0 == e.0);
            }
        }
    }
}

/// Where the fields of a write stand in what its hash covers: a tag, the version, the nonce and the time, then
/// the signature, a zero or a one with its length, and the envelope.
#[verifier::rlimit(40)]
pub proof fn law_write_fields_in_their_places(w: BucketWriteData)
    ensures
        ({
            let m = w.mac_input();
            &&& m.take(19) == ascii("dc-bucket-write-v1\n"@)
            &&& m.subrange(19, 23) == be_bytes(w.serial as nat, 4)
            &&& m.subrange(23, 39) == w.nonce@
            &&& m.subrange(39, 47) == be_bytes(w.ts_ms as nat, 8)
            &&& w.envelope.sig is None ==> m[47] == 0 && m.skip(48) == w.envelope.field_bytes()
            &&& w.envelope.sig matches Some(s) ==> {
                &&& m[47] == 1
                &&& m.subrange(48, 56) == be_bytes(s.len(), 8)
                &&& m.subrange(56, 56 + s.len() as int) == s
                &&& m.skip(56 + s.len() as int) == w.envelope.field_bytes()
            }
        }),
{
    broadcast use lemma_be_bytes_len;

    reveal_strlit("dc-bucket-write-v1\n");
    let m = w.mac_input();
    assert(m.take(19) =~= ascii("dc-bucket-write-v1\n"@));
    assert(m.subrange(19, 23) =~= be_bytes(w.serial as nat, 4));
    assert(m.subrange(23, 39) =~= w.nonce@);
    assert(m.subrange(39, 47) =~= be_bytes(w.ts_ms as nat, 8));
    match w.envelope.sig {
        Some(s) => {
            assert(m.subrange(48, 56) =~= be_bytes(s.len(), 8));
            assert(m.subrange(56, 56 + s.len() as int) =~= s);
            assert(m.skip(56 + s.len() as int) =~= w.envelope.field_bytes());
        },
        None => {
            assert(m.skip(48) =~= w.envelope.field_bytes());
        },
    }
}

/// Where the fields of a read request stand in what its hash covers, and what a secret is derived from.
#[verifier::rlimit(40)]
pub proof fn law_read_fields_in_their_places(
    r: MailboxRead,
    handshake: Seq<u8>,
    bucket: Seq<u8>,
    serial: u32,
)
    ensures
        ({
            let c = r.covered();
            &&& c.len() == 78
            &&& c.take(18) == ascii("dc-bucket-read-v1\n"@)
            &&& c.subrange(18, 50) == r.bucket@
            &&& c.subrange(50, 54) == be_bytes(r.serial as nat, 4)
            &&& c.subrange(54, 70) == r.nonce@
            &&& c.subrange(70, 78) == be_bytes(r.cursor as nat, 8)
        }),
        ({
            let (m, n) = (secret_material(handshake, bucket, serial), handshake.len() as int);
            &&& m.take(n) == handshake
            &&& m.subrange(n, n + bucket.len()) == bucket
            &&& m.skip(n + bucket.len()) == be_bytes(serial as nat, 4)
            &&& mailbox_secret(handshake, bucket, serial) == blake3_derived("dc-mailbox-v1"@, m)
        }),
{
    broadcast use lemma_be_bytes_len;

    reveal_strlit("dc-bucket-read-v1\n");
    let c = r.covered();
    assert(c.take(18) =~= ascii("dc-bucket-read-v1\n"@));
    assert(c.subrange(18, 50) =~= r.bucket@);
    assert(c.subrange(50, 54) =~= be_bytes(r.serial as nat, 4));
    assert(c.subrange(54, 70) =~= r.nonce@);
    assert(c.subrange(70, 78) =~= be_bytes(r.cursor as nat, 8));
    let (m, n) = (secret_material(handshake, bucket, serial), handshake.len() as int);
    assert(m.take(n) =~= handshake);
    assert(m.subrange(n, n + bucket.len()) =~= bucket);
    assert(m.skip(n + bucket.len()) =~= be_bytes(serial as nat, 4));
}

} // verus!

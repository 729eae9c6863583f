//! What a device keeps for its sessions: its own identity, the identities of its contacts, the
//! sessions and the keys that it has published. All records are kept as the bytes that the session
//! layer made of them.
//!
//! A contact's identity is trusted on first use: the first one is taken, and from then on no other.
use vstd::prelude::*;
use crate::bytes::{same, to_vec};
use crate::text::same_text;
use crate::CoreError;

verus! {

/// What a record is found by: a name and a number.
pub type RecordKey = (Seq<char>, u32);

/// One record.
struct Record {
    name: String,
    number: u32,
    bytes: Vec<u8>,
}

impl Record {
    spec fn key(self) -> RecordKey {
        (self.name@, self.number)
    }
}

/// Records, each found by a name and a number.
struct Table {
    records: Vec<Record>,
}

/// The record with a key; of several the last.
spec fn record_of(s: Seq<Record>, key: RecordKey) -> Option<Seq<u8>>
    decreases s.len(),
{
    if s.len() == 0 {
        None
    } else if s.last().key() == key {
        Some(s.last().bytes@)
    } else {
        record_of(s.drop_last(), key)
    }
}

impl View for Table {
    type V = Map<RecordKey, Seq<u8>>;

    closed spec fn view(&self) -> Map<RecordKey, Seq<u8>> {
        Map::new(
            |key: RecordKey| record_of(self.records@, key) is Some,
            |key: RecordKey| record_of(self.records@, key)->0,
        )
    }
}

/// A record that stands in a table is found.
proof fn lemma_record_stands(s: Seq<Record>, i: int)
    requires
        0 <= i < s.len(),
    ensures
        record_of(s, s[i].key()) is Some,
    decreases s.len(),
{
    if s.last().key() != s[i].key() {
        assert(s.drop_last()[i] == s[i]);
        lemma_record_stands(s.drop_last(), i);
    }
}

/// What is found stands in the table.
proof fn lemma_record_found(s: Seq<Record>, key: RecordKey) -> (i: int)
    requires
        record_of(s, key) is Some,
    ensures
        0 <= i < s.len(),
        s[i].key() == key,
    decreases s.len(),
{
    if s.last().key() == key {
        s.len() - 1
    } else {
        let i = lemma_record_found(s.drop_last(), key);
        assert(s[i] == s.drop_last()[i]);
        i
    }
}

impl Table {
    fn new() -> (r: Table)
        ensures
            r@ == Map::<RecordKey, Seq<u8>>::empty(),
    {
        let r = Table { records: Vec::new() };
        assert(r@ =~= Map::<RecordKey, Seq<u8>>::empty());
        r
    }

    /// The record with a key.
    fn get(&self, name: &str, number: u32) -> (r: Option<&Vec<u8>>)
        ensures
            match r {
                Some(b) => self@.contains_key((name@, number)) && b@ == self@[(name@, number)],
                None => !self@.contains_key((name@, number)),
            },
    {
        let ghost key = (name@, number);
        let mut i: usize = self.records.len();
        assert(self.records@.take(i as int) =~= self.records@);
        while i > 0
            invariant
                i <= self.records@.len(),
                key == (name@, number),
                record_of(self.records@.take(i as int), key) == record_of(self.records@, key),
            decreases i,
        {
            let ghost now = self.records@.take(i as int);
            assert(now.last() == self.records@[i - 1]);
            assert(now.drop_last() =~= self.records@.take(i - 1));
            i = i - 1;
            let record: &Record = &self.records[i];
            if record.number == number && same_text(record.name.as_str(), name) {
                return Some(&record.bytes);
            }
        }
        None
    }

    /// Forgets the record with a key.
    fn remove(&mut self, name: &str, number: u32)
        ensures
            final(self)@ == old(self)@.remove((name@, number)),
    {
        let ghost key = (name@, number);
        let ghost before = self.records@;
        let mut kept: Vec<Record> = Vec::new();
        let mut old_records: Vec<Record> = Vec::new();
        std::mem::swap(&mut old_records, &mut self.records);
        let ghost mut i: int = 0;
        assert(before.skip(0) =~= before);
        while old_records.len() > 0
            invariant
                0 <= i,
                i + old_records@.len() == before.len(),
                old_records@ == before.skip(i),
                key == (name@, number),
                record_of(kept@, key) is None,
                forall|k: RecordKey|
                    k != key ==> #[trigger] record_of(kept@, k) == record_of(
                        before.take(i),
                        k,
                    ),
            decreases old_records@.len(),
        {
            let record: Record = old_records.remove(0);
            let ghost had = kept@;
            proof {
                assert(record == before[i]);
                assert(old_records@ =~= before.skip(i + 1));
                assert(before.take(i + 1).drop_last() =~= before.take(i));
                assert(before.take(i + 1).last() == record);
            }
            if record.number != number || !same_text(record.name.as_str(), name) {
                kept.push(record);
                assert(kept@.drop_last() =~= had);
                assert(kept@.last() == record);
            }
            proof {
                assert forall|k: RecordKey| k != key implies #[trigger] record_of(kept@, k)
                    == record_of(before.take(i + 1), k) by {
                    assert(record_of(had, k) == record_of(before.take(i), k));
                }
            }
            proof {
                i = i + 1;
            }
        }
        assert(before.take(i) =~= before);
        self.records = kept;
        proof {
            assert forall|k: RecordKey| k != key implies #[trigger] record_of(self.records@, k)
                == record_of(before, k) by {}
            assert(self@ =~= old(self)@.remove(key)) by {
                assert forall|k: RecordKey| self@.contains_key(k) == old(self)@.remove(
                    key,
                ).contains_key(k) by {
                    if k != key {
                        assert(record_of(self.records@, k) == record_of(before, k));
                    }
                }
                assert forall|k: RecordKey| #[trigger] self@.contains_key(k) implies self@[k]
                    == old(self)@.remove(key)[k] by {
                    assert(k != key);
                    assert(record_of(self.records@, k) == record_of(before, k));
                }
            }
        }
    }

    /// Puts a record in the place of the one with its key.
    fn put(&mut self, name: &str, number: u32, bytes: &[u8])
        ensures
            final(self)@ == old(self)@.insert((name@, number), bytes@),
    {
        let ghost key = (name@, number);
        self.remove(name, number);
        let ghost before = self.records@;
        let ghost less = self@;
        self.records.push(Record { name: name.to_owned(), number, bytes: to_vec(bytes) });
        proof {
            assert(self.records@.drop_last() =~= before);
            assert(self.records@.last().key() == key);
            assert forall|k: RecordKey| self@.contains_key(k) == less.insert(key, bytes@).contains_key(
                k,
            ) by {
                if k != key {
                    assert(record_of(self.records@, k) == record_of(before, k));
                }
            }
            assert forall|k: RecordKey| #[trigger] self@.contains_key(k) implies self@[k]
                == less.insert(key, bytes@)[k] by {
                if k != key {
                    assert(record_of(self.records@, k) == record_of(before, k));
                }
            }
            assert(self@ =~= less.insert(key, bytes@));
            assert(self@ =~= old(self)@.insert(key, bytes@));
        }
    }

    /// The highest number in the table, or zero.
    fn highest(&self) -> (r: u32)
        ensures
            forall|k: RecordKey| #[trigger] self@.contains_key(k) ==> k.1 <= r,
            r == 0 || exists|k: RecordKey| #[trigger] self@.contains_key(k) && k.1 == r,
    {
        let mut top: u32 = 0;
        let mut i: usize = 0;
        while i < self.records.len()
            invariant
                i <= self.records@.len(),
                forall|j: int| 0 <= j < i ==> (#[trigger] self.records@[j]).number <= top,
                top == 0 || exists|j: int| 0 <= j < i && (#[trigger] self.records@[j]).number == top,
            decreases self.records@.len() - i,
        {
            let n: u32 = self.records[i].number;
            let ghost was = top;
            if n > top {
                top = n;
            }
            proof {
                if top != 0 {
                    if n > was {
                        assert(self.records@[i as int].number == top);
                    } else {
                        let j = choose|j: int| 0 <= j < i && (#[trigger] self.records@[j]).number == was;
                        assert(self.records@[j].number == top);
                    }
                }
            }
            i = i + 1;
        }
        proof {
            assert forall|k: RecordKey| #[trigger] self@.contains_key(k) implies k.1 <= top by {
                let j = lemma_record_found(self.records@, k);
                assert(self.records@[j].number <= top);
            }
            if top != 0 {
                let j = choose|j: int| 0 <= j < i && (#[trigger] self.records@[j]).number == top;
                lemma_record_stands(self.records@, j);
                assert(self@.contains_key(self.records@[j].key()));
            }
        }
        top
    }
}

/// What a device keeps for its sessions.
pub struct SignalStore {
    identity: Option<(Vec<u8>, u32)>,
    trusted: Table,
    sessions: Table,
    pre_keys: Table,
    signed_pre_keys: Table,
    kyber_pre_keys: Table,
}

/// What a device keeps for its sessions, as plain values. Contacts are found by their name and the
/// number of their device, keys by an empty name and their number.
#[verifier::ext_equal]
pub struct SignalState {
    /// The device's own identity and registration number.
    pub identity: Option<(Seq<u8>, u32)>,
    /// The identities of contacts.
    pub trusted: Map<RecordKey, Seq<u8>>,
    pub sessions: Map<RecordKey, Seq<u8>>,
    pub pre_keys: Map<RecordKey, Seq<u8>>,
    pub signed_pre_keys: Map<RecordKey, Seq<u8>>,
    pub kyber_pre_keys: Map<RecordKey, Seq<u8>>,
}

impl View for SignalStore {
    type V = SignalState;

    closed spec fn view(&self) -> SignalState {
        SignalState {
            identity: match self.identity {
                Some((pair, registration)) => Some((pair@, registration)),
                None => None,
            },
            trusted: self.trusted@,
            sessions: self.sessions@,
            pre_keys: self.pre_keys@,
            signed_pre_keys: self.signed_pre_keys@,
            kyber_pre_keys: self.kyber_pre_keys@,
        }
    }
}

/// The tables of published keys.
#[derive(Debug, Clone, Copy, PartialEq, Eq, Structural)]
pub enum KeyTable {
    PreKeys,
    SignedPreKeys,
    KyberPreKeys,
}

/// The name of a table of published keys.
pub open spec fn table_name(t: KeyTable) -> Seq<char> {
    match t {
        KeyTable::PreKeys => "pre_keys"@,
        KeyTable::SignedPreKeys => "signed_pre_keys"@,
        KeyTable::KyberPreKeys => "kyber_pre_keys"@,
    }
}

/// The table of published keys with a name.
pub fn key_table(name: &str) -> (r: Result<KeyTable, CoreError>)
    ensures
        match r {
            Ok(t) => name@ == table_name(t),
            Err(e) => {
                &&& forall|t: KeyTable| name@ != #[trigger] table_name(t)
                &&& e is Config
                &&& e.text() == "unknown prekey table"@
            },
        },
{
    if same_text(name, "pre_keys") {
        Ok(KeyTable::PreKeys)
    } else if same_text(name, "signed_pre_keys") {
        Ok(KeyTable::SignedPreKeys)
    } else if same_text(name, "kyber_pre_keys") {
        Ok(KeyTable::KyberPreKeys)
    } else {
        Err(CoreError::Config("unknown prekey table".to_owned()))
    }
}

impl SignalState {
    /// The published keys of a table.
    pub open spec fn published(self, t: KeyTable) -> Map<RecordKey, Seq<u8>> {
        match t {
            KeyTable::PreKeys => self.pre_keys,
            KeyTable::SignedPreKeys => self.signed_pre_keys,
            KeyTable::KyberPreKeys => self.kyber_pre_keys,
        }
    }

    /// The state with other published keys in a table.
    pub open spec fn with_published(self, t: KeyTable, keys: Map<RecordKey, Seq<u8>>) -> SignalState {
        match t {
            KeyTable::PreKeys => SignalState { pre_keys: keys, ..self },
            KeyTable::SignedPreKeys => SignalState { signed_pre_keys: keys, ..self },
            KeyTable::KyberPreKeys => SignalState { kyber_pre_keys: keys, ..self },
        }
    }

    /// An identity is trusted at an address: there is none yet, or it is the one.
    pub open spec fn trusts(self, address: RecordKey, identity: Seq<u8>) -> bool {
        !self.trusted.contains_key(address) || self.trusted[address] == identity
    }

    /// The state after an identity was noted at an address.
    pub open spec fn pinned(self, address: RecordKey, identity: Seq<u8>) -> SignalState {
        SignalState { trusted: self.trusted.insert(address, identity), ..self }
    }
}

/// The key of a published key's record.
pub open spec fn number_key(number: u32) -> RecordKey {
    (""@, number)
}

/// A number is the next one for a published key: one more than the highest there is. When the
/// numbers are used up, they begin again at one.
pub open spec fn is_next(keys: Map<RecordKey, Seq<u8>>, n: u32) -> bool {
    if exists|k: RecordKey| #[trigger] keys.contains_key(k) && k.1 == u32::MAX {
        n == 1
    } else {
        &&& n >= 1
        &&& forall|k: RecordKey| #[trigger] keys.contains_key(k) ==> k.1 < n
        &&& n == 1 || exists|k: RecordKey| #[trigger] keys.contains_key(k) && k.1 == n - 1
    }
}

impl SignalStore {
    /// A store that holds nothing.
    pub fn new() -> (r: SignalStore)
        ensures
            r@ == (SignalState {
                identity: None,
                trusted: Map::empty(),
                sessions: Map::empty(),
                pre_keys: Map::empty(),
                signed_pre_keys: Map::empty(),
                kyber_pre_keys: Map::empty(),
            }),
    {
        SignalStore {
            identity: None,
            trusted: Table::new(),
            sessions: Table::new(),
            pre_keys: Table::new(),
            signed_pre_keys: Table::new(),
            kyber_pre_keys: Table::new(),
        }
    }

    /// The device's own identity and registration number, if it has been set up.
    pub fn local_identity(&self) -> (r: Option<(Vec<u8>, u32)>)
        ensures
            self@.identity == match r {
                Some((pair, registration)) => Some((pair@, registration)),
                None => None,
            },
    {
        match &self.identity {
            Some((pair, registration)) => Some((to_vec(pair.as_slice()), *registration)),
            None => None,
        }
    }

    /// Sets the device up.
    pub fn save_local_identity(&mut self, pair: &[u8], registration_id: u32)
        ensures
            final(self)@ == (SignalState { identity: Some((pair@, registration_id)), ..old(self)@ }),
    {
        self.identity = Some((to_vec(pair), registration_id));
    }

    /// The number for the next key of a table. Keys that were published before keep theirs.
    pub fn next_prekey_id(&self, table: &str) -> (r: Result<u32, CoreError>)
        ensures
            match r {
                Ok(n) => exists|t: KeyTable| table@ == #[trigger] table_name(t) && is_next(
                    self@.published(t),
                    n,
                ),
                Err(e) => {
                    &&& forall|t: KeyTable| table@ != #[trigger] table_name(t)
                    &&& e is Config
                    &&& e.text() == "unknown prekey table"@
                },
            },
    {
        let t: KeyTable = key_table(table)?;
        let top: u32 = match t {
            KeyTable::PreKeys => self.pre_keys.highest(),
            KeyTable::SignedPreKeys => self.signed_pre_keys.highest(),
            KeyTable::KyberPreKeys => self.kyber_pre_keys.highest(),
        };
        let n: u32 = if top == u32::MAX {
            1
        } else {
            top + 1
        };
        assert(table@ == table_name(t) && is_next(self@.published(t), n));
        Ok(n)
    }

    /// Notes the identity of a contact. When another one was noted before, that one stays, and the
    /// error says whose identity has changed: the safety code has to be compared again.
    pub fn save_identity(&mut self, name: &str, device: u8, identity: &[u8]) -> (r: Result<
        (),
        CoreError,
    >)
        ensures
            r is Ok <==> old(self)@.trusts((name@, device as u32), identity@),
            r matches Err(e) ==> e is IdentityChanged && e.text() == name@,
            final(self)@ == if r is Ok {
                old(self)@.pinned((name@, device as u32), identity@)
            } else {
                old(self)@
            },
    {
        if !self.is_trusted_identity(name, device, identity) {
            return Err(CoreError::IdentityChanged(name.to_owned()));
        }
        self.trusted.put(name, device as u32, identity);
        Ok(())
    }

    /// Notes the identity of a contact after the user has confirmed it, and says whether another one
    /// was noted before.
    pub fn upsert_identity_confirmed(&mut self, name: &str, device: u8, identity: &[u8]) -> (r: bool)
        ensures
            final(self)@ == old(self)@.pinned((name@, device as u32), identity@),
            r == !old(self)@.trusts((name@, device as u32), identity@),
    {
        let changed: bool = !self.is_trusted_identity(name, device, identity);
        self.trusted.put(name, device as u32, identity);
        changed
    }

    /// Whether an identity is trusted: the contact has none yet, or it is the one.
    pub fn is_trusted_identity(&self, name: &str, device: u8, identity: &[u8]) -> (r: bool)
        ensures
            r == self@.trusts((name@, device as u32), identity@),
    {
        match self.trusted.get(name, device as u32) {
            Some(known) => same(known.as_slice(), identity),
            None => true,
        }
    }

    /// The noted identity of a contact.
    pub fn get_identity(&self, name: &str, device: u8) -> (r: Option<&Vec<u8>>)
        ensures
            match r {
                Some(b) => self@.trusted.contains_key((name@, device as u32)) && b@
                    == self@.trusted[(name@, device as u32)],
                None => !self@.trusted.contains_key((name@, device as u32)),
            },
    {
        self.trusted.get(name, device as u32)
    }

    /// The session with a contact.
    pub fn load_session(&self, name: &str, device: u8) -> (r: Option<&Vec<u8>>)
        ensures
            match r {
                Some(b) => self@.sessions.contains_key((name@, device as u32)) && b@
                    == self@.sessions[(name@, device as u32)],
                None => !self@.sessions.contains_key((name@, device as u32)),
            },
    {
        self.sessions.get(name, device as u32)
    }

    /// Keeps the session with a contact.
    pub fn store_session(&mut self, name: &str, device: u8, record: &[u8])
        ensures
            final(self)@ == (SignalState {
                sessions: old(self)@.sessions.insert((name@, device as u32), record@),
                ..old(self)@
            }),
    {
        self.sessions.put(name, device as u32, record);
    }

    /// A published key.
    pub fn get_key(&self, table: KeyTable, id: u32) -> (r: Option<&Vec<u8>>)
        ensures
            match r {
                Some(b) => self@.published(table).contains_key(number_key(id)) && b@
                    == self@.published(table)[number_key(id)],
                None => !self@.published(table).contains_key(number_key(id)),
            },
    {
        match table {
            KeyTable::PreKeys => self.pre_keys.get("", id),
            KeyTable::SignedPreKeys => self.signed_pre_keys.get("", id),
            KeyTable::KyberPreKeys => self.kyber_pre_keys.get("", id),
        }
    }

    /// Keeps a published key.
    pub fn save_key(&mut self, table: KeyTable, id: u32, record: &[u8])
        ensures
            final(self)@ == old(self)@.with_published(
                table,
                old(self)@.published(table).insert(number_key(id), record@),
            ),
    {
        match table {
            KeyTable::PreKeys => self.pre_keys.put("", id, record),
            KeyTable::SignedPreKeys => self.signed_pre_keys.put("", id, record),
            KeyTable::KyberPreKeys => self.kyber_pre_keys.put("", id, record),
        }
    }

    /// Forgets a published key. One-time keys are forgotten once they were used, those of the
    /// post-quantum kind as well.
    pub fn remove_key(&mut self, table: KeyTable, id: u32)
        ensures
            final(self)@ == old(self)@.with_published(
                table,
                old(self)@.published(table).remove(number_key(id)),
            ),
    {
        match table {
            KeyTable::PreKeys => self.pre_keys.remove("", id),
            KeyTable::SignedPreKeys => self.signed_pre_keys.remove("", id),
            KeyTable::KyberPreKeys => self.kyber_pre_keys.remove("", id),
        }
    }
}

/// Trust on first use: any identity is taken at first; once one was noted, it is trusted and no
/// other is.
pub proof fn law_first_identity_is_the_one(
    state: SignalState,
    address: RecordKey,
    identity: Seq<u8>,
    other: Seq<u8>,
)
    requires
        identity != other,
    ensures
        !state.trusted.contains_key(address) ==> state.trusts(address, identity) && state.trusts(
            address,
            other,
        ),
        state.pinned(address, identity).trusts(address, identity),
        !state.pinned(address, identity).trusts(address, other),
{
}

/// Without the user's confirmation a noted identity stays: noting a trusted one again changes
/// nothing.
pub proof fn law_noted_identity_stays(state: SignalState, address: RecordKey, identity: Seq<u8>)
    requires
        state.trusted.contains_key(address),
        state.trusts(address, identity),
    ensures
        state.pinned(address, identity) == state,
{
    assert(state.trusted.insert(address, identity) =~= state.trusted);
}

/// Noting an identity at one address changes nothing at another.
pub proof fn law_trust_is_per_address(
    state: SignalState,
    address: RecordKey,
    identity: Seq<u8>,
    elsewhere: RecordKey,
    other: Seq<u8>,
)
    requires
        address != elsewhere,
    ensures
        state.pinned(address, identity).trusts(elsewhere, other) == state.trusts(elsewhere, other),
{
}

/// A new key takes no number that is in use, as long as the numbers are not used up.
pub proof fn law_new_key_replaces_none(keys: Map<RecordKey, Seq<u8>>, n: u32)
    requires
        is_next(keys, n),
        forall|k: RecordKey| #[trigger] keys.contains_key(k) ==> k.1 < u32::MAX,
    ensures
        !keys.contains_key(number_key(n)),
{
}

/// Numbers of published keys go up by one from one, as long as there are numbers left.
pub proof fn law_numbers_go_up_by_one(keys: Map<RecordKey, Seq<u8>>, n: u32, highest: RecordKey)
    requires
        is_next(keys, n),
    ensures
        (forall|k: RecordKey| !#[trigger] keys.contains_key(k)) ==> n == 1,
        keys.contains_key(highest) && (forall|k: RecordKey| #[trigger]
            keys.contains_key(k) ==> k.1 <= highest.1) ==> n == if highest.1 == u32::MAX {
            1
        } else {
            highest.1 + 1
        },
{
}

/// New keys in a table change that table alone.
pub proof fn law_tables_are_separate(
    state: SignalState,
    t: KeyTable,
    keys: Map<RecordKey, Seq<u8>>,
    other: KeyTable,
)
    ensures
        ({
            let now = state.with_published(t, keys);
            &&& now.published(t) == keys
            &&& other != t ==> now.published(other) == state.published(other)
            &&& now.identity == state.identity
            &&& now.trusted == state.trusted
            &&& now.sessions == state.sessions
        }),
        state.published(KeyTable::PreKeys) == state.pre_keys,
        state.published(KeyTable::SignedPreKeys) == state.signed_pre_keys,
        state.published(KeyTable::KyberPreKeys) == state.kyber_pre_keys,
        table_name(t) == table_name(other) ==> t == other,
{
    reveal_strlit("pre_keys");
    reveal_strlit("signed_pre_keys");
    reveal_strlit("kyber_pre_keys");
    assert(table_name(KeyTable::PreKeys).len() == 8);
    assert(table_name(KeyTable::SignedPreKeys).len() == 15);
    assert(table_name(KeyTable::KyberPreKeys).len() == 14);
}

/// To note an identity changes what is trusted at that address and nothing else.
pub proof fn law_noting_changes_one_address(
    state: SignalState,
    address: RecordKey,
    identity: Seq<u8>,
    elsewhere: RecordKey,
)
    ensures
        ({
            let now = state.pinned(address, identity);
            &&& now.trusted.contains_key(address) && now.trusted[address] == identity
            &&& elsewhere != address ==> {
                &&& now.trusted.contains_key(elsewhere) == state.trusted.contains_key(elsewhere)
                &&& now.trusted.contains_key(elsewhere) ==> now.trusted[elsewhere]
                    == state.trusted[elsewhere]
            }
            &&& now == (SignalState { trusted: now.trusted, ..state })
        }),
        state.trusts(address, identity) <==> (state.trusted.contains_key(address) ==> state.trusted[address]
            == identity),
{
}

/// Published keys have no name, and one number each.
pub proof fn law_numbers_are_told_apart(a: u32, b: u32)
    ensures
        number_key(a) == number_key(b) ==> a == b,
        number_key(a).1 == a,
        number_key(a).0 == Seq::<char>::empty(),
{
    reveal_strlit("");
    assert(""@ =~= Seq::<char>::empty());
}

} // verus!

//! The supervisor's schema: which validators confirmed each pending artifact deployment
//! and each pending service start.

use crate::binary_set::BinarySet;
use crate::byte_map::ByteMap;
use crate::confirmation_index::{
    lemma_table_bytes_injective, stored_set, table_bytes, table_fits, ConfirmationIndex,
};
use vstd::utf8::encode_utf8;
use crate::digest::{sha256_digest, HashValue};
use vstd::prelude::*;

verus! {

/// A validator's public key, 32 bytes.
#[derive(Clone, Copy, Debug, PartialEq, Eq)]
pub struct PublicKey {
    bytes: [u8; 32],
}

impl View for PublicKey {
    type V = Seq<u8>;

    closed spec fn view(&self) -> Seq<u8> {
        self.bytes@
    }
}

impl PublicKey {
    /// The key with the given bytes.
    pub fn new(bytes: [u8; 32]) -> (key: Self)
        ensures
            key@ == bytes@,
    {
        PublicKey { bytes }
    }

    /// The 32 bytes of the key.
    pub fn as_bytes(&self) -> (bytes: [u8; 32])
        ensures
            bytes@ == self@,
    {
        self.bytes
    }

    /// The binary value of the key: its 32 bytes.
    pub fn to_bytes(&self) -> (bytes: Vec<u8>)
        ensures
            bytes@ == self@,
            bytes@.len() == 32,
    {
        vstd::slice::slice_to_vec(self.bytes.as_slice())
    }
}

/// The bytes of `.pending_artifacts`, which follow the instance name in the address of
/// the index of artifact confirmations.
pub open spec fn artifacts_suffix() -> Seq<u8> {
    seq![
        46u8, 112, 101, 110, 100, 105, 110, 103, 95,
        97, 114, 116, 105, 102, 97, 99, 116, 115,
    ]
}

/// The bytes of `.pending_instances`, which follow the instance name in the address of
/// the index of instance confirmations.
pub open spec fn instances_suffix() -> Seq<u8> {
    seq![
        46u8, 112, 101, 110, 100, 105, 110, 103, 95,
        105, 110, 115, 116, 97, 110, 99, 101, 115,
    ]
}

/// The address of the index of artifact confirmations of the instance `name`: the UTF-8
/// bytes of the name followed by `.pending_artifacts`.
pub open spec fn artifacts_address(name: Seq<char>) -> Seq<u8> {
    encode_utf8(name) + artifacts_suffix()
}

/// The address of the index of instance confirmations of the instance `name`: the UTF-8
/// bytes of the name followed by `.pending_instances`.
pub open spec fn instances_address(name: Seq<char>) -> Seq<u8> {
    encode_utf8(name) + instances_suffix()
}

/// The bytes of `instance_name` followed by `suffix`.
fn concat_name(instance_name: &str, suffix: &[u8]) -> (address: Vec<u8>)
    ensures
        address@ == encode_utf8(instance_name@) + suffix@,
{
    let mut address = vstd::slice::slice_to_vec(instance_name.as_bytes());
    let ghost start = address@;
    let mut i: usize = 0;
    while i < suffix.len()
        invariant
            i <= suffix@.len(),
            address@ == start + suffix@.take(i as int),
        decreases suffix@.len() - i,
    {
        address.push(suffix[i]);
        i = i + 1;
        assert(address@ =~= start + suffix@.take(i as int));
    }
    assert(suffix@.take(i as int) =~= suffix@);
    address
}

/// The address of the index of artifact confirmations of the instance `instance_name`.
pub fn pending_artifacts_address(instance_name: &str) -> (address: Vec<u8>)
    ensures
        address@ == artifacts_address(instance_name@),
{
    let suffix: [u8; 18] = [
        46u8, 112, 101, 110, 100, 105, 110, 103, 95,
        97, 114, 116, 105, 102, 97, 99, 116, 115,
    ];
    assert(suffix@ =~= artifacts_suffix());
    concat_name(instance_name, suffix.as_slice())
}

/// The address of the index of instance confirmations of the instance `instance_name`.
pub fn pending_instances_address(instance_name: &str) -> (address: Vec<u8>)
    ensures
        address@ == instances_address(instance_name@),
{
    let suffix: [u8; 18] = [
        46u8, 112, 101, 110, 100, 105, 110, 103, 95,
        105, 110, 115, 116, 97, 110, 99, 101, 115,
    ];
    assert(suffix@ =~= instances_suffix());
    concat_name(instance_name, suffix.as_slice())
}

/// The index stored at `address`; nothing stored reads as the empty index.
pub open spec fn index_at(
    store: Map<Seq<u8>, Map<Seq<u8>, Set<Seq<u8>>>>,
    address: Seq<u8>,
) -> Map<Seq<u8>, Set<Seq<u8>>> {
    if store.contains_key(address) {
        store[address]
    } else {
        Map::empty()
    }
}

/// The store of confirmation indexes, each at an address of its own.
#[derive(Debug)]
pub struct IndexStore {
    indexes: ByteMap<ConfirmationIndex>,
}

impl View for IndexStore {
    type V = Map<Seq<u8>, Map<Seq<u8>, Set<Seq<u8>>>>;

    closed spec fn view(&self) -> Map<Seq<u8>, Map<Seq<u8>, Set<Seq<u8>>>> {
        self.indexes@.map_values(|index: ConfirmationIndex| index@)
    }
}

impl IndexStore {
    /// A store that holds no index.
    pub fn new() -> (store: Self)
        ensures
            store@ == Map::<Seq<u8>, Map<Seq<u8>, Set<Seq<u8>>>>::empty(),
    {
        let store = IndexStore { indexes: ByteMap::new() };
        assert(store@ =~= Map::<Seq<u8>, Map<Seq<u8>, Set<Seq<u8>>>>::empty());
        store
    }

    /// The index at `address`, or the empty index where none is stored.
    pub fn index(&self, address: &[u8]) -> (index: ConfirmationIndex)
        ensures
            index@ == index_at(self@, address@),
    {
        match self.indexes.get(address) {
            Some(index) => index.clone(),
            None => ConfirmationIndex::new(),
        }
    }

    /// Stores `index` at `address`, in place of what was stored there.
    pub fn put(&mut self, address: &[u8], index: ConfirmationIndex)
        ensures
            final(self)@ == old(self)@.insert(address@, index@),
    {
        let ghost iv = index@;
        self.indexes.put(address, index);
        assert(self@ =~= old(self)@.insert(address@, iv));
    }

    /// Takes the index at `address` out of the store; the empty index where none is stored.
    pub fn take(&mut self, address: &[u8]) -> (index: ConfirmationIndex)
        ensures
            index@ == index_at(old(self)@, address@),
            final(self)@ == old(self)@.remove(address@),
    {
        let taken = self.indexes.remove(address);
        assert(self@ =~= old(self)@.remove(address@));
        match taken {
            Some(index) => index,
            None => ConfirmationIndex::new(),
        }
    }
}

/// The index `m` after `author` confirmed the request `key`: the author joins the set of
/// those who confirmed it, which starts empty.
pub open spec fn confirmed(
    m: Map<Seq<u8>, Set<Seq<u8>>>,
    key: Seq<u8>,
    author: Seq<u8>,
) -> Map<Seq<u8>, Set<Seq<u8>>> {
    m.insert(key, stored_set(m, key).insert(author))
}

/// Service information schema.
#[derive(Debug)]
pub struct Schema<'a> {
    access: IndexStore,
    instance_name: &'a str,
}

impl<'a> Schema<'a> {
    /// The store that the schema reads and writes.
    pub closed spec fn store(&self) -> Map<Seq<u8>, Map<Seq<u8>, Set<Seq<u8>>>> {
        self.access@
    }

    /// The name of the service instance that the schema belongs to.
    pub closed spec fn name(&self) -> &'a str {
        self.instance_name
    }

    /// The confirmations of pending artifact deployments: the index at the instance's
    /// artifacts address.
    pub open spec fn artifacts(&self) -> Map<Seq<u8>, Set<Seq<u8>>> {
        index_at(self.store(), artifacts_address(self.name()@))
    }

    /// The confirmations of pending service starts: the index at the instance's instances
    /// address.
    pub open spec fn instances(&self) -> Map<Seq<u8>, Set<Seq<u8>>> {
        index_at(self.store(), instances_address(self.name()@))
    }

    /// Constructs the schema of the instance `instance_name` over the store `access`.
    pub fn new(instance_name: &'a str, access: IndexStore) -> (schema: Self)
        ensures
            schema.name() == instance_name,
            schema.store() == access@,
    {
        Schema { instance_name, access }
    }

    /// The name of the service instance.
    pub fn instance_name(&self) -> (name: &'a str)
        ensures
            name == self.name(),
    {
        self.instance_name
    }

    /// The index of confirmations of pending artifact deployments, as it stands now: a
    /// copy, which `put_pending_artifacts` stores back.
    pub fn pending_artifacts(&self) -> (index: ConfirmationIndex)
        ensures
            index@ == self.artifacts(),
    {
        let address = pending_artifacts_address(self.instance_name);
        self.access.index(address.as_slice())
    }

    /// The index of confirmations of pending service starts, as it stands now: a copy,
    /// which `put_pending_instances` stores back.
    pub fn pending_instances(&self) -> (index: ConfirmationIndex)
        ensures
            index@ == self.instances(),
    {
        let address = pending_instances_address(self.instance_name);
        self.access.index(address.as_slice())
    }

    /// Stores `index` as the index of confirmations of pending artifact deployments.
    pub fn put_pending_artifacts(&mut self, index: ConfirmationIndex)
        ensures
            final(self).store() == old(self).store().insert(
                artifacts_address(old(self).name()@),
                index@,
            ),
            final(self).name() == old(self).name(),
            final(self).artifacts() == index@,
            final(self).instances() == old(self).instances(),
    {
        let address = pending_artifacts_address(self.instance_name);
        self.access.put(address.as_slice(), index);
        proof {
            lemma_addresses(self.name()@, self.name()@);
        }
    }

    /// Stores `index` as the index of confirmations of pending service starts.
    pub fn put_pending_instances(&mut self, index: ConfirmationIndex)
        ensures
            final(self).store() == old(self).store().insert(
                instances_address(old(self).name()@),
                index@,
            ),
            final(self).name() == old(self).name(),
            final(self).instances() == index@,
            final(self).artifacts() == old(self).artifacts(),
    {
        let address = pending_instances_address(self.instance_name);
        self.access.put(address.as_slice(), index);
        proof {
            lemma_addresses(self.name()@, self.name()@);
        }
    }

    /// Gives the store back.
    pub fn into_access(self) -> (access: IndexStore)
        ensures
            access@ == self.store(),
    {
        self.access
    }

    /// Records that `author` confirmed the deployment request `id` (its binary value) and
    /// returns how many distinct validators have confirmed it so far.
    pub fn confirm_pending_artifact(&mut self, id: &[u8], author: PublicKey) -> (count: usize)
        ensures
            final(self).store() == old(self).store().insert(
                artifacts_address(old(self).name()@),
                confirmed(old(self).artifacts(), id@, author@),
            ),
            final(self).name() == old(self).name(),
            final(self).artifacts() == confirmed(old(self).artifacts(), id@, author@),
            final(self).instances() == old(self).instances(),
            count == stored_set(final(self).artifacts(), id@).len(),
    {
        let address = pending_artifacts_address(self.instance_name);
        let mut pending_artifacts = self.access.take(address.as_slice());
        let mut confirmations = match pending_artifacts.get(id) {
            Some(set) => set.clone(),
            None => BinarySet::default(),
        };
        confirmations.insert(author.to_bytes());
        let len = confirmations.len();
        pending_artifacts.put(id, confirmations);
        self.access.put(address.as_slice(), pending_artifacts);
        proof {
            lemma_addresses(self.name()@, self.name()@);
            assert(self.store() =~= old(self).store().insert(
                artifacts_address(old(self).name()@),
                confirmed(old(self).artifacts(), id@, author@),
            ));
        }
        len
    }

    /// Records that `author` confirmed the service start request `instance_spec` (its
    /// binary value) and returns how many distinct validators have confirmed it so far.
    pub fn confirm_pending_instance(&mut self, instance_spec: &[u8], author: PublicKey) -> (count:
        usize)
        ensures
            final(self).store() == old(self).store().insert(
                instances_address(old(self).name()@),
                confirmed(old(self).instances(), instance_spec@, author@),
            ),
            final(self).name() == old(self).name(),
            final(self).instances() == confirmed(old(self).instances(), instance_spec@, author@),
            final(self).artifacts() == old(self).artifacts(),
            count == stored_set(final(self).instances(), instance_spec@).len(),
    {
        let address = pending_instances_address(self.instance_name);
        let mut pending_instances = self.access.take(address.as_slice());
        let mut confirmations = match pending_instances.get(instance_spec) {
            Some(set) => set.clone(),
            None => BinarySet::default(),
        };
        confirmations.insert(author.to_bytes());
        let len = confirmations.len();
        pending_instances.put(instance_spec, confirmations);
        self.access.put(address.as_slice(), pending_instances);
        proof {
            lemma_addresses(self.name()@, self.name()@);
            assert(self.store() =~= old(self).store().insert(
                instances_address(old(self).name()@),
                confirmed(old(self).instances(), instance_spec@, author@),
            ));
        }
        len
    }

    /// Returns the hashes of the two indexes: that of the artifact confirmations, then that
    /// of the instance confirmations. Each is a flat SHA-256 digest of the index's
    /// encoding, from which no proof of a single entry can be drawn.
    pub fn state_hash(&self) -> (hashes: Vec<HashValue>)
        ensures
            hashes@.len() == 2,
            hashes@[0]@ == sha256_digest(table_bytes(self.artifacts())),
            hashes@[1]@ == sha256_digest(table_bytes(self.instances())),
            table_fits(self.artifacts()),
            table_fits(self.instances()),
    {
        let mut hashes: Vec<HashValue> = Vec::new();
        hashes.push(self.pending_artifacts().object_hash());
        hashes.push(self.pending_instances().object_hash());
        hashes
    }
}

/// The artifacts index and the instances index of any two instances are at different
/// addresses, and two instances share an artifacts (or instances) index exactly when
/// their names are the same.
pub proof fn lemma_addresses(name1: Seq<char>, name2: Seq<char>)
    ensures
        artifacts_address(name1) != instances_address(name2),
        (artifacts_address(name1) == artifacts_address(name2)) <==> name1 == name2,
        (instances_address(name1) == instances_address(name2)) <==> name1 == name2,
{
    let b1 = encode_utf8(name1);
    let b2 = encode_utf8(name2);
    let a = artifacts_suffix();
    let i = instances_suffix();
    if artifacts_address(name1) == instances_address(name2) {
        assert((b1 + a).len() == (b2 + i).len());
        assert((b1 + a)[b1.len() + 9int] == a[9]);
        assert((b2 + i)[b2.len() + 9int] == i[9]);
    }
    if artifacts_address(name1) == artifacts_address(name2) {
        assert((b1 + a).len() == (b2 + a).len());
        assert(b1.len() == b2.len());
        assert(b1 =~= b2) by {
            assert forall|k: int| 0 <= k < b1.len() implies b1[k] == b2[k] by {
                assert((b1 + a)[k] == b1[k]);
                assert((b2 + a)[k] == b2[k]);
            }
        }
        vstd::utf8::encode_utf8_decode_utf8(name1);
        vstd::utf8::encode_utf8_decode_utf8(name2);
    }
    if instances_address(name1) == instances_address(name2) {
        assert((b1 + i).len() == (b2 + i).len());
        assert(b1.len() == b2.len());
        assert(b1 =~= b2) by {
            assert forall|k: int| 0 <= k < b1.len() implies b1[k] == b2[k] by {
                assert((b1 + i)[k] == b1[k]);
                assert((b2 + i)[k] == b2[k]);
            }
        }
        vstd::utf8::encode_utf8_decode_utf8(name1);
        vstd::utf8::encode_utf8_decode_utf8(name2);
    }
}

/// Confirming the same request by the same author a second time changes nothing.
pub proof fn lemma_confirm_idempotent(m: Map<Seq<u8>, Set<Seq<u8>>>, key: Seq<u8>, author: Seq<u8>)
    ensures
        confirmed(confirmed(m, key, author), key, author) == confirmed(m, key, author),
{
    let once = confirmed(m, key, author);
    assert(stored_set(once, key) == stored_set(m, key).insert(author));
    assert(stored_set(once, key).insert(author) =~= stored_set(once, key));
    assert(confirmed(once, key, author) =~= once);
}

/// Confirmations arriving in either order leave the same index.
pub proof fn lemma_confirm_commutes(
    m: Map<Seq<u8>, Set<Seq<u8>>>,
    key1: Seq<u8>,
    author1: Seq<u8>,
    key2: Seq<u8>,
    author2: Seq<u8>,
)
    ensures
        confirmed(confirmed(m, key1, author1), key2, author2) == confirmed(
            confirmed(m, key2, author2),
            key1,
            author1,
        ),
{
    let a = confirmed(confirmed(m, key1, author1), key2, author2);
    let b = confirmed(confirmed(m, key2, author2), key1, author1);
    if key1 == key2 {
        assert(stored_set(m, key1).insert(author1).insert(author2) =~= stored_set(m, key1).insert(
            author2,
        ).insert(author1));
    }
    assert(a =~= b);
}

/// A confirmation leaves the confirmations of every other request as they were.
pub proof fn lemma_confirm_other_requests(
    m: Map<Seq<u8>, Set<Seq<u8>>>,
    key: Seq<u8>,
    author: Seq<u8>,
    other: Seq<u8>,
)
    requires
        other != key,
    ensures
        stored_set(confirmed(m, key, author), other) == stored_set(m, other),
{
}

/// After a confirmation its author is among those who confirmed, and the count of
/// confirmations grew by one exactly when the author had not confirmed before.
pub proof fn lemma_confirm_count(m: Map<Seq<u8>, Set<Seq<u8>>>, key: Seq<u8>, author: Seq<u8>)
    requires
        stored_set(m, key).finite(),
    ensures
        stored_set(confirmed(m, key, author), key).contains(author),
        stored_set(confirmed(m, key, author), key).len() == if stored_set(m, key).contains(
            author,
        ) {
            stored_set(m, key).len()
        } else {
            stored_set(m, key).len() + 1
        },
{
    let s = stored_set(m, key);
    if s.contains(author) {
        assert(s.insert(author) =~= s);
    }
}

/// The index `m` after the confirmations in `requests`, each a request key and its
/// author, in order.
pub open spec fn confirmed_all(
    m: Map<Seq<u8>, Set<Seq<u8>>>,
    requests: Seq<(Seq<u8>, Seq<u8>)>,
) -> Map<Seq<u8>, Set<Seq<u8>>>
    decreases requests.len(),
{
    if requests.len() == 0 {
        m
    } else {
        let last = requests.last();
        confirmed(confirmed_all(m, requests.drop_last()), last.0, last.1)
    }
}

/// The authors of the confirmations of `key` among `requests`.
pub open spec fn authors_of(requests: Seq<(Seq<u8>, Seq<u8>)>, key: Seq<u8>) -> Set<Seq<u8>>
    decreases requests.len(),
{
    if requests.len() == 0 {
        Set::empty()
    } else {
        let last = requests.last();
        let earlier = authors_of(requests.drop_last(), key);
        if last.0 == key {
            earlier.insert(last.1)
        } else {
            earlier
        }
    }
}

/// After a run of confirmations, those of `key` are the ones it had before together with
/// the authors of its confirmations in the run; where it had none before, the count that
/// the last of its confirmations returns is the number of distinct authors so far.
pub proof fn lemma_confirm_run(
    m: Map<Seq<u8>, Set<Seq<u8>>>,
    requests: Seq<(Seq<u8>, Seq<u8>)>,
    key: Seq<u8>,
)
    ensures
        stored_set(confirmed_all(m, requests), key) == stored_set(m, key) + authors_of(
            requests,
            key,
        ),
        authors_of(requests, key).finite(),
        !m.contains_key(key) ==> stored_set(confirmed_all(m, requests), key) == authors_of(
            requests,
            key,
        ),
    decreases requests.len(),
{
    if requests.len() > 0 {
        let init = requests.drop_last();
        lemma_confirm_run(m, init, key);
        let last = requests.last();
        let before = confirmed_all(m, init);
        if last.0 == key {
            assert(stored_set(confirmed(before, key, last.1), key) =~= stored_set(m, key)
                + authors_of(requests, key));
        } else {
            assert(stored_set(confirmed(before, last.0, last.1), key) == stored_set(before, key));
        }
    } else {
        assert(stored_set(m, key) + Set::empty() =~= stored_set(m, key));
    }
    if !m.contains_key(key) {
        assert(stored_set(m, key) + authors_of(requests, key) =~= authors_of(requests, key));
    }
}

/// The authors of a run's confirmations of `key` only grow as the run goes on.
pub proof fn lemma_authors_grow(requests: Seq<(Seq<u8>, Seq<u8>)>, key: Seq<u8>, i: int)
    requires
        0 <= i <= requests.len(),
    ensures
        authors_of(requests.take(i), key).subset_of(authors_of(requests, key)),
        authors_of(requests.take(i), key).len() <= authors_of(requests, key).len(),
    decreases requests.len() - i,
{
    if i < requests.len() {
        lemma_authors_grow(requests, key, i + 1);
        let t = requests.take(i + 1);
        assert(t.drop_last() =~= requests.take(i));
        assert(authors_of(requests.take(i), key).subset_of(authors_of(t, key)));
    } else {
        assert(requests.take(i) =~= requests);
    }
    lemma_confirm_run(Map::empty(), requests, key);
    vstd::set_lib::lemma_len_subset(authors_of(requests.take(i), key), authors_of(requests, key));
}

/// A confirmation by an author who had not confirmed the request yet changes the encoding
/// of the index, and so the input of its hash: an unchanged hash would be a SHA-256
/// collision.
pub proof fn lemma_new_confirmation_changes_bytes(
    m: Map<Seq<u8>, Set<Seq<u8>>>,
    key: Seq<u8>,
    author: Seq<u8>,
)
    requires
        table_fits(m),
        table_fits(confirmed(m, key, author)),
        !stored_set(m, key).contains(author),
    ensures
        table_bytes(confirmed(m, key, author)) != table_bytes(m),
{
    if table_bytes(confirmed(m, key, author)) == table_bytes(m) {
        lemma_table_bytes_injective(confirmed(m, key, author), m);
        assert(stored_set(confirmed(m, key, author), key).contains(author));
    }
}

/// The index that a run of confirmation calls starts from or has reached before its
/// `i`-th call.
pub open spec fn before_call(
    m: Map<Seq<u8>, Set<Seq<u8>>>,
    after: Seq<Map<Seq<u8>, Set<Seq<u8>>>>,
    i: int,
) -> Map<Seq<u8>, Set<Seq<u8>>> {
    if i == 0 {
        m
    } else {
        after[i - 1]
    }
}

proof fn lemma_run_prefix(
    m: Map<Seq<u8>, Set<Seq<u8>>>,
    requests: Seq<(Seq<u8>, Seq<u8>)>,
    after: Seq<Map<Seq<u8>, Set<Seq<u8>>>>,
    i: int,
)
    requires
        after.len() == requests.len(),
        0 <= i < requests.len(),
        forall|j: int|
            0 <= j < requests.len() ==> #[trigger] after[j] == confirmed(
                before_call(m, after, j),
                requests[j].0,
                requests[j].1,
            ),
    ensures
        after[i] == confirmed_all(m, requests.take(i + 1)),
    decreases i,
{
    if i > 0 {
        lemma_run_prefix(m, requests, after, i - 1);
    }
    let t = requests.take(i + 1);
    assert(t.drop_last() =~= requests.take(i));
    assert(t.last() == requests[i]);
    if i == 0 {
        assert(requests.take(0) =~= Seq::<(Seq<u8>, Seq<u8>)>::empty());
        assert(confirmed_all(m, requests.take(0)) == m);
    }
    assert(before_call(m, after, i) == confirmed_all(m, requests.take(i)));
    assert(after[i] == confirmed(before_call(m, after, i), requests[i].0, requests[i].1));
    assert(confirmed_all(m, t) == confirmed(confirmed_all(m, t.drop_last()), t.last().0, t.last().1));
}

/// A run of confirmation calls on one index, each call taking the index that the one
/// before left (as each call's `ensures` states): after the `i`-th call the index is the
/// one that the first `i + 1` confirmations make, and the confirmations of a request that
/// had none before the run are those of its distinct authors so far, whose number the
/// call returns.
pub proof fn lemma_run_of_calls(
    m: Map<Seq<u8>, Set<Seq<u8>>>,
    requests: Seq<(Seq<u8>, Seq<u8>)>,
    after: Seq<Map<Seq<u8>, Set<Seq<u8>>>>,
)
    requires
        after.len() == requests.len(),
        forall|j: int|
            0 <= j < requests.len() ==> #[trigger] after[j] == confirmed(
                before_call(m, after, j),
                requests[j].0,
                requests[j].1,
            ),
    ensures
        forall|i: int|
            0 <= i < requests.len() ==> #[trigger] after[i] == confirmed_all(
                m,
                requests.take(i + 1),
            ),
        forall|i: int|
            0 <= i < requests.len() && !m.contains_key(requests[i].0) ==> {
                &&& stored_set(#[trigger] after[i], requests[i].0) == authors_of(
                    requests.take(i + 1),
                    requests[i].0,
                )
                &&& authors_of(requests.take(i + 1), requests[i].0).finite()
            },
{
    assert forall|i: int| 0 <= i < requests.len() implies #[trigger] after[i] == confirmed_all(
        m,
        requests.take(i + 1),
    ) by {
        lemma_run_prefix(m, requests, after, i);
    }
    assert forall|i: int| 0 <= i < requests.len() && !m.contains_key(requests[i].0) implies {
        &&& stored_set(#[trigger] after[i], requests[i].0) == authors_of(
            requests.take(i + 1),
            requests[i].0,
        )
        &&& authors_of(requests.take(i + 1), requests[i].0).finite()
    } by {
        lemma_run_prefix(m, requests, after, i);
        lemma_confirm_run(m, requests.take(i + 1), requests[i].0);
    }
}

} // verus!

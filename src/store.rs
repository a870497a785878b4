use vstd::prelude::*;
use vstd::utf8::{decode_utf8, encode_utf8, valid_utf8};

use crate::interactions::{as_map, flat_pairs, keys_unique, EntryView, InteractionMap};

verus! {

#[verifier::external_type_specification]
#[verifier::external_body]
pub struct ExDb(sled::Db);

#[verifier::external_type_specification]
#[verifier::external_body]
pub struct ExSledError(sled::Error);

#[verifier::external_type_specification]
#[verifier::external_body]
pub struct ExBincodeErrorKind(bincode::ErrorKind);

/// The key/value pairs that a sled database holds.
pub uninterp spec fn db_contents(db: sled::Db) -> Map<Seq<u8>, Seq<u8>>;

/// The eight bytes of `n` in little-endian order, `n` taken modulo 2^64.
pub open spec fn le_u64_bytes(n: nat, count: nat) -> Seq<u8>
    decreases count,
{
    if count == 0 {
        Seq::empty()
    } else {
        seq![(n % 256) as u8] + le_u64_bytes(n / 256, (count - 1) as nat)
    }
}

/// One string as bincode writes it by default: its UTF-8 length as a little-endian
/// `u64`, then its UTF-8 bytes.
pub open spec fn encoded_str(s: Seq<char>) -> Seq<u8> {
    le_u64_bytes(encode_utf8(s).len(), 8) + encode_utf8(s)
}

/// The strings of a list, each encoded, one after the other.
pub open spec fn encoded_items(s: Seq<Seq<char>>) -> Seq<u8>
    decreases s.len(),
{
    if s.len() == 0 {
        Seq::empty()
    } else {
        encoded_items(s.drop_last()) + encoded_str(s.last())
    }
}

/// A list of strings as bincode writes it by default: the number of items as a
/// little-endian `u64`, then the items.
pub open spec fn encoded_list(s: Seq<Seq<char>>) -> Seq<u8> {
    le_u64_bytes(s.len(), 8) + encoded_items(s)
}

/// Relies on `bincode::serialize` (fixed-width little-endian integers, no size
/// limit): a `Vec<String>` becomes its length, then each string as its length and its
/// UTF-8 bytes. A sequence of known length under no limit cannot fail to encode.
#[verifier::external_body]
fn serialize_list(v: &Vec<String>) -> (r: Result<Vec<u8>, Box<bincode::ErrorKind>>)
    ensures
        r is Ok,
        r->Ok_0@ == encoded_list(v.deep_view()),
{
    bincode::serialize(v)
}

/// Relies on `bincode::deserialize`, a function of the bytes alone and the inverse of
/// `bincode::serialize`: the bytes of a list decode to that list.
#[verifier::external_body]
fn deserialize_list(b: &[u8]) -> (r: Result<Vec<String>, Box<bincode::ErrorKind>>)
    ensures
        (r is Ok) == (bincode_list_of(b@) is Some),
        r is Ok ==> r->Ok_0.deep_view() == bincode_list_of(b@)->0,
        forall|s: Seq<Seq<char>>| #[trigger]
            encoded_list(s) == b@ ==> r is Ok && r->Ok_0.deep_view() == s,
{
    bincode::deserialize(b)
}

/// Relies on `String::from_utf8`: the decoded string when the bytes are valid UTF-8,
/// else the error, here turned into `None`.
#[verifier::external_body]
fn string_from_utf8(b: Vec<u8>) -> (r: Option<String>)
    ensures
        r is Some <==> valid_utf8(b@),
        r is Some ==> r->0@ == decode_utf8(b@),
{
    String::from_utf8(b).ok()
}

/// Relies on sled's `Tree::insert`: on success the key holds the value, and nothing
/// else changed; on failure the key holds its old value or the new one, and nothing
/// else changed.
#[verifier::external_body]
fn db_insert(db: &mut sled::Db, key: &[u8], value: Vec<u8>) -> (r: Result<(), sled::Error>)
    ensures
        r is Ok ==> db_contents(*final(db)) == db_contents(*old(db)).insert(key@, value@),
        r is Err ==> db_contents(*final(db)) == db_contents(*old(db)) || db_contents(*final(db))
            == db_contents(*old(db)).insert(key@, value@),
{
    db.insert(key, value).map(|_| ())
}

/// Relies on sled's `Tree::flush`, which writes dirty data to disk and does not change
/// the contents.
#[verifier::external_body]
fn db_flush(db: &mut sled::Db) -> (r: Result<(), sled::Error>)
    ensures
        db_contents(*final(db)) == db_contents(*old(db)),
{
    db.flush().map(|_| ())
}

/// `a` comes strictly before `b` in lexicographic byte order.
pub open spec fn bytes_lt(a: Seq<u8>, b: Seq<u8>) -> bool
    decreases a.len(),
{
    if a.len() == 0 {
        b.len() > 0
    } else {
        b.len() > 0 && (a[0] < b[0] || (a[0] == b[0] && bytes_lt(a.drop_first(), b.drop_first())))
    }
}

/// `e` lists the key/value pairs of `c`, each key once, keys in strictly ascending
/// byte order.
pub open spec fn is_scan_of(c: Map<Seq<u8>, Seq<u8>>, e: Seq<(Seq<u8>, Seq<u8>)>) -> bool {
    &&& c.dom().finite()
    &&& e.len() == c.dom().len()
    &&& forall|i: int, j: int| 0 <= i < e.len() && 0 <= j < e.len() && i != j ==> e[i].0 != e[j].0
    &&& forall|i: int| 0 <= i < e.len() - 1 ==> #[trigger] bytes_lt(e[i].0, e[i + 1].0)
    &&& forall|i: int|
        #![auto]
        0 <= i < e.len() ==> c.contains_key(e[i].0) && c[e[i].0] == e[i].1
    &&& forall|k: Seq<u8>|
        #![auto]
        c.contains_key(k) ==> exists|i: int| 0 <= i < e.len() && e[i].0 == k
}

/// Relies on sled's `Tree::iter`, collected until its first error: every key/value
/// pair, each key once, in ascending key order.
#[verifier::external_body]
fn db_entries(db: &sled::Db) -> (r: Result<Vec<(Vec<u8>, Vec<u8>)>, sled::Error>)
    ensures
        r is Ok ==> is_scan_of(db_contents(*db), r->Ok_0.deep_view()),
{
    db.iter().map(|e| e.map(|(k, v)| (k.to_vec(), v.to_vec()))).collect()
}

/// Why a store operation failed.
#[derive(PartialEq, Eq, Structural, Debug, Clone, Copy)]
pub enum StoreError {
    /// The database refused a write, a flush or a read.
    Storage,
    /// A stored key is not UTF-8, or a stored value is not an encoded list.
    Corrupt,
}

/// The stored form of an interaction mapping: each subject's UTF-8 bytes hold its
/// encoded object list.
pub open spec fn encoded_map(m: Map<Seq<char>, Seq<Seq<char>>>) -> Map<Seq<u8>, Seq<u8>> {
    Map::new(
        |b: Seq<u8>| valid_utf8(b) && m.contains_key(decode_utf8(b)),
        |b: Seq<u8>| encoded_list(m[decode_utf8(b)]),
    )
}

/// Every key is UTF-8 and every value the encoding of some list.
pub open spec fn well_encoded(c: Map<Seq<u8>, Seq<u8>>) -> bool {
    forall|k: Seq<u8>|
        #![auto]
        c.contains_key(k) ==> valid_utf8(k) && exists|s: Seq<Seq<char>>| c[k] == encoded_list(s)
}

/// `r` is what reading back contents `c` gives: one subject per key, its UTF-8 text,
/// holding the list that the key's value encodes.
pub open spec fn loads(c: Map<Seq<u8>, Seq<u8>>, r: Map<Seq<char>, Seq<Seq<char>>>) -> bool {
    &&& forall|k: Seq<u8>| #![auto] c.contains_key(k) ==> valid_utf8(k)
    &&& forall|k: Seq<u8>| #![auto] c.contains_key(k) ==> r.contains_key(decode_utf8(k))
    &&& forall|t: Seq<char>|
        #![auto]
        r.contains_key(t) ==> exists|k: Seq<u8>| c.contains_key(k) && decode_utf8(k) == t
    &&& forall|k: Seq<u8>, s: Seq<Seq<char>>|
        #![auto]
        c.contains_key(k) && c[k] == encoded_list(s) ==> r[decode_utf8(k)] == s
}

/// Two valid UTF-8 byte strings with the same text are equal.
proof fn lemma_decode_injective(a: Seq<u8>, b: Seq<u8>)
    requires
        valid_utf8(a),
        valid_utf8(b),
        decode_utf8(a) == decode_utf8(b),
    ensures
        a == b,
{
    vstd::utf8::decode_utf8_encode_utf8(a);
    vstd::utf8::decode_utf8_encode_utf8(b);
}

/// Saving a mapping and reading the store back gives each saved subject its saved
/// list, whatever was stored under it before; from an empty store it gives back
/// exactly the saved mapping.
pub proof fn lemma_save_then_load(
    before: Map<Seq<u8>, Seq<u8>>,
    m: Map<Seq<char>, Seq<Seq<char>>>,
    r: Map<Seq<char>, Seq<Seq<char>>>,
)
    requires
        loads(before.union_prefer_right(encoded_map(m)), r),
    ensures
        forall|k: Seq<char>| #[trigger] m.contains_key(k) ==> r.contains_key(k) && r[k] == m[k],
        before == Map::<Seq<u8>, Seq<u8>>::empty() ==> r == m,
{
    let c = before.union_prefer_right(encoded_map(m));
    assert forall|k: Seq<char>| #[trigger] m.contains_key(k) implies r.contains_key(k) && r[k] == m[k] by {
        let b = encode_utf8(k);
        vstd::utf8::encode_utf8_valid_utf8(k);
        vstd::utf8::encode_utf8_decode_utf8(k);
        assert(encoded_map(m).contains_key(b));
        assert(c.contains_key(b));
        assert(c[b] == encoded_list(m[k]));
        assert(r.contains_key(decode_utf8(b)));
        assert(r[decode_utf8(b)] == m[k]);
    }
    if before == Map::<Seq<u8>, Seq<u8>>::empty() {
        assert forall|t: Seq<char>| r.contains_key(t) implies m.contains_key(t) by {
            let k = choose|k: Seq<u8>| c.contains_key(k) && decode_utf8(k) == t;
            assert(!before.contains_key(k));
        }
        assert(r =~= m);
    }
}

/// Every key on which `new` differs from `old` is a key of `target`, and holds
/// its value there.
pub open spec fn changed_only_to(
    old: Map<Seq<u8>, Seq<u8>>,
    new: Map<Seq<u8>, Seq<u8>>,
    target: Map<Seq<u8>, Seq<u8>>,
) -> bool {
    forall|k: Seq<u8>|
        #![auto]
        (new.contains_key(k) != old.contains_key(k) || (new.contains_key(k) && new[k] != old[k]))
            ==> target.contains_key(k) && new.contains_key(k) && new[k] == target[k]
}

/// Overriding `old` with a part of `target` changes only keys of `target`, to their
/// values there.
proof fn lemma_changed_by_union(
    old: Map<Seq<u8>, Seq<u8>>,
    part: Map<Seq<u8>, Seq<u8>>,
    target: Map<Seq<u8>, Seq<u8>>,
)
    requires
        forall|k: Seq<u8>| #[trigger] part.contains_key(k) ==> target.contains_key(k) && target[k] == part[k],
    ensures
        changed_only_to(old, old.union_prefer_right(part), target),
{
    let new = old.union_prefer_right(part);
    assert forall|k: Seq<u8>| #![auto] (new.contains_key(k) != old.contains_key(k) || (new.contains_key(k)
        && new[k] != old[k])) implies target.contains_key(k) && new.contains_key(k) && new[k] == target[k] by {
        if !part.contains_key(k) {
            assert(new.contains_key(k) == old.contains_key(k));
            if old.contains_key(k) {
                assert(new[k] == old[k]);
            }
        }
    }
}

/// A submapping encodes to a submapping.
proof fn lemma_encoded_sub(sub: Map<Seq<char>, Seq<Seq<char>>>, m: Map<Seq<char>, Seq<Seq<char>>>)
    requires
        forall|k: Seq<char>| #[trigger] sub.contains_key(k) ==> m.contains_key(k) && m[k] == sub[k],
    ensures
        forall|b: Seq<u8>|
            #[trigger] encoded_map(sub).contains_key(b) ==> encoded_map(m).contains_key(b) && encoded_map(m)[b]
                == encoded_map(sub)[b],
{
    assert forall|b: Seq<u8>| #![auto] encoded_map(sub).contains_key(b) implies encoded_map(m).contains_key(b)
        && encoded_map(m)[b] == encoded_map(sub)[b] by {
        let k = decode_utf8(b);
        assert(sub.contains_key(k));
        assert(m.contains_key(k) && m[k] == sub[k]);
    }
}

/// The entries before position `i` agree with the whole sequence.
proof fn lemma_prefix_agrees(v: Seq<EntryView>, i: int)
    requires
        keys_unique(v),
        0 <= i <= v.len(),
    ensures
        forall|k: Seq<char>|
            #[trigger] as_map(v.take(i)).contains_key(k) ==> as_map(v).contains_key(k) && as_map(v)[k]
                == as_map(v.take(i))[k],
{
    assert forall|k: Seq<char>| #![auto] as_map(v.take(i)).contains_key(k) implies as_map(v).contains_key(k)
        && as_map(v)[k] == as_map(v.take(i))[k] by {
        let j = choose|j: int| 0 <= j < v.take(i).len() && v.take(i)[j].0 == k;
        crate::interactions::lemma_as_map_index(v.take(i), j);
        crate::interactions::lemma_as_map_index(v, j);
    }
}

/// The durable interaction store: subjects keyed by their UTF-8 bytes, each holding
/// its encoded object list.
pub struct Store {
    db: sled::Db,
}

impl Store {
    /// What the underlying database holds.
    pub closed spec fn contents(&self) -> Map<Seq<u8>, Seq<u8>> {
        db_contents(self.db)
    }

    /// A store over an open database.
    pub fn new(db: sled::Db) -> (r: Store)
        ensures
            r.contents() == db_contents(db),
    {
        Store { db }
    }

    /// The number of stored subjects, counted by a full scan.
    pub fn len(&self) -> (r: Result<usize, StoreError>)
        ensures
            r is Ok ==> self.contents().dom().finite() && r->Ok_0 == self.contents().dom().len(),
            r is Err ==> r == Err::<usize, StoreError>(StoreError::Storage),
    {
        match db_entries(&self.db) {
            Ok(e) => Ok(e.len()),
            Err(_) => Err(StoreError::Storage),
        }
    }

    /// Writes each subject's list under its key, replacing what was stored there,
    /// then flushes. On success the store holds the old contents overridden by the
    /// mapping.
    pub fn save_interactions(&mut self, interactions: &InteractionMap) -> (r: Result<(), StoreError>)
        requires
            interactions.wf(),
        ensures
            r is Ok ==> final(self).contents() == old(self).contents().union_prefer_right(
                encoded_map(interactions.map()),
            ),
            r is Err ==> r == Err::<(), StoreError>(StoreError::Storage),
            r is Err ==> changed_only_to(
                old(self).contents(),
                final(self).contents(),
                encoded_map(interactions.map()),
            ),
    {
        let ghost start = self.contents();
        let ghost m = interactions.map();
        let ghost v = interactions.view();
        let n = interactions.len();
        let mut i: usize = 0;
        while i < n
            invariant
                i <= n,
                n == v.len(),
                v == interactions.view(),
                m == interactions.map(),
                interactions.wf(),
                start == old(self).contents(),
                self.contents() == start.union_prefer_right(
                    encoded_map(crate::interactions::as_map(v.take(i as int))),
                ),
            decreases n - i,
        {
            let entry = interactions.entry(i);
            let encoded = match serialize_list(&entry.1) {
                Ok(b) => b,
                Err(_) => return Err(StoreError::Storage),
            };
            let key = entry.0.as_str().as_bytes();
            proof {
                lemma_prefix_agrees(v, i as int);
                lemma_prefix_agrees(v, i as int + 1);
                lemma_encoded_sub(as_map(v.take(i as int)), m);
                let k = v[i as int].0;
                vstd::utf8::encode_utf8_valid_utf8(k);
                vstd::utf8::encode_utf8_decode_utf8(k);
                crate::interactions::lemma_as_map_index(v, i as int);
                lemma_changed_by_union(start, encoded_map(as_map(v.take(i as int))), encoded_map(m));
                lemma_changed_by_union(
                    start,
                    encoded_map(as_map(v.take(i as int))).insert(encode_utf8(k), encoded_list(v[i as int].1)),
                    encoded_map(m),
                );
                assert(start.union_prefer_right(encoded_map(as_map(v.take(i as int)))).insert(
                    encode_utf8(k),
                    encoded_list(v[i as int].1),
                ) =~= start.union_prefer_right(
                    encoded_map(as_map(v.take(i as int))).insert(encode_utf8(k), encoded_list(v[i as int].1)),
                ));
            }
            let ghost before_insert = self.contents();
            proof {
                assert(key@ == encode_utf8(v[i as int].0));
                assert(entry.1.deep_view() == v[i as int].1);
                assert(encoded@ == encoded_list(v[i as int].1));
            }
            match db_insert(&mut self.db, key, encoded) {
                Ok(()) => {},
                Err(_) => {
                    proof {
                        assert(changed_only_to(start, before_insert, encoded_map(m)));
                        let part = encoded_map(as_map(v.take(i as int))).insert(
                            encode_utf8(v[i as int].0),
                            encoded_list(v[i as int].1),
                        );
                        assert(changed_only_to(start, start.union_prefer_right(part), encoded_map(m)));
                        assert(before_insert.insert(key@, encoded@) == start.union_prefer_right(part));
                    }
                    return Err(StoreError::Storage);
                },
            }
            proof {
                let k = v[i as int].0;
                let pre = crate::interactions::as_map(v.take(i as int));
                let post = crate::interactions::as_map(v.take(i as int + 1));
                let tk = v.take(i as int + 1);
                assert(tk =~= v.take(i as int).push(v[i as int]));
                assert(crate::interactions::keys_unique(tk));
                crate::interactions::lemma_as_map_index(tk, i as int);
                assert forall|key: Seq<char>| #![auto] pre.contains_key(key) implies post.contains_key(
                    key,
                ) && post[key] == pre[key] by {
                    let j = choose|j: int| 0 <= j < i && v.take(i as int)[j].0 == key;
                    crate::interactions::lemma_as_map_index(v.take(i as int), j);
                    crate::interactions::lemma_as_map_index(tk, j);
                }
                assert forall|key: Seq<char>| #![auto] post.contains_key(key) implies pre.contains_key(
                    key,
                ) || key == k by {
                    let j = choose|j: int| 0 <= j < i + 1 && tk[j].0 == key;
                    if j < i {
                        assert(v.take(i as int)[j].0 == key);
                    }
                }
                vstd::utf8::encode_utf8_valid_utf8(k);
                vstd::utf8::encode_utf8_decode_utf8(k);
                let b = encode_utf8(k);
                assert forall|x: Seq<u8>| #![auto] encoded_map(post).contains_key(x) implies x == b
                    || encoded_map(pre).contains_key(x) by {
                    if decode_utf8(x) == k {
                        lemma_decode_injective(x, b);
                    }
                }
                assert forall|x: Seq<u8>| #![auto] encoded_map(pre).contains_key(x) && x != b
                    implies decode_utf8(x) != k by {
                    if decode_utf8(x) == k {
                        lemma_decode_injective(x, b);
                    }
                }
                assert(start.union_prefer_right(encoded_map(pre)).insert(b, encoded_list(v[i as int].1))
                    =~= start.union_prefer_right(encoded_map(post)));
            }
            i += 1;
        }
        proof {
            assert(v.take(n as int) =~= v);
            lemma_encoded_sub(m, m);
            lemma_changed_by_union(start, encoded_map(m), encoded_map(m));
        }
        match db_flush(&mut self.db) {
            Ok(()) => Ok(()),
            Err(_) => Err(StoreError::Storage),
        }
    }

    /// Reads every stored subject back, in the database's key order. `Storage` when
    /// the scan fails; otherwise exactly what `decode_entries` gives for the scan.
    pub fn get_interactions(&self) -> (r: Result<InteractionMap, StoreError>)
        ensures
            r is Ok ==> r->Ok_0.wf() && loads(self.contents(), r->Ok_0.map()) && exists|
                e: Seq<(Seq<u8>, Seq<u8>)>,
            |
                #![auto]
                is_scan_of(self.contents(), e) && decodable(e) && r->Ok_0.view()
                    == decoded_entries(e),
            r is Err ==> r == Err::<InteractionMap, StoreError>(StoreError::Storage) || r
                == Err::<InteractionMap, StoreError>(StoreError::Corrupt),
            r == Err::<InteractionMap, StoreError>(StoreError::Corrupt) ==> !well_encoded(
                self.contents(),
            ) && exists|e: Seq<(Seq<u8>, Seq<u8>)>|
                #![auto]
                is_scan_of(self.contents(), e) && !decodable(e),
    {
        let entries = match db_entries(&self.db) {
            Ok(e) => e,
            Err(_) => return Err(StoreError::Storage),
        };
        let ghost c = self.contents();
        let ghost e = entries.deep_view();
        let r = decode_entries(&entries);
        proof {
            if r is Ok {
                    let out = r->Ok_0;
                    let v = out.view();
                    assert forall|k: Seq<u8>| #![auto] c.contains_key(k) implies valid_utf8(k)
                        && out.map().contains_key(decode_utf8(k)) by {
                        let a = choose|a: int| 0 <= a < e.len() && e[a].0 == k;
                        assert(v[a].0 == decode_utf8(k));
                        crate::interactions::lemma_as_map_index(v, a);
                    }
                    assert forall|k: Seq<u8>, s: Seq<Seq<char>>| #![auto] c.contains_key(k) && c[k]
                        == encoded_list(s) implies out.map()[decode_utf8(k)] == s by {
                        let a = choose|a: int| 0 <= a < e.len() && e[a].0 == k;
                        assert(e[a].1 == encoded_list(s));
                        assert(v[a].0 == decode_utf8(k));
                        crate::interactions::lemma_as_map_index(v, a);
                    }
                    assert forall|t: Seq<char>| #![auto] out.map().contains_key(t) implies exists|
                        k: Seq<u8>,
                    | c.contains_key(k) && decode_utf8(k) == t by {
                        let j = choose|j: int| 0 <= j < v.len() && v[j].0 == t;
                        assert(c.contains_key(e[j].0));
                    }
            } else {
                    let a = choose|a: int|
                        #![auto]
                        0 <= a < e.len() && (!valid_utf8(e[a].0) || forall|s: Seq<Seq<char>>|
                            encoded_list(s) != e[a].1);
                    assert(c.contains_key(e[a].0));
                    assert(!well_encoded(c));
            }
        }
        r
    }
}

/// What bincode's `deserialize` makes of bytes as a `Vec<String>`: `None` where it
/// fails.
pub uninterp spec fn bincode_list_of(b: Seq<u8>) -> Option<Seq<Seq<char>>>;

/// Every key is UTF-8 and every value decodes as a list.
pub open spec fn decodable(e: Seq<(Seq<u8>, Seq<u8>)>) -> bool {
    forall|i: int| #![auto] 0 <= i < e.len() ==> valid_utf8(e[i].0) && bincode_list_of(e[i].1) is Some
}

/// The entries decoded one by one, in order.
pub open spec fn decoded_entries(e: Seq<(Seq<u8>, Seq<u8>)>) -> Seq<EntryView> {
    e.map_values(|p: (Seq<u8>, Seq<u8>)| (decode_utf8(p.0), bincode_list_of(p.1)->0))
}

/// No key occurs twice.
pub open spec fn distinct_keys(e: Seq<(Seq<u8>, Seq<u8>)>) -> bool {
    forall|i: int, j: int| 0 <= i < e.len() && 0 <= j < e.len() && i != j ==> e[i].0 != e[j].0
}

/// Decodes stored entries, in order: each key as UTF-8 text, each value as a list.
/// `Corrupt` exactly when some key is not UTF-8 or some value does not decode.
pub fn decode_entries(entries: &Vec<(Vec<u8>, Vec<u8>)>) -> (r: Result<InteractionMap, StoreError>)
    ensures
        (r is Ok) == decodable(entries.deep_view()),
        r is Err ==> r == Err::<InteractionMap, StoreError>(StoreError::Corrupt),
        r is Ok ==> r->Ok_0.wf(),
        r is Ok && distinct_keys(entries.deep_view()) ==> r->Ok_0.view() == decoded_entries(
            entries.deep_view(),
        ),
        r is Ok ==> forall|a: int, s: Seq<Seq<char>>|
            #![auto]
            0 <= a < entries.deep_view().len() && encoded_list(s) == entries.deep_view()[a].1
                ==> bincode_list_of(entries.deep_view()[a].1) == Some(s),
        r is Err ==> exists|a: int|
            #![auto]
            0 <= a < entries.deep_view().len() && (!valid_utf8(entries.deep_view()[a].0) || forall|
                s: Seq<Seq<char>>,
            | encoded_list(s) != entries.deep_view()[a].1),
{
    let ghost e = entries.deep_view();
    let mut out = InteractionMap::new();
    let mut i: usize = 0;
    while i < entries.len()
        invariant
            i <= entries.len(),
            e == entries.deep_view(),
            out.wf(),
            decodable(e.take(i as int)),
            distinct_keys(e) ==> out.view() == decoded_entries(e.take(i as int)),
            forall|a: int, s: Seq<Seq<char>>|
                #![auto]
                0 <= a < i && encoded_list(s) == e[a].1 ==> bincode_list_of(e[a].1) == Some(s),
        decreases entries.len() - i,
    {
        proof {
            assert(entries@[i as int].0@ =~= e[i as int].0);
            assert(entries@[i as int].1@ =~= e[i as int].1);
        }
        let key_bytes = entries[i].0.clone();
        proof {
            assert(key_bytes@ =~= e[i as int].0);
        }
        let value = deserialize_list(entries[i].1.as_slice());
        proof {
            assert forall|s: Seq<Seq<char>>| #![auto] encoded_list(s) == e[i as int].1 implies bincode_list_of(
                e[i as int].1,
            ) == Some(s) by {
                assert(encoded_list(s) == entries[i as int].1@);
            }
        }
        let key = match string_from_utf8(key_bytes) {
            Some(k) => k,
            None => {
                proof {
                    assert(!decodable(e));
                    assert(!valid_utf8(e[i as int].0));
                }
                return Err(StoreError::Corrupt);
            },
        };
        let value = match value {
            Ok(v) => v,
            Err(_) => {
                proof {
                    assert(!decodable(e));
                    assert forall|s: Seq<Seq<char>>| encoded_list(s) != e[i as int].1 by {
                        if encoded_list(s) == e[i as int].1 {
                            assert(bincode_list_of(e[i as int].1) == Some(s));
                        }
                    }
                }
                return Err(StoreError::Corrupt);
            },
        };
        let ghost before = out.view();
        proof {
            if distinct_keys(e) {
                if out.map().contains_key(key@) {
                    let j = choose|j: int| 0 <= j < before.len() && before[j].0 == key@;
                    assert(before[j].0 == decode_utf8(e[j].0));
                    assert(decodable(e.take(i as int)));
                    assert(valid_utf8(e.take(i as int)[j].0));
                    lemma_decode_injective(e[j].0, e[i as int].0);
                }
            }
        }
        out.insert(key, value);
        proof {
            assert(e.take(i as int + 1) =~= e.take(i as int).push(e[i as int]));
            if distinct_keys(e) {
                assert(out.view() =~= decoded_entries(e.take(i as int + 1)));
            }
            assert(decodable(e.take(i as int + 1)));
        }
        i += 1;
    }
    proof {
        assert(e.take(i as int) =~= e);
    }
    Ok(out)
}

/// The training handoff: every stored (subject, object) pair, subjects in the
/// database's key order and each subject's objects in stored order.
pub fn training_pairs(store: &Store) -> (r: Result<Vec<(String, String)>, StoreError>)
    ensures
        r is Ok ==> exists|e: Seq<(Seq<u8>, Seq<u8>)>|
            #![auto]
            is_scan_of(store.contents(), e) && decodable(e) && r->Ok_0.deep_view() == flat_pairs(
                decoded_entries(e),
            ),
        r is Err ==> r == Err::<Vec<(String, String)>, StoreError>(StoreError::Storage) || r
            == Err::<Vec<(String, String)>, StoreError>(StoreError::Corrupt),
        r == Err::<Vec<(String, String)>, StoreError>(StoreError::Corrupt) ==> !well_encoded(
            store.contents(),
        ),
{
    match store.get_interactions() {
        Ok(m) => {
            let pairs = m.flatten();
            Ok(pairs)
        },
        Err(e) => Err(e),
    }
}

} // verus!

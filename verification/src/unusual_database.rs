use vstd::prelude::*;

use crate::bytes::{copy_range, push_range, same_bytes};

verus! {

/// The byte that separates a key from a value in an insert request.
pub const EQUALS: u8 = 0x3d;

/// The key under which the server reports its version.
pub open spec fn version_key() -> Seq<u8> {
    seq![118u8, 101, 114, 115, 105, 111, 110]
}

/// The server's version text, UTF-8 encoded: "Hayes's nice database" and a snail.
pub open spec fn version_value() -> Seq<u8> {
    seq![
        72u8, 97, 121, 101, 115, 39, 115, 32, 110, 105, 99, 101, 32, 100, 97, 116, 97, 98, 97,
        115, 101, 32, 240, 159, 144, 140,
    ]
}

/// The key under which the server reports its version.
pub fn version_key_bytes() -> (r: Vec<u8>)
    ensures
        r@ == version_key(),
{
    let r: Vec<u8> = vec![118u8, 101, 114, 115, 105, 111, 110];
    assert(r@ =~= version_key());
    r
}

/// The server's version text.
pub fn version_value_bytes() -> (r: Vec<u8>)
    ensures
        r@ == version_value(),
{
    let r: Vec<u8> = vec![
        72u8, 97, 121, 101, 115, 39, 115, 32, 110, 105, 99, 101, 32, 100, 97, 116, 97, 98, 97,
        115, 101, 32, 240, 159, 144, 140,
    ];
    assert(r@ =~= version_value());
    r
}

/// `i` is the position of the first `=` in `s`.
pub open spec fn is_first_equals(s: Seq<u8>, i: int) -> bool {
    &&& 0 <= i < s.len()
    &&& s[i] == EQUALS
    &&& forall|j: int| 0 <= j < i ==> s[j] != EQUALS
}

/// A request datagram.
pub enum DbRequest {
    /// A datagram with an `=`: the part before the first `=` is the key, the rest the value.
    Insert { key: Seq<u8>, value: Seq<u8> },
    /// A datagram without `=`: the whole datagram is the key.
    Retrieve { key: Seq<u8> },
}

/// What a datagram asks for.
pub open spec fn spec_request(s: Seq<u8>) -> DbRequest {
    if exists|i: int| is_first_equals(s, i) {
        let i = choose|i: int| is_first_equals(s, i);
        DbRequest::Insert { key: s.take(i), value: s.skip(i + 1) }
    } else {
        DbRequest::Retrieve { key: s }
    }
}

/// The value stored under `key`, empty when there is none.
pub open spec fn value_or_empty(db: Map<Seq<u8>, Seq<u8>>, key: Seq<u8>) -> Seq<u8> {
    if db.dom().contains(key) {
        db[key]
    } else {
        Seq::empty()
    }
}

/// The new store and the reply for a datagram: an insert under any key but the
/// version key stores the value, and has no reply; a retrieve is answered with
/// `key=value`, the value empty when the key has none.
pub open spec fn spec_handle(db: Map<Seq<u8>, Seq<u8>>, s: Seq<u8>) -> (Map<Seq<u8>, Seq<u8>>, Option<Seq<u8>>) {
    match spec_request(s) {
        DbRequest::Insert { key, value } => if key == version_key() {
            (db, None)
        } else {
            (db.insert(key, value), None)
        },
        DbRequest::Retrieve { key } => (db, Some(key + seq![EQUALS] + value_or_empty(db, key))),
    }
}

/// A key-value store of byte strings.
pub struct Database {
    entries: Vec<(Vec<u8>, Vec<u8>)>,
}

spec fn entries_map(e: Seq<(Vec<u8>, Vec<u8>)>) -> Map<Seq<u8>, Seq<u8>> {
    Map::new(
        |k: Seq<u8>| exists|i: int| 0 <= i < e.len() && e[i].0@ == k,
        |k: Seq<u8>| e[choose|i: int| 0 <= i < e.len() && e[i].0@ == k].1@,
    )
}

spec fn keys_distinct(e: Seq<(Vec<u8>, Vec<u8>)>) -> bool {
    forall|i: int, j: int| 0 <= i < e.len() && 0 <= j < e.len() && i != j ==> e[i].0@ != e[j].0@
}

proof fn lemma_entry_at(e: Seq<(Vec<u8>, Vec<u8>)>, i: int)
    requires
        keys_distinct(e),
        0 <= i < e.len(),
    ensures
        entries_map(e).dom().contains(e[i].0@),
        entries_map(e)[e[i].0@] == e[i].1@,
{
    let k = e[i].0@;
    assert(entries_map(e).dom().contains(k));
    let j = choose|j: int| 0 <= j < e.len() && e[j].0@ == k;
    assert(j == i);
}

proof fn lemma_entries_push(e: Seq<(Vec<u8>, Vec<u8>)>, x: (Vec<u8>, Vec<u8>))
    requires
        keys_distinct(e),
        !entries_map(e).dom().contains(x.0@),
    ensures
        keys_distinct(e.push(x)),
        entries_map(e.push(x)) == entries_map(e).insert(x.0@, x.1@),
{
    let n = e.push(x);
    assert forall|i: int| 0 <= i < e.len() implies e[i].0@ != x.0@ by {
        lemma_entry_at(e, i);
    }
    assert(keys_distinct(n)) by {
        assert forall|i: int, j: int|
            0 <= i < n.len() && 0 <= j < n.len() && i != j implies n[i].0@ != n[j].0@ by {
            if i < e.len() {
                assert(n[i] == e[i]);
            }
            if j < e.len() {
                assert(n[j] == e[j]);
            }
        }
    }
    let a = entries_map(n);
    let b = entries_map(e).insert(x.0@, x.1@);
    assert forall|k: Seq<u8>| a.dom().contains(k) <==> b.dom().contains(k) by {
        if a.dom().contains(k) {
            let i = choose|i: int| 0 <= i < n.len() && n[i].0@ == k;
            if i < e.len() {
                assert(n[i] == e[i]);
                lemma_entry_at(e, i);
            }
        }
        if b.dom().contains(k) {
            if k == x.0@ {
                assert(n[e.len() as int].0@ == k);
            } else {
                let i = choose|i: int| 0 <= i < e.len() && e[i].0@ == k;
                assert(n[i] == e[i]);
            }
        }
    }
    assert forall|k: Seq<u8>| a.dom().contains(k) implies a[k] == b[k] by {
        let i = choose|i: int| 0 <= i < n.len() && n[i].0@ == k;
        lemma_entry_at(n, i);
        if i < e.len() {
            assert(n[i] == e[i]);
            lemma_entry_at(e, i);
        }
    }
    assert(a =~= b);
}

proof fn lemma_entries_update(e: Seq<(Vec<u8>, Vec<u8>)>, i: int, x: (Vec<u8>, Vec<u8>))
    requires
        keys_distinct(e),
        0 <= i < e.len(),
        e[i].0@ == x.0@,
    ensures
        keys_distinct(e.update(i, x)),
        entries_map(e.update(i, x)) == entries_map(e).insert(x.0@, x.1@),
{
    let n = e.update(i, x);
    assert(keys_distinct(n)) by {
        assert forall|a: int, b: int|
            0 <= a < n.len() && 0 <= b < n.len() && a != b implies n[a].0@ != n[b].0@ by {
            assert(n[a].0@ == e[a].0@);
            assert(n[b].0@ == e[b].0@);
        }
    }
    let a = entries_map(n);
    let b = entries_map(e).insert(x.0@, x.1@);
    assert forall|k: Seq<u8>| a.dom().contains(k) <==> b.dom().contains(k) by {
        if a.dom().contains(k) {
            let j = choose|j: int| 0 <= j < n.len() && n[j].0@ == k;
            assert(e[j].0@ == k);
        }
        if b.dom().contains(k) {
            if k == x.0@ {
                assert(n[i].0@ == k);
            } else {
                let j = choose|j: int| 0 <= j < e.len() && e[j].0@ == k;
                assert(n[j].0@ == k);
            }
        }
    }
    assert forall|k: Seq<u8>| a.dom().contains(k) implies a[k] == b[k] by {
        let j = choose|j: int| 0 <= j < n.len() && n[j].0@ == k;
        lemma_entry_at(n, j);
        if j != i {
            assert(n[j] == e[j]);
            lemma_entry_at(e, j);
        }
    }
    assert(a =~= b);
}

/// The position of the first `=` in `s`, if any.
fn find_equals(s: &[u8]) -> (r: Option<usize>)
    ensures
        match r {
            Some(i) => is_first_equals(s@, i as int),
            None => forall|j: int| 0 <= j < s@.len() ==> s@[j] != EQUALS,
        },
{
    let n = s.len();
    for i in 0..n
        invariant
            n == s@.len(),
            forall|j: int| 0 <= j < i ==> s@[j] != EQUALS,
    {
        if s[i] == EQUALS {
            return Some(i);
        }
    }
    None
}

impl View for Database {
    type V = Map<Seq<u8>, Seq<u8>>;

    closed spec fn view(&self) -> Map<Seq<u8>, Seq<u8>> {
        entries_map(self.entries@)
    }
}

impl Database {
    /// The internal invariant: each key is stored once.
    pub closed spec fn wf(&self) -> bool {
        keys_distinct(self.entries@)
    }

    /// A store that holds only the version.
    pub fn new() -> (db: Database)
        ensures
            db.wf(),
            db@ == Map::<Seq<u8>, Seq<u8>>::empty().insert(version_key(), version_value()),
    {
        let mut db = Database { entries: Vec::new() };
        let k = version_key_bytes();
        let v = version_value_bytes();
        proof {
            assert(entries_map(db.entries@) =~= Map::<Seq<u8>, Seq<u8>>::empty());
            lemma_entries_push(db.entries@, (k, v));
        }
        db.entries.push((k, v));
        db
    }

    /// The position of `key`, if it is stored.
    fn position(&self, key: &[u8]) -> (r: Option<usize>)
        requires
            self.wf(),
        ensures
            r matches Some(i) ==> i < self.entries@.len() && self.entries@[i as int].0@ == key@,
            r is None ==> !self@.dom().contains(key@),
    {
        let n = self.entries.len();
        for i in 0..n
            invariant
                n == self.entries@.len(),
                forall|j: int| 0 <= j < i ==> self.entries@[j].0@ != key@,
        {
            if same_bytes(self.entries[i].0.as_slice(), key) {
                return Some(i);
            }
        }
        None
    }

    /// The value stored under `key`, or nothing.
    pub fn get(&self, key: &[u8]) -> (r: Option<&Vec<u8>>)
        requires
            self.wf(),
        ensures
            match r {
                Some(v) => self@.dom().contains(key@) && self@[key@] == v@,
                None => !self@.dom().contains(key@),
            },
    {
        match self.position(key) {
            Some(i) => {
                proof {
                    lemma_entry_at(self.entries@, i as int);
                }
                Some(&self.entries[i].1)
            },
            None => None,
        }
    }

    /// Stores `value` under `key`, replacing what was there.
    pub fn insert(&mut self, key: Vec<u8>, value: Vec<u8>)
        requires
            old(self).wf(),
        ensures
            final(self).wf(),
            final(self)@ == old(self)@.insert(key@, value@),
    {
        match self.position(key.as_slice()) {
            Some(i) => {
                proof {
                    lemma_entries_update(self.entries@, i as int, (key, value));
                }
                self.entries.set(i, (key, value));
            },
            None => {
                proof {
                    lemma_entries_push(self.entries@, (key, value));
                }
                self.entries.push((key, value));
            },
        }
    }

    /// Handles one datagram and returns the reply to send, if any.
    pub fn handle(&mut self, data: &[u8]) -> (reply: Option<Vec<u8>>)
        requires
            old(self).wf(),
        ensures
            final(self).wf(),
            (final(self)@, match reply {
                Some(v) => Some(v@),
                None => None,
            }) == spec_handle(old(self)@, data@),
    {
        let n = data.len();
        let eq = find_equals(data);
        match eq {
            Some(i) => {
                proof {
                    let c = choose|c: int| is_first_equals(data@, c);
                    assert(c == i);
                }
                let key = copy_range(data, 0, i);
                let value = copy_range(data, i + 1, n);
                assert(key@ =~= data@.take(i as int));
                assert(value@ =~= data@.skip(i + 1));
                let version = version_key_bytes();
                if !same_bytes(key.as_slice(), version.as_slice()) {
                    self.insert(key, value);
                }
                None
            },
            None => {
                let mut out = copy_range(data, 0, n);
                assert(out@ =~= data@);
                out.push(EQUALS);
                match self.get(data) {
                    Some(v) => {
                        push_range(&mut out, v.as_slice(), 0, v.len());
                        assert(v@.subrange(0, v@.len() as int) =~= v@);
                    },
                    None => {
                        assert(out@ =~= data@ + seq![EQUALS] + Seq::<u8>::empty());
                    },
                }
                Some(out)
            },
        }
    }
}

/// Law: after `key=value` is stored under a key other than the version key, a
/// request for that key is answered with `key=value`.
pub proof fn lemma_read_after_write(db: Map<Seq<u8>, Seq<u8>>, key: Seq<u8>, value: Seq<u8>)
    requires
        forall|j: int| 0 <= j < key.len() ==> key[j] != EQUALS,
        key != version_key(),
    ensures
        spec_handle(spec_handle(db, key + seq![EQUALS] + value).0, key).1 == Some(
            key + seq![EQUALS] + value,
        ),
{
    let s = key + seq![EQUALS] + value;
    let i = key.len() as int;
    assert(is_first_equals(s, i));
    let c = choose|c: int| is_first_equals(s, c);
    assert(c == i);
    assert(s.take(i) =~= key);
    assert(s.skip(i + 1) =~= value);
    assert forall|c: int| !is_first_equals(key, c) by {}
}

/// Law: storing a value under one key leaves every other key as it was: present
/// exactly when it was before, with the same value.
pub proof fn lemma_insert_keeps_other_keys(
    db: Map<Seq<u8>, Seq<u8>>,
    key: Seq<u8>,
    value: Seq<u8>,
    other: Seq<u8>,
)
    requires
        forall|j: int| 0 <= j < key.len() ==> key[j] != EQUALS,
        other != key,
    ensures
        ({
            let w = spec_handle(db, key + seq![EQUALS] + value).0;
            &&& w.dom().contains(other) == db.dom().contains(other)
            &&& db.dom().contains(other) ==> w[other] == db[other]
        }),
{
    let s = key + seq![EQUALS] + value;
    let i = key.len() as int;
    assert(is_first_equals(s, i));
    let c = choose|c: int| is_first_equals(s, c);
    assert(c == i);
    assert(s.take(i) =~= key);
    assert(s.skip(i + 1) =~= value);
}

/// Law: after storing under one key, a request for any other key is answered as it
/// was before.
pub proof fn lemma_insert_keeps_other_replies(
    db: Map<Seq<u8>, Seq<u8>>,
    key: Seq<u8>,
    value: Seq<u8>,
    other: Seq<u8>,
)
    requires
        forall|j: int| 0 <= j < key.len() ==> key[j] != EQUALS,
        forall|j: int| 0 <= j < other.len() ==> other[j] != EQUALS,
        other != key,
    ensures
        spec_handle(spec_handle(db, key + seq![EQUALS] + value).0, other).1 == spec_handle(
            db,
            other,
        ).1,
{
    lemma_insert_keeps_other_keys(db, key, value, other);
    assert forall|c: int| !is_first_equals(other, c) by {}
}

/// Law: no request changes the version.
pub proof fn lemma_version_fixed(db: Map<Seq<u8>, Seq<u8>>, s: Seq<u8>)
    requires
        db.dom().contains(version_key()),
    ensures
        spec_handle(db, s).0.dom().contains(version_key()),
        spec_handle(db, s).0[version_key()] == db[version_key()],
{
}

/// Law: a retrieve leaves the store as it was.
pub proof fn lemma_retrieve_keeps_store(db: Map<Seq<u8>, Seq<u8>>, s: Seq<u8>)
    requires
        forall|j: int| 0 <= j < s.len() ==> s[j] != EQUALS,
    ensures
        spec_handle(db, s).0 == db,
{
    assert forall|c: int| !is_first_equals(s, c) by {}
}

} // verus!

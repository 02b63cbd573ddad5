//! The key-value backend: one record per user, keyed by the user's identity
//! and kept in key order, each record encoded with bincode as the RocksDB
//! backend stores it. Every change decodes the user's record (or starts from
//! an empty one), changes it in memory, encodes it again and overwrites it.
use vstd::prelude::*;

use crate::db::{
    add_all, known_users, lemma_add_all, lemma_push_contains, lemma_remove_all, packages_of, remove_all, subscribe_spec, unsubscribe_spec, with_packages,
    enable_spec, Database, StoreError, StoreView,
};
use crate::text::{
    contains_str, lemma_insert_keeps_sorted, lemma_lex_irreflexive, lemma_lex_total,
    lemma_lex_transitive, lex_lt, str_eq, str_lt, strictly_sorted, strs,
};

verus! {

/// The bytes that bincode's standard configuration writes for a user record:
/// the package list, then the notification flag.
pub uninterp spec fn record_bytes(packages: Seq<Seq<char>>, notification_enabled: bool) -> Seq<u8>;

#[verifier::external_type_specification]
#[verifier::external_body]
pub struct ExEncodeError(bincode::error::EncodeError);

#[verifier::external_type_specification]
#[verifier::external_body]
pub struct ExDecodeError(bincode::error::DecodeError);

/// Relies on `bincode::encode_to_vec` with the standard configuration: it
/// returns the encoding of the package list and the flag. Encoding these types
/// into a vector never fails: the vector writer and the size writer always
/// accept bytes, and the encoders of `Vec`, `String`, `bool` and of lengths
/// return no error of their own.
#[verifier::external_body]
fn encode_record(packages: &Vec<String>, notification_enabled: bool) -> (r: Result<
    Vec<u8>,
    bincode::error::EncodeError,
>)
    ensures
        r is Ok,
        r->Ok_0@ == record_bytes(strs(packages@), notification_enabled),
{
    bincode::encode_to_vec((packages, notification_enabled), bincode::config::standard())
}

/// The most bytes that decoding one stored record may claim.
pub const RECORD_LIMIT: usize = 1048576;

/// The number of characters in all of `p`.
pub open spec fn chars_total(p: Seq<Seq<char>>) -> nat
    decreases p.len(),
{
    if p.len() == 0 {
        0
    } else {
        chars_total(p.drop_last()) + p.last().len()
    }
}

/// Whether a record with the packages `p` stays within `RECORD_LIMIT` when
/// decoded: a bound on what decoding claims, counting 8 bytes for each length
/// read, the size of a `String` (24 bytes) for each name, 4 bytes for each
/// character of a name, and 1 byte for the flag.
pub open spec fn record_fits(p: Seq<Seq<char>>) -> bool {
    9 + 32 * p.len() + 4 * chars_total(p) <= RECORD_LIMIT
}

/// Relies on `bincode::decode_from_slice` with the standard configuration
/// limited to `RECORD_LIMIT` bytes: it reads back the values whose encoding
/// `encode_to_vec` returned, when their decoding claims no more than the limit.
/// With the limit, every length read is checked against it before anything is
/// allocated, so a malformed length gives an error instead of a panic.
#[verifier::external_body]
fn decode_record(bytes: &[u8]) -> (r: Result<(Vec<String>, bool), bincode::error::DecodeError>)
    ensures
        forall|p: Seq<Seq<char>>, f: bool| #[trigger]
            record_bytes(p, f) == bytes@ && record_fits(p) ==> r is Ok && strs(r->Ok_0.0@) == p
                && r->Ok_0.1 == f,
{
    let config = bincode::config::standard().with_limit::<RECORD_LIMIT>();
    match bincode::decode_from_slice::<(Vec<String>, bool), _>(bytes, config) {
        Ok((v, _)) => Ok(v),
        Err(e) => Err(e),
    }
}

proof fn lemma_chars_total_prefix(p: Seq<Seq<char>>, j: int)
    requires
        0 <= j <= p.len(),
    ensures
        chars_total(p.take(j)) <= chars_total(p),
    decreases p.len(),
{
    if j < p.len() {
        assert(p.drop_last().take(j) =~= p.take(j));
        lemma_chars_total_prefix(p.drop_last(), j);
    } else {
        assert(p.take(j) =~= p);
    }
}

/// Whether the record with the packages `packages` fits, as `record_fits`.
fn fits_record(packages: &Vec<String>) -> (r: bool)
    ensures
        r == record_fits(strs(packages@)),
{
    let ghost p = strs(packages@);
    let mut total: usize = 9;
    let mut i: usize = 0;
    proof {
        assert(p.take(0) =~= Seq::<Seq<char>>::empty());
    }
    while i < packages.len()
        invariant
            p == strs(packages@),
            i <= p.len(),
            total == 9 + 32 * i + 4 * chars_total(p.take(i as int)),
            total <= RECORD_LIMIT,
        decreases p.len() - i,
    {
        let l = packages[i].as_str().unicode_len();
        proof {
            assert(p.take(i + 1).drop_last() =~= p.take(i as int));
            assert(p.take(i + 1).last() == p[i as int]);
            lemma_chars_total_prefix(p, i + 1);
        }
        if l > RECORD_LIMIT || total + 32 + 4 * l > RECORD_LIMIT {
            return false;
        }
        total = total + 32 + 4 * l;
        i = i + 1;
    }
    proof {
        assert(p.take(i as int) =~= p);
    }
    true
}

/// Every package list of `v` fits in a stored record.
pub open spec fn all_records_fit(v: StoreView) -> bool {
    forall|u: Seq<char>| #[trigger] v.subs.contains_key(u) ==> record_fits(v.subs[u])
}

proof fn lemma_fit_with_packages(v: StoreView, u: Seq<char>, l: Seq<Seq<char>>)
    requires
        all_records_fit(v),
    ensures
        all_records_fit(with_packages(v, u, l)) <==> record_fits(l),
{
    if l.len() == 0 {
        assert(chars_total(l) == 0);
    } else {
        assert(with_packages(v, u, l).subs.contains_key(u));
    }
}

/// A decoded user record.
#[derive(Debug, Clone)]
pub struct User {
    pub packages: Vec<String>,
    pub notification_enabled: bool,
}

impl View for User {
    type V = (Seq<Seq<char>>, bool);

    open spec fn view(&self) -> (Seq<Seq<char>>, bool) {
        (strs(self.packages@), self.notification_enabled)
    }
}

/// What a map of user records holds, as a store.
pub open spec fn contents_view(c: Map<Seq<char>, (Seq<Seq<char>>, bool)>) -> StoreView {
    StoreView {
        subs: Map::new(
            |u: Seq<char>| c.contains_key(u) && c[u].0.len() > 0,
            |u: Seq<char>| c[u].0,
        ),
        notify: Set::new(|u: Seq<char>| c.contains_key(u) && c[u].1),
    }
}

/// The record of `u`, or the empty record if there is none.
pub open spec fn record_of(c: Map<Seq<char>, (Seq<Seq<char>>, bool)>, u: Seq<char>) -> (
    Seq<Seq<char>>,
    bool,
) {
    if c.contains_key(u) {
        c[u]
    } else {
        (Seq::empty(), false)
    }
}

proof fn lemma_record_of(c: Map<Seq<char>, (Seq<Seq<char>>, bool)>, u: Seq<char>)
    ensures
        packages_of(contents_view(c), u) == record_of(c, u).0,
        contents_view(c).notify.contains(u) == record_of(c, u).1,
{
    if !c.contains_key(u) || c[u].0.len() == 0 {
        assert(record_of(c, u).0 =~= Seq::<Seq<char>>::empty());
    }
}

proof fn lemma_put_view(
    c: Map<Seq<char>, (Seq<Seq<char>>, bool)>,
    u: Seq<char>,
    rec: (Seq<Seq<char>>, bool),
)
    ensures
        contents_view(c.insert(u, rec)).subs == with_packages(contents_view(c), u, rec.0).subs,
        contents_view(c.insert(u, rec)).notify == if rec.1 {
            contents_view(c).notify.insert(u)
        } else {
            contents_view(c).notify.remove(u)
        },
{
    let n = contents_view(c.insert(u, rec));
    let w = with_packages(contents_view(c), u, rec.0);
    assert(n.subs =~= w.subs);
    if rec.1 {
        assert(n.notify =~= contents_view(c).notify.insert(u));
    } else {
        assert(n.notify =~= contents_view(c).notify.remove(u));
    }
}

/// The keys of a sequence of entries.
pub open spec fn entry_keys(v: Seq<(String, Vec<u8>)>) -> Seq<Seq<char>> {
    v.map_values(|e: (String, Vec<u8>)| e.0@)
}

/// An in-memory image of the ordered key-value database: the encoded record
/// of each user, in key order.
pub struct RocksDbDatabase {
    entries: Vec<(String, Vec<u8>)>,
    contents: Ghost<Map<Seq<char>, (Seq<Seq<char>>, bool)>>,
}

impl RocksDbDatabase {
    pub closed spec fn keys(&self) -> Seq<Seq<char>> {
        entry_keys(self.entries@)
    }

    /// The decoded record of each user.
    pub closed spec fn records(&self) -> Map<Seq<char>, (Seq<Seq<char>>, bool)> {
        self.contents@
    }

    /// Where `key` stands: `Ok` with its index, or `Err` with the index at
    /// which it would be inserted.
    fn find(&self, key: &str) -> (r: Result<usize, usize>)
        requires
            strictly_sorted(self.keys()),
        ensures
            r matches Ok(i) ==> i < self.keys().len() && self.keys()[i as int] == key@,
            r matches Err(i) ==> {
                &&& i <= self.keys().len()
                &&& !self.keys().contains(key@)
                &&& forall|k: int| 0 <= k < i ==> lex_lt(#[trigger] self.keys()[k], key@)
                &&& i < self.keys().len() ==> lex_lt(key@, self.keys()[i as int])
            },
    {
        let ghost keys = self.keys();
        let mut i: usize = 0;
        while i < self.entries.len() && str_lt(self.entries[i].0.as_str(), key)
            invariant
                i <= keys.len(),
                keys == self.keys(),
                keys.len() == self.entries@.len(),
                forall|k: int| 0 <= k < i ==> lex_lt(#[trigger] keys[k], key@),
            decreases keys.len() - i,
        {
            i = i + 1;
        }
        if i < self.entries.len() && str_eq(self.entries[i].0.as_str(), key) {
            return Ok(i);
        }
        proof {
            if i < keys.len() {
                lemma_lex_total(keys[i as int], key@);
            }
            if keys.contains(key@) {
                let k = choose|k: int| 0 <= k < keys.len() && keys[k] == key@;
                if k < i {
                    lemma_lex_irreflexive(key@);
                } else {
                    if k > i {
                        lemma_lex_transitive(key@, keys[i as int], keys[k]);
                    }
                    lemma_lex_irreflexive(key@);
                }
            }
        }
        Err(i)
    }

    /// The record of `user_id`, if it has one.
    fn get_user_data(&self, user_id: &str) -> (r: Option<User>)
        requires
            self.inv(),
        ensures
            r matches Some(u) ==> self.records().contains_key(user_id@) && u@ == self.records()[user_id@],
            r is None ==> !self.records().contains_key(user_id@),
    {
        match self.find(user_id) {
            Ok(i) => {
                let bytes = &self.entries[i].1;
                proof {
                    let c = self.contents@[user_id@];
                    assert(self.entries@[i as int].0@ == user_id@);
                    assert(bytes@ == record_bytes(c.0, c.1));
                    assert(self.contents@.contains_key(user_id@));
                    assert(record_fits(c.0));
                }
                match decode_record(bytes.as_slice()) {
                    Ok((packages, notification_enabled)) => Some(
                        User { packages, notification_enabled },
                    ),
                    Err(_) => None,
                }
            },
            Err(_) => None,
        }
    }

    /// The record of `user_id`, or an empty one.
    fn get_user_data_or_create(&self, user_id: &str) -> (r: User)
        requires
            self.inv(),
        ensures
            r@ == record_of(self.records(), user_id@),
            r@.0.no_duplicates(),
            record_fits(r@.0),
    {
        match self.get_user_data(user_id) {
            Some(u) => u,
            None => {
                let u = User { packages: Vec::new(), notification_enabled: false };
                proof {
                    assert(u@.0 =~= Seq::<Seq<char>>::empty());
                    assert(chars_total(u@.0) == 0);
                }
                u
            },
        }
    }

    /// Encodes `user` and stores it as the record of `user_id`.
    fn put(&mut self, user_id: &str, user: &User)
        requires
            old(self).inv(),
            user@.0.no_duplicates(),
            record_fits(user@.0),
        ensures
            final(self).inv(),
            final(self).records() == old(self).records().insert(user_id@, user@),
    {
        let bytes = match encode_record(&user.packages, user.notification_enabled) {
            Ok(b) => b,
            Err(_) => {
                return;
            },
        };
        let ghost old_keys = self.keys();
        let ghost old_entries = self.entries@;
        let ghost nc = self.contents@.insert(user_id@, user@);
        match self.find(user_id) {
            Ok(i) => {
                self.entries[i] = (user_id.to_owned(), bytes);
                self.contents = Ghost(nc);
                proof {
                    assert(self.keys() =~= old_keys);
                    assert(nc.dom() =~= old_keys.to_set());
                    assert forall|k: int| 0 <= k < self.entries@.len() implies #[trigger] self.entries@[k].1@
                        == record_bytes(nc[self.entries@[k].0@].0, nc[self.entries@[k].0@].1) by {
                        if k != i {
                            assert(self.entries@[k] == old_entries[k]);
                            if k < i {
                                assert(lex_lt(old_keys[k], old_keys[i as int]));
                            } else {
                                assert(lex_lt(old_keys[i as int], old_keys[k]));
                            }
                            lemma_lex_irreflexive(old_keys[k]);
                            assert(old_keys[k] != old_keys[i as int]);
                        }
                    }
                }
            },
            Err(i) => {
                self.entries.insert(i, (user_id.to_owned(), bytes));
                self.contents = Ghost(nc);
                proof {
                    assert(self.keys() =~= old_keys.insert(i as int, user_id@));
                    lemma_insert_keeps_sorted(old_keys, i as int, user_id@);
                    assert forall|x: Seq<char>| nc.dom().contains(x) == self.keys().to_set().contains(x) by {
                        if old_keys.contains(x) {
                            let k = choose|k: int| 0 <= k < old_keys.len() && old_keys[k] == x;
                            if k < i {
                                assert(self.keys()[k] == x);
                            } else {
                                assert(self.keys()[k + 1] == x);
                            }
                        }
                        if x == user_id@ {
                            assert(self.keys()[i as int] == x);
                        }
                        if self.keys().contains(x) {
                            let k = choose|k: int| 0 <= k < self.keys().len() && self.keys()[k] == x;
                            if k < i {
                                assert(old_keys[k] == x);
                            } else if k > i {
                                assert(old_keys[k - 1] == x);
                            }
                        }
                    }
                    assert(nc.dom() =~= self.keys().to_set());
                    assert forall|k: int| 0 <= k < self.entries@.len() implies #[trigger] self.entries@[k].1@
                        == record_bytes(nc[self.entries@[k].0@].0, nc[self.entries@[k].0@].1) by {
                        if k < i {
                            assert(self.entries@[k] == old_entries[k]);
                            assert(old_keys[k] == self.entries@[k].0@);
                            if old_keys[k] == user_id@ {
                                assert(old_keys.contains(user_id@));
                            }
                        } else if k > i {
                            assert(self.entries@[k] == old_entries[k - 1]);
                            assert(old_keys[k - 1] == self.entries@[k].0@);
                            if old_keys[k - 1] == user_id@ {
                                assert(old_keys.contains(user_id@));
                            }
                        }
                    }
                }
            },
        }
    }

    /// The keys, in order, whose record has notifications enabled or, when
    /// `with_packages` holds, at least one package.
    fn collect_users(&self, with_packages: bool) -> (r: Vec<String>)
        requires
            self.inv(),
        ensures
            strictly_sorted(strs(r@)),
            strs(r@).to_set() == Set::new(
                |u: Seq<char>|
                    self.records().contains_key(u) && (self.records()[u].1 || (with_packages
                        && self.records()[u].0.len() > 0)),
            ),
    {
        let ghost keys = self.keys();
        let ghost c = self.contents@;
        let ghost pred = |u: Seq<char>| c[u].1 || (with_packages && c[u].0.len() > 0);
        let mut out: Vec<String> = Vec::new();
        let mut i: usize = 0;
        proof {
            assert(strs(out@).to_set() =~= Set::new(|u: Seq<char>| keys.take(0).contains(u) && pred(u)));
        }
        while i < self.entries.len()
            invariant
                self.inv(),
                i <= keys.len(),
                keys == self.keys(),
                c == self.contents@,
                keys.len() == self.entries@.len(),
                pred == (|u: Seq<char>| c[u].1 || (with_packages && c[u].0.len() > 0)),
                strictly_sorted(strs(out@)),
                forall|j: int, k: int| 0 <= j < out@.len() && i <= k < keys.len() ==> lex_lt(#[trigger] strs(out@)[j], #[trigger] keys[k]),
                strs(out@).to_set() == Set::new(|u: Seq<char>| keys.take(i as int).contains(u) && pred(u)),
            decreases keys.len() - i,
        {
            let entry = &self.entries[i];
            let ghost key = keys[i as int];
            proof {
                assert(entry.0@ == key);
                assert(entry.1@ == record_bytes(c[key].0, c[key].1));
                assert(keys.to_set().contains(key));
                assert(c.contains_key(key));
                assert(record_fits(c[key].0));
                assert(keys.take(i + 1) =~= keys.take(i as int).push(key));
            }
            let ghost before = strs(out@);
            match decode_record(entry.1.as_slice()) {
                Ok((packages, notification_enabled)) => {
                    proof {
                        assert(strs(packages@) == c[key].0);
                        assert(notification_enabled == c[key].1);
                        assert(pred(key) == (notification_enabled || (with_packages && packages.len() > 0)));
                    }
                    if notification_enabled || (with_packages && packages.len() > 0) {
                        out.push(entry.0.clone());
                        proof {
                            assert(strs(out@) =~= before.push(key));
                            assert forall|a: int, b: int| 0 <= a < b < strs(out@).len() implies lex_lt(#[trigger] strs(out@)[a], #[trigger] strs(out@)[b]) by {
                                if b == before.len() {
                                    assert(strs(out@)[a] == before[a]);
                                } else {
                                    assert(strs(out@)[a] == before[a]);
                                    assert(strs(out@)[b] == before[b]);
                                }
                            }
                            assert forall|j: int, k: int| 0 <= j < out@.len() && i + 1 <= k < keys.len() implies lex_lt(#[trigger] strs(out@)[j], #[trigger] keys[k]) by {
                                if j == before.len() {
                                } else {
                                    assert(strs(out@)[j] == before[j]);
                                }
                            }
                        }
                    }
                    proof {
                        assert forall|x: Seq<char>| strs(out@).to_set().contains(x) == (keys.take(i + 1).contains(x) && pred(x)) by {
                            lemma_push_contains(keys.take(i as int), key, x);
                            lemma_push_contains(before, key, x);
                            assert(before.to_set().contains(x) == (keys.take(i as int).contains(x) && pred(x)));
                            if x == key && keys.take(i as int).contains(x) {
                                let k = choose|k: int| 0 <= k < i && keys.take(i as int)[k] == x;
                                assert(lex_lt(keys[k], keys[i as int]));
                                lemma_lex_irreflexive(x);
                            }
                        }
                        assert(strs(out@).to_set() =~= Set::new(|u: Seq<char>| keys.take(i + 1).contains(u) && pred(u)));
                    }
                },
                Err(_) => {
                },
            }
            i = i + 1;
        }
        proof {
            assert(keys.take(i as int) =~= keys);
            assert(strs(out@).to_set() =~= Set::new(
                |u: Seq<char>|
                    self.records().contains_key(u) && (self.records()[u].1 || (with_packages
                        && self.records()[u].0.len() > 0)),
            ));
        }
        out
    }
}

/// The store after loading a stored record of user `u` holding the packages `p`
/// and the notification flag `f`.
pub open spec fn loaded_spec(v: StoreView, u: Seq<char>, p: Seq<Seq<char>>, f: bool) -> StoreView {
    if f {
        enable_spec(subscribe_spec(v, u, p), u)
    } else {
        subscribe_spec(v, u, p)
    }
}

impl RocksDbDatabase {
    /// The encoded record kept for `user_id`, as it is written to disk, or
    /// `None` when there is none.
    pub fn stored_record(&self, user_id: &str) -> (r: Option<Vec<u8>>)
        requires
            self.inv(),
        ensures
            r matches Some(b) ==> b@ == record_bytes(
                packages_of(self.store(), user_id@),
                self.store().notify.contains(user_id@),
            ),
            r is None ==> packages_of(self.store(), user_id@).len() == 0 && !self.store().notify.contains(
                user_id@,
            ),
    {
        proof {
            lemma_record_of(self.contents@, user_id@);
        }
        match self.find(user_id) {
            Ok(i) => {
                proof {
                    assert(self.entries@[i as int].0@ == user_id@);
                }
                Some(self.entries[i].1.clone())
            },
            Err(_) => {
                proof {
                    assert(!self.contents@.contains_key(user_id@));
                }
                None
            },
        }
    }

    /// Loads the stored record `bytes` of `user_id`: its packages are
    /// subscribed and, if its flag is set, notifications enabled. Bytes that do
    /// not decode as a record are refused with `Decode`; a record whose packages
    /// the store cannot hold is refused with `TooLarge`. A refusal changes nothing.
    pub fn load_record(&mut self, user_id: &str, bytes: &[u8]) -> (r: Result<(), StoreError>)
        requires
            old(self).inv(),
        ensures
            final(self).inv(),
            forall|p: Seq<Seq<char>>, f: bool| #[trigger]
                record_bytes(p, f) == bytes@ && record_fits(p) ==> {
                    &&& (r is Ok <==> all_records_fit(subscribe_spec(old(self).store(), user_id@, p)))
                    &&& (r is Ok ==> final(self).store() == loaded_spec(
                        old(self).store(),
                        user_id@,
                        p,
                        f,
                    ))
                },
            r is Ok ==> exists|p: Seq<Seq<char>>, f: bool|
                final(self).store() == loaded_spec(old(self).store(), user_id@, p, f),
            r is Err ==> final(self).store() == old(self).store(),
    {
        match decode_record(bytes) {
            Ok((packages, enabled)) => {
                let ghost p = strs(packages@);
                let added = self.subscribe(user_id, packages);
                if added.is_err() {
                    return Err(StoreError::TooLarge);
                }
                if enabled {
                    let _ = self.enable_notification(user_id);
                }
                proof {
                    assert(self.store() == loaded_spec(old(self).store(), user_id@, p, enabled));
                }
                Ok(())
            },
            Err(_) => Err(StoreError::Decode),
        }
    }
}

impl Database for RocksDbDatabase {
    closed spec fn inv(&self) -> bool {
        &&& strictly_sorted(self.keys())
        &&& self.contents@.dom() == self.keys().to_set()
        &&& forall|i: int| 0 <= i < self.entries@.len() ==> #[trigger] self.entries@[i].1@
            == record_bytes(
            self.contents@[self.entries@[i].0@].0,
            self.contents@[self.entries@[i].0@].1,
        )
        &&& forall|u: Seq<char>| #[trigger]
            self.contents@.contains_key(u) ==> self.contents@[u].0.no_duplicates()
                && record_fits(self.contents@[u].0)
    }

    open spec fn holds(v: StoreView) -> bool {
        all_records_fit(v)
    }

    closed spec fn store(&self) -> StoreView {
        contents_view(self.contents@)
    }

    proof fn lemma_store_wf(&self) {
        let v = self.store();
        let keys = self.keys().to_set();
        assert(all_records_fit(v));
        vstd::seq_lib::seq_to_set_is_finite(self.keys());
        assert(v.subs.dom().subset_of(keys));
        assert(v.notify.subset_of(keys));
        vstd::set_lib::lemma_set_subset_finite(keys, v.subs.dom());
        vstd::set_lib::lemma_set_subset_finite(keys, v.notify);
    }

    fn new() -> (r: Self) {
        let r = RocksDbDatabase { entries: Vec::new(), contents: Ghost(Map::empty()) };
        proof {
            assert(r.keys().to_set() =~= Set::empty());
            assert(r.store().subs =~= Map::empty());
            assert(r.store().notify =~= Set::empty());
        }
        r
    }

    fn get_packages(&self, user_id: &str) -> (r: Vec<String>) {
        let user = self.get_user_data_or_create(user_id);
        proof {
            lemma_record_of(self.contents@, user_id@);
        }
        user.packages
    }

    fn subscribe(&mut self, user_id: &str, packages: Vec<String>) -> (r: Result<(), StoreError>) {
        proof {
            self.lemma_store_wf();
        }
        let ghost u = user_id@;
        let ghost ps = strs(packages@);
        let ghost c = self.contents@;
        let mut user = self.get_user_data_or_create(user_id);
        let ghost start = user@.0;
        let ghost flag = user@.1;
        let mut j: usize = 0;
        while j < packages.len()
            invariant
                j <= packages@.len(),
                ps == strs(packages@),
                strs(user.packages@) == add_all(start, ps.take(j as int)),
                user.notification_enabled == flag,
            decreases packages@.len() - j,
        {
            let p = &packages[j];
            let ghost before = strs(user.packages@);
            proof {
                assert(ps.take(j + 1).drop_last() =~= ps.take(j as int));
                assert(ps.take(j + 1).last() == p@);
            }
            if !contains_str(user.packages.as_slice(), p.as_str()) {
                user.packages.push(p.clone());
                proof {
                    assert(strs(user.packages@) =~= before.push(p@));
                }
            }
            j = j + 1;
        }
        proof {
            assert(ps.take(j as int) =~= ps);
            lemma_add_all(start, ps);
            lemma_record_of(c, u);
            lemma_fit_with_packages(contents_view(c), u, strs(user.packages@));
        }
        if !fits_record(&user.packages) {
            return Err(StoreError::TooLarge);
        }
        self.put(user_id, &user);
        proof {
            {
                lemma_put_view(c, u, user@);
                let expect = subscribe_spec(contents_view(c), u, ps);
                if flag {
                    assert(contents_view(c).notify.insert(u) =~= contents_view(c).notify);
                } else {
                    assert(contents_view(c).notify.remove(u) =~= contents_view(c).notify);
                }
                assert(self.store().subs == expect.subs);
                assert(self.store().notify == expect.notify);
            }
        }
        Ok(())
    }

    fn unsubscribe(&mut self, user_id: &str, packages: Vec<String>) -> (r: Result<(), StoreError>) {
        proof {
            self.lemma_store_wf();
        }
        let ghost u = user_id@;
        let ghost ps = strs(packages@);
        let ghost c = self.contents@;
        proof {
            lemma_record_of(c, u);
        }
        match self.get_user_data(user_id) {
            None => {
                proof {
                    let v = contents_view(c);
                    assert(packages_of(v, u) =~= Seq::<Seq<char>>::empty());
                    assert(remove_all(packages_of(v, u), ps) =~= Seq::<Seq<char>>::empty());
                    assert(unsubscribe_spec(v, u, ps).subs =~= v.subs);
                }
                Ok(())
            },
            Some(user) => {
                let ghost list = user@.0;
                let mut kept: Vec<String> = Vec::new();
                let mut i: usize = 0;
                while i < user.packages.len()
                    invariant
                        i <= list.len(),
                        list == strs(user.packages@),
                        ps == strs(packages@),
                        strs(kept@) == remove_all(list.take(i as int), ps),
                    decreases list.len() - i,
                {
                    let p = &user.packages[i];
                    let ghost before = strs(kept@);
                    proof {
                        assert(list.take(i + 1).drop_last() =~= list.take(i as int));
                        assert(list.take(i + 1).last() == p@);
                    }
                    if !contains_str(packages.as_slice(), p.as_str()) {
                        kept.push(p.clone());
                        proof {
                            assert(strs(kept@) =~= before.push(p@));
                        }
                    }
                    i = i + 1;
                }
                proof {
                    assert(list.take(i as int) =~= list);
                    lemma_remove_all(list, ps);
                    lemma_fit_with_packages(contents_view(c), u, strs(kept@));
                }
                if !fits_record(&kept) {
                    return Err(StoreError::TooLarge);
                }
                let flag = user.notification_enabled;
                let updated = User { packages: kept, notification_enabled: flag };
                self.put(user_id, &updated);
                proof {
                    {
                        lemma_put_view(c, u, updated@);
                        let expect = unsubscribe_spec(contents_view(c), u, ps);
                        if flag {
                            assert(contents_view(c).notify.insert(u) =~= contents_view(c).notify);
                        } else {
                            assert(contents_view(c).notify.remove(u) =~= contents_view(c).notify);
                        }
                        assert(self.store().subs == expect.subs);
                        assert(self.store().notify == expect.notify);
                    }
                }
                Ok(())
            },
        }
    }

    fn is_notification_enabled(&self, user_id: &str) -> (r: bool) {
        let user = self.get_user_data_or_create(user_id);
        proof {
            lemma_record_of(self.contents@, user_id@);
        }
        user.notification_enabled
    }

    fn enable_notification(&mut self, user_id: &str) -> (r: Result<(), StoreError>) {
        proof {
            self.lemma_store_wf();
        }
        let ghost c = self.contents@;
        let mut user = self.get_user_data_or_create(user_id);
        user.notification_enabled = true;
        self.put(user_id, &user);
        proof {
            lemma_record_of(c, user_id@);
            {
                lemma_put_view(c, user_id@, user@);
                assert(self.store().subs =~= contents_view(c).subs);
            }
        }
        Ok(())
    }

    fn disable_notification(&mut self, user_id: &str) -> (r: Result<(), StoreError>) {
        proof {
            self.lemma_store_wf();
        }
        let ghost c = self.contents@;
        let mut user = self.get_user_data_or_create(user_id);
        user.notification_enabled = false;
        self.put(user_id, &user);
        proof {
            lemma_record_of(c, user_id@);
            {
                lemma_put_view(c, user_id@, user@);
                assert(self.store().subs =~= contents_view(c).subs);
            }
        }
        Ok(())
    }

    fn notification_targets(&self) -> (r: Vec<String>) {
        let r = self.collect_users(false);
        proof {
            assert(strs(r@).to_set() =~= self.store().notify);
        }
        r
    }

    fn users(&self) -> (r: Vec<String>) {
        let r = self.collect_users(true);
        proof {
            assert(strs(r@).to_set() =~= known_users(self.store()));
        }
        r
    }
}

} // verus!

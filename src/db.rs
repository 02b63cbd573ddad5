//! The subscription store: its model, and the contract that every backend meets.
use vstd::prelude::*;

use crate::text::{lemma_sorted_unique, strictly_sorted, strs};

verus! {

/// What a subscription store holds, independent of its backend.
///
/// `subs` maps each user with at least one subscription to their packages, in
/// the order they were first subscribed; `notify` holds the users who enabled
/// notifications. A user with neither is not recorded at all.
pub struct StoreView {
    pub subs: Map<Seq<char>, Seq<Seq<char>>>,
    pub notify: Set<Seq<char>>,
}

/// The store that holds nothing.
pub open spec fn empty_store() -> StoreView {
    StoreView { subs: Map::empty(), notify: Set::empty() }
}

/// A well-formed store: finite, with no empty or repeated package list.
pub open spec fn store_wf(v: StoreView) -> bool {
    &&& v.subs.dom().finite()
    &&& v.notify.finite()
    &&& forall|u: Seq<char>| #[trigger]
        v.subs.contains_key(u) ==> v.subs[u].len() > 0 && v.subs[u].no_duplicates()
}

/// The packages of user `u`: empty for an unknown user.
pub open spec fn packages_of(v: StoreView, u: Seq<char>) -> Seq<Seq<char>> {
    if v.subs.contains_key(u) {
        v.subs[u]
    } else {
        Seq::empty()
    }
}

/// `list` extended by each of `ps` that it does not hold yet, in order.
pub open spec fn add_all(list: Seq<Seq<char>>, ps: Seq<Seq<char>>) -> Seq<Seq<char>>
    decreases ps.len(),
{
    if ps.len() == 0 {
        list
    } else {
        let l = add_all(list, ps.drop_last());
        if l.contains(ps.last()) {
            l
        } else {
            l.push(ps.last())
        }
    }
}

/// `list` without any of `ps`, order kept.
pub open spec fn remove_all(list: Seq<Seq<char>>, ps: Seq<Seq<char>>) -> Seq<Seq<char>>
    decreases list.len(),
{
    if list.len() == 0 {
        list
    } else {
        let l = remove_all(list.drop_last(), ps);
        if ps.contains(list.last()) {
            l
        } else {
            l.push(list.last())
        }
    }
}

/// The store with user `u`'s package list replaced by `list`.
pub open spec fn with_packages(v: StoreView, u: Seq<char>, list: Seq<Seq<char>>) -> StoreView {
    StoreView {
        subs: if list.len() > 0 {
            v.subs.insert(u, list)
        } else {
            v.subs.remove(u)
        },
        notify: v.notify,
    }
}

pub open spec fn subscribe_spec(v: StoreView, u: Seq<char>, ps: Seq<Seq<char>>) -> StoreView {
    with_packages(v, u, add_all(packages_of(v, u), ps))
}

pub open spec fn unsubscribe_spec(v: StoreView, u: Seq<char>, ps: Seq<Seq<char>>) -> StoreView {
    with_packages(v, u, remove_all(packages_of(v, u), ps))
}

pub open spec fn enable_spec(v: StoreView, u: Seq<char>) -> StoreView {
    StoreView { subs: v.subs, notify: v.notify.insert(u) }
}

pub open spec fn disable_spec(v: StoreView, u: Seq<char>) -> StoreView {
    StoreView { subs: v.subs, notify: v.notify.remove(u) }
}

/// Every user with a subscription or with notifications enabled.
pub open spec fn known_users(v: StoreView) -> Set<Seq<char>> {
    v.subs.dom().union(v.notify)
}

/// `r` lists exactly the members of `s`, in increasing order.
pub open spec fn lists_sorted(r: Seq<Seq<char>>, s: Set<Seq<char>>) -> bool {
    strictly_sorted(r) && r.to_set() == s
}

/// A failure of the storage layer.
#[derive(Debug, Clone, Copy, PartialEq, Eq)]
pub enum StoreError {
    /// Bytes handed in as a stored record do not decode as one.
    Decode,
    /// A user's record would grow beyond what the backend can store.
    TooLarge,
}

/// The contract shared by every subscription store backend.
pub trait Database: Sized {
    /// The backend's internal invariant.
    spec fn inv(&self) -> bool;

    /// What the store holds.
    spec fn store(&self) -> StoreView;

    /// Whether the backend can hold the contents `v`; a change whose result it
    /// cannot hold is refused.
    spec fn holds(v: StoreView) -> bool;

    proof fn lemma_store_wf(&self)
        requires
            self.inv(),
        ensures
            store_wf(self.store()),
            Self::holds(self.store()),
    ;

    /// A store that holds nothing.
    fn new() -> (r: Self)
        ensures
            r.inv(),
            r.store() == empty_store(),
    ;

    /// The packages `user_id` subscribed to, in the order of first subscription.
    fn get_packages(&self, user_id: &str) -> (r: Vec<String>)
        requires
            self.inv(),
        ensures
            strs(r@) == packages_of(self.store(), user_id@),
    ;

    /// Subscribes `user_id` to each of `packages`; one already held is kept once.
    fn subscribe(&mut self, user_id: &str, packages: Vec<String>) -> (r: Result<(), StoreError>)
        requires
            old(self).inv(),
        ensures
            final(self).inv(),
            r is Ok <==> Self::holds(subscribe_spec(
                old(self).store(),
                user_id@,
                strs(packages@),
            )),
            r is Ok ==> final(self).store() == subscribe_spec(
                old(self).store(),
                user_id@,
                strs(packages@),
            ),
            r is Err ==> r == Err::<(), StoreError>(StoreError::TooLarge) && final(self).store()
                == old(self).store(),
    ;

    /// Removes each of `packages` from `user_id`'s subscriptions; absent ones are ignored.
    fn unsubscribe(&mut self, user_id: &str, packages: Vec<String>) -> (r: Result<(), StoreError>)
        requires
            old(self).inv(),
        ensures
            final(self).inv(),
            r is Ok <==> Self::holds(unsubscribe_spec(
                old(self).store(),
                user_id@,
                strs(packages@),
            )),
            r is Ok ==> final(self).store() == unsubscribe_spec(
                old(self).store(),
                user_id@,
                strs(packages@),
            ),
            r is Err ==> r == Err::<(), StoreError>(StoreError::TooLarge) && final(self).store()
                == old(self).store(),
    ;

    /// Whether `user_id` has notifications enabled.
    fn is_notification_enabled(&self, user_id: &str) -> (r: bool)
        requires
            self.inv(),
        ensures
            r == self.store().notify.contains(user_id@),
    ;

    /// Enables notifications for `user_id`.
    fn enable_notification(&mut self, user_id: &str) -> (r: Result<(), StoreError>)
        requires
            old(self).inv(),
        ensures
            final(self).inv(),
            r is Ok <==> Self::holds(enable_spec(old(self).store(), user_id@)),
            r is Ok ==> final(self).store() == enable_spec(old(self).store(), user_id@),
            r is Err ==> r == Err::<(), StoreError>(StoreError::TooLarge) && final(self).store()
                == old(self).store(),
    ;

    /// Disables notifications for `user_id`.
    fn disable_notification(&mut self, user_id: &str) -> (r: Result<(), StoreError>)
        requires
            old(self).inv(),
        ensures
            final(self).inv(),
            r is Ok <==> Self::holds(disable_spec(old(self).store(), user_id@)),
            r is Ok ==> final(self).store() == disable_spec(old(self).store(), user_id@),
            r is Err ==> r == Err::<(), StoreError>(StoreError::TooLarge) && final(self).store()
                == old(self).store(),
    ;

    /// The users with notifications enabled, in increasing order.
    fn notification_targets(&self) -> (r: Vec<String>)
        requires
            self.inv(),
        ensures
            lists_sorted(strs(r@), self.store().notify),
    ;

    /// Every user with a subscription or with notifications enabled, in increasing order.
    fn users(&self) -> (r: Vec<String>)
        requires
            self.inv(),
        ensures
            lists_sorted(strs(r@), known_users(self.store())),
    ;
}

pub proof fn lemma_push_contains<A>(s: Seq<A>, x: A, y: A)
    ensures
        s.push(x).contains(y) <==> (s.contains(y) || y == x),
{
    if s.contains(y) {
        let k = choose|k: int| 0 <= k < s.len() && s[k] == y;
        assert(s.push(x)[k] == y);
    }
    if y == x {
        assert(s.push(x)[s.len() as int] == y);
    }
    if s.push(x).contains(y) {
        let k = choose|k: int| 0 <= k < s.len() + 1 && s.push(x)[k] == y;
        if k < s.len() {
            assert(s[k] == y);
        }
    }
}

pub proof fn lemma_push_no_duplicates<A>(s: Seq<A>, x: A)
    requires
        s.no_duplicates(),
        !s.contains(x),
    ensures
        s.push(x).no_duplicates(),
{
    let t = s.push(x);
    assert forall|i: int, j: int| 0 <= i < t.len() && 0 <= j < t.len() && i != j implies t[i]
        != t[j] by {
        if i == s.len() {
            assert(s[j] == t[j]);
        } else if j == s.len() {
            assert(s[i] == t[i]);
        }
    }
}

/// What `remove_all` keeps, and that it keeps a list free of repeats.
pub proof fn lemma_remove_all(list: Seq<Seq<char>>, ps: Seq<Seq<char>>)
    ensures
        forall|y: Seq<char>| #[trigger]
            remove_all(list, ps).contains(y) <==> (list.contains(y) && !ps.contains(y)),
        list.no_duplicates() ==> remove_all(list, ps).no_duplicates(),
    decreases list.len(),
{
    if list.len() > 0 {
        let d = list.drop_last();
        let x = list.last();
        lemma_remove_all(d, ps);
        let l = remove_all(d, ps);
        assert(list =~= d.push(x));
        assert forall|y: Seq<char>| #[trigger]
            remove_all(list, ps).contains(y) <==> (list.contains(y) && !ps.contains(y)) by {
            lemma_push_contains(d, x, y);
            lemma_push_contains(l, x, y);
        }
        if list.no_duplicates() {
            assert(d.no_duplicates());
            if !d.contains(x) {
            } else {
                let k = choose|k: int| 0 <= k < d.len() && d[k] == x;
                assert(list[k] == list[list.len() - 1]);
            }
            if !ps.contains(x) {
                lemma_push_no_duplicates(l, x);
            }
        }
    }
}

/// What `add_all` holds, and that it keeps a list free of repeats.
pub proof fn lemma_add_all(list: Seq<Seq<char>>, ps: Seq<Seq<char>>)
    ensures
        forall|y: Seq<char>| #[trigger]
            add_all(list, ps).contains(y) <==> (list.contains(y) || ps.contains(y)),
        list.no_duplicates() ==> add_all(list, ps).no_duplicates(),
    decreases ps.len(),
{
    if ps.len() > 0 {
        let d = ps.drop_last();
        let x = ps.last();
        lemma_add_all(list, d);
        let l = add_all(list, d);
        assert(ps =~= d.push(x));
        assert forall|y: Seq<char>| #[trigger]
            add_all(list, ps).contains(y) <==> (list.contains(y) || ps.contains(y)) by {
            lemma_push_contains(d, x, y);
            lemma_push_contains(l, x, y);
        }
        if list.no_duplicates() && !l.contains(x) {
            lemma_push_no_duplicates(l, x);
        }
    }
}

/// One change to a subscription store.
#[derive(Debug, Clone)]
pub enum StoreOp {
    Subscribe(String, Vec<String>),
    Unsubscribe(String, Vec<String>),
    EnableNotification(String),
    DisableNotification(String),
}

/// What a `StoreOp` holds, as plain sequences.
pub enum StoreOpView {
    Subscribe(Seq<char>, Seq<Seq<char>>),
    Unsubscribe(Seq<char>, Seq<Seq<char>>),
    EnableNotification(Seq<char>),
    DisableNotification(Seq<char>),
}

impl View for StoreOp {
    type V = StoreOpView;

    open spec fn view(&self) -> StoreOpView {
        match self {
            StoreOp::Subscribe(u, ps) => StoreOpView::Subscribe(u@, strs(ps@)),
            StoreOp::Unsubscribe(u, ps) => StoreOpView::Unsubscribe(u@, strs(ps@)),
            StoreOp::EnableNotification(u) => StoreOpView::EnableNotification(u@),
            StoreOp::DisableNotification(u) => StoreOpView::DisableNotification(u@),
        }
    }
}

/// The views of a sequence of operations.
pub open spec fn ops_view(v: Seq<StoreOp>) -> Seq<StoreOpView> {
    v.map_values(|o: StoreOp| o@)
}

/// The store after `op`.
pub open spec fn apply_op(v: StoreView, op: StoreOpView) -> StoreView {
    match op {
        StoreOpView::Subscribe(u, ps) => subscribe_spec(v, u, ps),
        StoreOpView::Unsubscribe(u, ps) => unsubscribe_spec(v, u, ps),
        StoreOpView::EnableNotification(u) => enable_spec(v, u),
        StoreOpView::DisableNotification(u) => disable_spec(v, u),
    }
}

/// The store after each of `ops` in turn.
pub open spec fn apply_ops(v: StoreView, ops: Seq<StoreOpView>) -> StoreView
    decreases ops.len(),
{
    if ops.len() == 0 {
        v
    } else {
        apply_op(apply_ops(v, ops.drop_last()), ops.last())
    }
}

/// Applies each of `ops` to `db` in turn, stopping at the first one that the
/// backend refuses; the operations before it stay applied.
pub fn replay<D: Database>(db: &mut D, ops: &Vec<StoreOp>) -> (r: Result<(), StoreError>)
    requires
        old(db).inv(),
    ensures
        final(db).inv(),
        (forall|k: int|
            0 < k <= ops@.len() ==> #[trigger] D::holds(
                apply_ops(old(db).store(), ops_view(ops@).take(k)),
            )) ==> r is Ok,
        r is Ok ==> final(db).store() == apply_ops(
            old(db).store(),
            ops_view(ops@),
        ),
{
    let ghost all = ops_view(ops@);
    let mut i: usize = 0;
    while i < ops.len()
        invariant
            i <= ops@.len(),
            all == ops_view(ops@),
            db.inv(),
            db.store() == apply_ops(old(db).store(), all.take(i as int)),
        decreases ops@.len() - i,
    {
        proof {
            assert(all.take(i + 1).drop_last() =~= all.take(i as int));
            assert(all.take(i + 1).last() == ops@[i as int]@);
        }
        let r = match &ops[i] {
            StoreOp::Subscribe(u, ps) => db.subscribe(u.as_str(), ps.clone()),
            StoreOp::Unsubscribe(u, ps) => db.unsubscribe(u.as_str(), ps.clone()),
            StoreOp::EnableNotification(u) => db.enable_notification(u.as_str()),
            StoreOp::DisableNotification(u) => db.disable_notification(u.as_str()),
        };
        if r.is_err() {
            proof {
                assert(!D::holds(apply_ops(old(db).store(), all.take(i + 1))));
            }
            return r;
        }
        i = i + 1;
    }
    proof {
        assert(all.take(i as int) =~= all);
    }
    Ok(())
}

/// Subscribing twice to a package leaves it in the user's list exactly once.
pub proof fn lemma_subscribe_twice(v: StoreView, u: Seq<char>, p: Seq<char>)
    requires
        store_wf(v),
    ensures
        ({
            let once = subscribe_spec(v, u, seq![p]);
            let twice = subscribe_spec(once, u, seq![p]);
            &&& packages_of(twice, u).contains(p)
            &&& packages_of(twice, u).no_duplicates()
            &&& twice == once
        }),
{
    let ps = seq![p];
    let l0 = packages_of(v, u);
    assert(l0.no_duplicates());
    lemma_add_all(l0, ps);
    let l1 = add_all(l0, ps);
    assert(ps.contains(p) && ps[0] == p);
    assert(l1.len() > 0);
    let once = subscribe_spec(v, u, ps);
    assert(packages_of(once, u) == l1);
    assert(ps.drop_last() =~= Seq::<Seq<char>>::empty());
    assert(ps.last() == p);
    assert(l1.contains(p));
    assert(add_all(l1, ps.drop_last()) == l1);
    assert(add_all(l1, ps) == l1);
    assert(subscribe_spec(once, u, ps).subs =~= once.subs);
}

/// Subscribing a fresh user to `a` and `b`, then unsubscribing `a`, leaves `[b]`.
pub proof fn lemma_subscribe_then_unsubscribe(
    v: StoreView,
    u: Seq<char>,
    a: Seq<char>,
    b: Seq<char>,
)
    requires
        packages_of(v, u).len() == 0,
        a != b,
    ensures
        packages_of(unsubscribe_spec(subscribe_spec(v, u, seq![a, b]), u, seq![a]), u) == seq![b],
{
    let l0 = packages_of(v, u);
    assert(l0 =~= Seq::<Seq<char>>::empty());
    let ps = seq![a, b];
    assert(ps.drop_last() =~= seq![a]);
    assert(seq![a].drop_last() =~= Seq::<Seq<char>>::empty());
    assert(seq![a].last() == a);
    assert(!l0.contains(a));
    assert(add_all(l0, seq![a].drop_last()) == l0);
    assert(add_all(l0, seq![a]) =~= seq![a]);
    assert(ps.last() == b);
    assert(!seq![a].contains(b));
    assert(add_all(l0, ps) =~= seq![a, b]);
    let s1 = subscribe_spec(v, u, ps);
    assert(packages_of(s1, u) == seq![a, b]);
    let l = seq![a, b];
    assert(l.drop_last() =~= seq![a]);
    assert(!seq![a].contains(b));
    assert(seq![a][0] == a);
    assert(seq![a].contains(a));
    assert(l.last() == b);
    assert(remove_all(Seq::<Seq<char>>::empty(), seq![a]) =~= Seq::<Seq<char>>::empty());
    assert(remove_all(seq![a], seq![a]) =~= Seq::<Seq<char>>::empty());
    assert(remove_all(l, seq![a]) =~= seq![b]);
}

/// Unsubscribing from a package the user does not hold changes nothing.
pub proof fn lemma_unsubscribe_absent(v: StoreView, u: Seq<char>, x: Seq<char>)
    requires
        store_wf(v),
        !packages_of(v, u).contains(x),
    ensures
        unsubscribe_spec(v, u, seq![x]) == v,
{
    let l = packages_of(v, u);
    lemma_remove_all_keeps(l, seq![x]);
    assert(remove_all(l, seq![x]) == l);
    assert(unsubscribe_spec(v, u, seq![x]).subs =~= v.subs);
}

proof fn lemma_remove_all_keeps(l: Seq<Seq<char>>, ps: Seq<Seq<char>>)
    requires
        forall|y: Seq<char>| #[trigger] l.contains(y) ==> !ps.contains(y),
    ensures
        remove_all(l, ps) == l,
    decreases l.len(),
{
    if l.len() > 0 {
        let d = l.drop_last();
        assert forall|y: Seq<char>| #[trigger] d.contains(y) implies !ps.contains(y) by {
            let k = choose|k: int| 0 <= k < d.len() && d[k] == y;
            assert(l[k] == y);
            assert(l.contains(y));
        }
        lemma_remove_all_keeps(d, ps);
        assert(l.contains(l.last()));
        assert(d.push(l.last()) =~= l);
    }
}

/// Enabling notifications twice leaves them enabled, and the second time finds
/// them enabled already.
pub proof fn lemma_enable_twice(v: StoreView, u: Seq<char>)
    ensures
        enable_spec(v, u).notify.contains(u),
        enable_spec(enable_spec(v, u), u) == enable_spec(v, u),
{
    assert(enable_spec(v, u).notify.insert(u) =~= enable_spec(v, u).notify);
}

/// A user whose only package is unsubscribed and whose notifications are
/// disabled is no longer a known user.
pub proof fn lemma_forgotten_user(v: StoreView, u: Seq<char>, p: Seq<char>)
    requires
        packages_of(v, u) == seq![p],
    ensures
        !known_users(disable_spec(unsubscribe_spec(v, u, seq![p]), u)).contains(u),
{
    let l = seq![p];
    assert(l.drop_last() =~= Seq::<Seq<char>>::empty());
    assert(seq![p][0] == p);
    assert(seq![p].contains(p));
    assert(remove_all(Seq::<Seq<char>>::empty(), seq![p]) =~= Seq::<Seq<char>>::empty());
    assert(remove_all(l, seq![p]) =~= Seq::<Seq<char>>::empty());
}

/// Backend parity: two stores of any backends to which the same operations
/// were applied from the same start hold the same contents, so they answer
/// `get_packages` and `is_notification_enabled` alike, and the lists that
/// `notification_targets` and `users` may return are the same list.
pub proof fn lemma_backend_parity<A: Database, B: Database>(
    a: &A,
    b: &B,
    start: StoreView,
    ops: Seq<StoreOpView>,
)
    requires
        a.inv(),
        b.inv(),
        a.store() == apply_ops(start, ops),
        b.store() == apply_ops(start, ops),
    ensures
        forall|u: Seq<char>| packages_of(a.store(), u) == packages_of(b.store(), u),
        forall|u: Seq<char>| a.store().notify.contains(u) == b.store().notify.contains(u),
        forall|ra: Seq<Seq<char>>, rb: Seq<Seq<char>>|
            lists_sorted(ra, a.store().notify) && lists_sorted(rb, b.store().notify) ==> ra == rb,
        forall|ra: Seq<Seq<char>>, rb: Seq<Seq<char>>|
            lists_sorted(ra, known_users(a.store())) && lists_sorted(rb, known_users(b.store()))
                ==> ra == rb,
{
    assert forall|ra: Seq<Seq<char>>, rb: Seq<Seq<char>>|
        lists_sorted(ra, a.store().notify) && lists_sorted(rb, b.store().notify) implies ra
        == rb by {
        lemma_sorted_unique(ra, rb);
    }
    assert forall|ra: Seq<Seq<char>>, rb: Seq<Seq<char>>|
        lists_sorted(ra, known_users(a.store())) && lists_sorted(rb, known_users(b.store()))
            implies ra == rb by {
        lemma_sorted_unique(ra, rb);
    }
}

} // verus!

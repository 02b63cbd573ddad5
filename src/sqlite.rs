//! The relational backend: one `subscription` row per (user, package) and one
//! `notification` row per user who enabled notifications, as the SQLite
//! database lays them out. Set semantics are kept by never inserting a row
//! that is already there.
use vstd::prelude::*;

use crate::db::{
    add_all, known_users, lemma_add_all, lemma_push_contains, lemma_push_no_duplicates,
    lemma_remove_all, packages_of, remove_all, subscribe_spec, unsubscribe_spec, Database,
    StoreError, StoreView,
};
use crate::text::{contains_str, insert_sorted, str_eq, strictly_sorted, strs};

verus! {

/// The rows of the `subscription` table, as plain sequences.
pub open spec fn rows_view(v: Seq<(String, String)>) -> Seq<(Seq<char>, Seq<char>)> {
    v.map_values(|r: (String, String)| (r.0@, r.1@))
}

/// The packages of user `u` in `rows`, in row order.
pub open spec fn pkgs_of(rows: Seq<(Seq<char>, Seq<char>)>, u: Seq<char>) -> Seq<Seq<char>>
    decreases rows.len(),
{
    if rows.len() == 0 {
        Seq::empty()
    } else {
        let l = pkgs_of(rows.drop_last(), u);
        if rows.last().0 == u {
            l.push(rows.last().1)
        } else {
            l
        }
    }
}

/// The users that occur in `rows`.
pub open spec fn row_users(rows: Seq<(Seq<char>, Seq<char>)>) -> Seq<Seq<char>> {
    rows.map_values(|r: (Seq<char>, Seq<char>)| r.0)
}

proof fn lemma_pkgs_nonempty(rows: Seq<(Seq<char>, Seq<char>)>, u: Seq<char>)
    ensures
        pkgs_of(rows, u).len() > 0 <==> row_users(rows).contains(u),
    decreases rows.len(),
{
    if rows.len() > 0 {
        let d = rows.drop_last();
        lemma_pkgs_nonempty(d, u);
        assert(row_users(rows) =~= row_users(d).push(rows.last().0));
        lemma_push_contains(row_users(d), rows.last().0, u);
    }
}

proof fn lemma_pkgs_contains(rows: Seq<(Seq<char>, Seq<char>)>, u: Seq<char>, p: Seq<char>)
    ensures
        pkgs_of(rows, u).contains(p) <==> rows.contains((u, p)),
    decreases rows.len(),
{
    if rows.len() > 0 {
        let d = rows.drop_last();
        lemma_pkgs_contains(d, u, p);
        assert(rows =~= d.push(rows.last()));
        lemma_push_contains(d, rows.last(), (u, p));
        lemma_push_contains(pkgs_of(d, u), rows.last().1, p);
    }
}

/// An in-memory image of the relational tables.
pub struct SqliteDatabase {
    subscription: Vec<(String, String)>,
    notification: Vec<String>,
}

impl SqliteDatabase {
    pub closed spec fn rows(&self) -> Seq<(Seq<char>, Seq<char>)> {
        rows_view(self.subscription@)
    }

    /// Whether the `subscription` table holds the row (`user_id`, `package`).
    fn has_row(&self, user_id: &str, package: &str) -> (r: bool)
        ensures
            r == pkgs_of(self.rows(), user_id@).contains(package@),
    {
        let ghost rows = self.rows();
        let mut i: usize = 0;
        while i < self.subscription.len()
            invariant
                i <= rows.len(),
                rows == self.rows(),
                rows.len() == self.subscription@.len(),
                forall|k: int| 0 <= k < i ==> rows[k] != (user_id@, package@),
            decreases rows.len() - i,
        {
            let row = &self.subscription[i];
            proof {
                assert(rows[i as int] == (row.0@, row.1@));
            }
            if str_eq(row.0.as_str(), user_id) && str_eq(row.1.as_str(), package) {
                proof {
                    lemma_pkgs_contains(rows, user_id@, package@);
                    assert(rows[i as int] == (user_id@, package@));
                }
                return true;
            }
            i = i + 1;
        }
        proof {
            lemma_pkgs_contains(rows, user_id@, package@);
        }
        false
    }
}

impl Database for SqliteDatabase {
    closed spec fn inv(&self) -> bool {
        &&& forall|u: Seq<char>| #[trigger] pkgs_of(self.rows(), u).no_duplicates()
        &&& strs(self.notification@).no_duplicates()
    }

    closed spec fn store(&self) -> StoreView {
        StoreView {
            subs: Map::new(
                |u: Seq<char>| pkgs_of(self.rows(), u).len() > 0,
                |u: Seq<char>| pkgs_of(self.rows(), u),
            ),
            notify: strs(self.notification@).to_set(),
        }
    }

    /// The relational tables hold any contents.
    open spec fn holds(v: StoreView) -> bool {
        true
    }

    proof fn lemma_store_wf(&self) {
        let v = self.store();
        assert forall|u: Seq<char>| v.subs.dom().contains(u) implies row_users(
            self.rows(),
        ).to_set().contains(u) by {
            lemma_pkgs_nonempty(self.rows(), u);
        }
        assert(v.subs.dom().subset_of(row_users(self.rows()).to_set()));
        vstd::set_lib::lemma_set_subset_finite(row_users(self.rows()).to_set(), v.subs.dom());
        vstd::seq_lib::seq_to_set_is_finite(strs(self.notification@));
        vstd::seq_lib::seq_to_set_is_finite(row_users(self.rows()));
    }

    fn new() -> (r: Self) {
        let r = SqliteDatabase { subscription: Vec::new(), notification: Vec::new() };
        proof {
            assert(r.store().subs =~= Map::empty());
            assert(r.store().notify =~= Set::empty());
        }
        r
    }

    fn get_packages(&self, user_id: &str) -> (r: Vec<String>) {
        let ghost rows = self.rows();
        let mut out: Vec<String> = Vec::new();
        let mut i: usize = 0;
        while i < self.subscription.len()
            invariant
                i <= rows.len(),
                rows == self.rows(),
                rows.len() == self.subscription@.len(),
                strs(out@) == pkgs_of(rows.take(i as int), user_id@),
            decreases rows.len() - i,
        {
            let row = &self.subscription[i];
            proof {
                let t = rows.take(i + 1);
                assert(t.drop_last() =~= rows.take(i as int));
                assert(t.last() == (row.0@, row.1@));
            }
            if str_eq(row.0.as_str(), user_id) {
                out.push(row.1.clone());
                proof {
                    assert(strs(out@) =~= pkgs_of(rows.take(i + 1), user_id@));
                }
            }
            i = i + 1;
        }
        proof {
            assert(rows.take(i as int) =~= rows);
        }
        out
    }

    fn subscribe(&mut self, user_id: &str, packages: Vec<String>) -> (r: Result<(), StoreError>) {
        let ghost u = user_id@;
        let ghost ps = strs(packages@);
        let ghost old_rows = self.rows();
        let ghost start = pkgs_of(old_rows, u);
        let mut j: usize = 0;
        while j < packages.len()
            invariant
                j <= packages@.len(),
                ps == strs(packages@),
                self.notification == old(self).notification,
                forall|w: Seq<char>| #[trigger]
                    pkgs_of(self.rows(), w) == if w == u {
                        add_all(start, ps.take(j as int))
                    } else {
                        pkgs_of(old_rows, w)
                    },
                old(self).inv(),
                old_rows == old(self).rows(),
                u == user_id@,
                start == pkgs_of(old_rows, u),
            decreases packages@.len() - j,
        {
            let p = &packages[j];
            let present = self.has_row(user_id, p.as_str());
            let ghost before = self.rows();
            proof {
                assert(ps.take(j + 1).drop_last() =~= ps.take(j as int));
                assert(ps.take(j + 1).last() == p@);
            }
            if !present {
                self.subscription.push((user_id.to_owned(), p.clone()));
                proof {
                    let rows = self.rows();
                    assert(rows =~= before.push((u, p@)));
                    assert(rows.drop_last() =~= before);
                    assert forall|w: Seq<char>| #[trigger]
                        pkgs_of(self.rows(), w) == if w == u {
                            add_all(start, ps.take(j + 1))
                        } else {
                            pkgs_of(old_rows, w)
                        } by {
                        assert(pkgs_of(rows, w) == if w == u {
                            pkgs_of(before, w).push(p@)
                        } else {
                            pkgs_of(before, w)
                        });
                    }
                }
            } else {
                proof {
                    assert forall|w: Seq<char>| #[trigger]
                        pkgs_of(self.rows(), w) == if w == u {
                            add_all(start, ps.take(j + 1))
                        } else {
                            pkgs_of(old_rows, w)
                        } by {
                        if w == u {
                            assert(pkgs_of(self.rows(), w) == add_all(start, ps.take(j as int)));
                        }
                    }
                }
            }
            j = j + 1;
        }
        proof {
            assert(ps.take(j as int) =~= ps);
            lemma_add_all(start, ps);
            assert(start.no_duplicates());
            let nv = self.store();
            let expect = subscribe_spec(old(self).store(), u, ps);
            if old(self).store().subs.contains_key(u) {
                assert(packages_of(old(self).store(), u) == start);
            } else {
                assert(start =~= Seq::<Seq<char>>::empty());
                assert(packages_of(old(self).store(), u) == start);
            }
            assert(nv.subs =~= expect.subs);
            assert(nv.notify =~= expect.notify);
        }
        Ok(())
    }

    fn unsubscribe(&mut self, user_id: &str, packages: Vec<String>) -> (r: Result<(), StoreError>) {
        let ghost u = user_id@;
        let ghost ps = strs(packages@);
        let ghost old_rows = self.rows();
        let mut kept: Vec<(String, String)> = Vec::new();
        let mut i: usize = 0;
        while i < self.subscription.len()
            invariant
                i <= old_rows.len(),
                old_rows == self.rows(),
                old_rows.len() == self.subscription@.len(),
                self == old(self),
                ps == strs(packages@),
                u == user_id@,
                forall|w: Seq<char>| #[trigger]
                    pkgs_of(rows_view(kept@), w) == if w == u {
                        remove_all(pkgs_of(old_rows.take(i as int), u), ps)
                    } else {
                        pkgs_of(old_rows.take(i as int), w)
                    },
            decreases old_rows.len() - i,
        {
            let row = &self.subscription[i];
            let drop = str_eq(row.0.as_str(), user_id) && contains_str(packages.as_slice(), row.1.as_str());
            let ghost before = rows_view(kept@);
            proof {
                let t = old_rows.take(i + 1);
                assert(t.drop_last() =~= old_rows.take(i as int));
                assert(t.last() == (row.0@, row.1@));
                let l = pkgs_of(old_rows.take(i as int), u);
                assert(l.push(row.1@).drop_last() =~= l);
            }
            if !drop {
                kept.push((row.0.clone(), row.1.clone()));
                proof {
                    let now = rows_view(kept@);
                    assert(now =~= before.push((row.0@, row.1@)));
                    assert(now.drop_last() =~= before);
                    assert forall|w: Seq<char>| #[trigger]
                        pkgs_of(rows_view(kept@), w) == if w == u {
                            remove_all(pkgs_of(old_rows.take(i + 1), u), ps)
                        } else {
                            pkgs_of(old_rows.take(i + 1), w)
                        } by {
                        assert(pkgs_of(now, w) == if row.0@ == w {
                            pkgs_of(before, w).push(row.1@)
                        } else {
                            pkgs_of(before, w)
                        });
                        assert(pkgs_of(old_rows.take(i + 1), w) == if row.0@ == w {
                            pkgs_of(old_rows.take(i as int), w).push(row.1@)
                        } else {
                            pkgs_of(old_rows.take(i as int), w)
                        });
                        if w == u && row.0@ == u {
                            let l = pkgs_of(old_rows.take(i as int), u);
                            assert(l.push(row.1@).last() == row.1@);
                            assert(remove_all(l.push(row.1@), ps) == remove_all(l, ps).push(
                                row.1@,
                            ));
                        }
                    }
                }
            } else {
                proof {
                    assert forall|w: Seq<char>| #[trigger]
                        pkgs_of(rows_view(kept@), w) == if w == u {
                            remove_all(pkgs_of(old_rows.take(i + 1), u), ps)
                        } else {
                            pkgs_of(old_rows.take(i + 1), w)
                        } by {
                        assert(pkgs_of(old_rows.take(i + 1), w) == if row.0@ == w {
                            pkgs_of(old_rows.take(i as int), w).push(row.1@)
                        } else {
                            pkgs_of(old_rows.take(i as int), w)
                        });
                        if w == u {
                            let l = pkgs_of(old_rows.take(i as int), u);
                            assert(l.push(row.1@).last() == row.1@);
                            assert(remove_all(l.push(row.1@), ps) == remove_all(l, ps));
                        }
                    }
                }
            }
            i = i + 1;
        }
        self.subscription = kept;
        proof {
            assert(old_rows.take(i as int) =~= old_rows);
            let start = pkgs_of(old_rows, u);
            lemma_remove_all(start, ps);
            assert(old(self).inv());
            assert(start.no_duplicates());
            assert forall|w: Seq<char>| #[trigger] pkgs_of(self.rows(), w).no_duplicates() by {
                assert(pkgs_of(old_rows, w).no_duplicates());
            }
            let nv = self.store();
            let expect = unsubscribe_spec(old(self).store(), u, ps);
            if old(self).store().subs.contains_key(u) {
                assert(packages_of(old(self).store(), u) == start);
            } else {
                assert(start =~= Seq::<Seq<char>>::empty());
                assert(packages_of(old(self).store(), u) == start);
            }
            assert(nv.subs =~= expect.subs);
            assert(nv.notify =~= expect.notify);
        }
        Ok(())
    }

    fn is_notification_enabled(&self, user_id: &str) -> (r: bool) {
        contains_str(self.notification.as_slice(), user_id)
    }

    fn enable_notification(&mut self, user_id: &str) -> (r: Result<(), StoreError>) {
        if !contains_str(self.notification.as_slice(), user_id) {
            let ghost before = strs(self.notification@);
            self.notification.push(user_id.to_owned());
            proof {
                assert(strs(self.notification@) =~= before.push(user_id@));
                lemma_push_no_duplicates(before, user_id@);
                assert forall|x: Seq<char>| strs(self.notification@).to_set().contains(x)
                    <==> before.to_set().insert(user_id@).contains(x) by {
                    lemma_push_contains(before, user_id@, x);
                }
                assert(strs(self.notification@).to_set() =~= before.to_set().insert(user_id@));
            }
        } else {
            proof {
                assert(strs(self.notification@).to_set().insert(user_id@) =~= strs(
                    self.notification@,
                ).to_set());
            }
        }
        proof {
            assert(self.store().subs =~= old(self).store().subs);
        }
        Ok(())
    }

    fn disable_notification(&mut self, user_id: &str) -> (r: Result<(), StoreError>) {
        let ghost o = strs(self.notification@);
        let mut kept: Vec<String> = Vec::new();
        let mut i: usize = 0;
        while i < self.notification.len()
            invariant
                i <= o.len(),
                o == strs(self.notification@),
                self == old(self),
                o.no_duplicates(),
                strs(kept@).no_duplicates(),
                forall|x: Seq<char>| #[trigger]
                    strs(kept@).contains(x) <==> (o.take(i as int).contains(x) && x != user_id@),
            decreases o.len() - i,
        {
            let n = &self.notification[i];
            let ghost before = strs(kept@);
            proof {
                assert(o.take(i + 1) =~= o.take(i as int).push(n@));
            }
            if !str_eq(n.as_str(), user_id) {
                kept.push(n.clone());
                proof {
                    assert(strs(kept@) =~= before.push(n@));
                    if before.contains(n@) {
                        let k = choose|k: int| 0 <= k < o.take(i as int).len() && o.take(
                            i as int,
                        )[k] == n@;
                        assert(o[k] == o[i as int]);
                    }
                    lemma_push_no_duplicates(before, n@);
                    assert forall|x: Seq<char>| #[trigger]
                        strs(kept@).contains(x) <==> (o.take(i + 1).contains(x) && x
                            != user_id@) by {
                        lemma_push_contains(before, n@, x);
                        lemma_push_contains(o.take(i as int), n@, x);
                    }
                }
            } else {
                proof {
                    assert forall|x: Seq<char>| #[trigger]
                        strs(kept@).contains(x) <==> (o.take(i + 1).contains(x) && x
                            != user_id@) by {
                        lemma_push_contains(o.take(i as int), n@, x);
                    }
                }
            }
            i = i + 1;
        }
        self.notification = kept;
        proof {
            assert(o.take(i as int) =~= o);
            assert(self.store().notify =~= old(self).store().notify.remove(user_id@));
            assert(self.store().subs =~= old(self).store().subs);
        }
        Ok(())
    }

    fn notification_targets(&self) -> (r: Vec<String>) {
        let ghost o = strs(self.notification@);
        let mut out: Vec<String> = Vec::new();
        let mut i: usize = 0;
        proof {
            assert(strs(out@) =~= Seq::<Seq<char>>::empty());
            assert(strs(out@).to_set() =~= o.take(0).to_set());
        }
        while i < self.notification.len()
            invariant
                i <= o.len(),
                o == strs(self.notification@),
                strictly_sorted(strs(out@)),
                strs(out@).to_set() == o.take(i as int).to_set(),
            decreases o.len() - i,
        {
            insert_sorted(&mut out, self.notification[i].as_str());
            proof {
                assert(o.take(i + 1) =~= o.take(i as int).push(o[i as int]));
                assert forall|x: Seq<char>| o.take(i + 1).to_set().contains(x)
                    <== o.take(i as int).to_set().insert(o[i as int]).contains(x) by {
                    lemma_push_contains(o.take(i as int), o[i as int], x);
                }
                assert forall|x: Seq<char>| o.take(i + 1).to_set().contains(x)
                    ==> o.take(i as int).to_set().insert(o[i as int]).contains(x) by {
                    lemma_push_contains(o.take(i as int), o[i as int], x);
                }
                assert(o.take(i + 1).to_set() =~= o.take(i as int).to_set().insert(o[i as int]));
            }
            i = i + 1;
        }
        proof {
            assert(o.take(i as int) =~= o);
        }
        out
    }

    fn users(&self) -> (r: Vec<String>) {
        let ghost rows = self.rows();
        let ghost o = strs(self.notification@);
        let mut out: Vec<String> = Vec::new();
        proof {
            assert(strs(out@) =~= Seq::<Seq<char>>::empty());
            assert(strs(out@).to_set() =~= row_users(rows.take(0)).to_set());
        }
        let mut i: usize = 0;
        while i < self.subscription.len()
            invariant
                i <= rows.len(),
                rows == self.rows(),
                rows.len() == self.subscription@.len(),
                strictly_sorted(strs(out@)),
                strs(out@).to_set() == row_users(rows.take(i as int)).to_set(),
            decreases rows.len() - i,
        {
            insert_sorted(&mut out, self.subscription[i].0.as_str());
            proof {
                let a = row_users(rows.take(i as int));
                assert(row_users(rows.take(i + 1)) =~= a.push(rows[i as int].0));
                assert forall|x: Seq<char>| row_users(rows.take(i + 1)).to_set().contains(x)
                    == a.to_set().insert(rows[i as int].0).contains(x) by {
                    lemma_push_contains(a, rows[i as int].0, x);
                }
                assert(row_users(rows.take(i + 1)).to_set() =~= a.to_set().insert(
                    rows[i as int].0,
                ));
            }
            i = i + 1;
        }
        proof {
            assert(rows.take(i as int) =~= rows);
        }
        let mut k: usize = 0;
        while k < self.notification.len()
            invariant
                k <= o.len(),
                o == strs(self.notification@),
                rows == self.rows(),
                strictly_sorted(strs(out@)),
                strs(out@).to_set() == row_users(rows).to_set().union(o.take(k as int).to_set()),
            decreases o.len() - k,
        {
            insert_sorted(&mut out, self.notification[k].as_str());
            proof {
                assert(o.take(k + 1) =~= o.take(k as int).push(o[k as int]));
                assert forall|x: Seq<char>| o.take(k + 1).to_set().contains(x) == o.take(
                    k as int,
                ).to_set().insert(o[k as int]).contains(x) by {
                    lemma_push_contains(o.take(k as int), o[k as int], x);
                }
                assert(o.take(k + 1).to_set() =~= o.take(k as int).to_set().insert(o[k as int]));
                assert(strs(out@).to_set() =~= row_users(rows).to_set().union(
                    o.take(k + 1).to_set(),
                ));
            }
            k = k + 1;
        }
        proof {
            assert(o.take(k as int) =~= o);
            assert forall|x: Seq<char>| self.store().subs.dom().contains(x) == row_users(
                rows,
            ).to_set().contains(x) by {
                lemma_pkgs_nonempty(rows, x);
            }
            assert(known_users(self.store()) =~= strs(out@).to_set());
        }
        out
    }
}

} // verus!

//! Package update records, snapshots, and the diff engine.
use vstd::prelude::*;

use crate::text::{contains_str, copy_strings, strings_eq, strs};

verus! {

/// One record of the update feed: a package and its detected version transition.
#[derive(Debug, Clone)]
pub struct Package {
    pub name: String,
    pub before: String,
    pub after: String,
    pub path: String,
    pub warnings: Vec<String>,
}

/// What a `Package` holds, as plain sequences.
pub struct PackageView {
    pub name: Seq<char>,
    pub before: Seq<char>,
    pub after: Seq<char>,
    pub path: Seq<char>,
    pub warnings: Seq<Seq<char>>,
}

impl View for Package {
    type V = PackageView;

    open spec fn view(&self) -> PackageView {
        PackageView {
            name: self.name@,
            before: self.before@,
            after: self.after@,
            path: self.path@,
            warnings: strs(self.warnings@),
        }
    }
}

/// The views of a sequence of packages.
pub open spec fn packages_view(v: Seq<Package>) -> Seq<PackageView> {
    v.map_values(|p: Package| p@)
}

impl Package {
    /// A copy of this record with the same contents.
    pub fn duplicate(&self) -> (r: Package)
        ensures
            r@ == self@,
    {
        Package {
            name: self.name.clone(),
            before: self.before.clone(),
            after: self.after.clone(),
            path: self.path.clone(),
            warnings: copy_strings(self.warnings.as_slice()),
        }
    }

    /// Whether two records agree on every field.
    pub fn same_as(&self, other: &Package) -> (r: bool)
        ensures
            r == (self@ == other@),
    {
        self.name == other.name && self.before == other.before && self.after == other.after
            && self.path == other.path && strings_eq(&self.warnings, &other.warnings)
    }
}

impl PartialEq for Package {
    fn eq(&self, other: &Package) -> (r: bool)
        ensures
            r == (self@ == other@),
    {
        self.same_as(other)
    }
}

impl vstd::std_specs::cmp::PartialEqSpecImpl for Package {
    open spec fn obeys_eq_spec() -> bool {
        true
    }

    open spec fn eq_spec(&self, other: &Package) -> bool {
        self@ == other@
    }
}

impl Eq for Package {
}

/// A full snapshot of the feed: every record it currently reports.
#[derive(Debug)]
pub struct Anicca(pub Vec<Package>);

impl View for Anicca {
    type V = Seq<PackageView>;

    open spec fn view(&self) -> Seq<PackageView> {
        packages_view(self.0@)
    }
}

/// The records of `current` that do not occur, with all fields equal, in `previous`.
pub open spec fn diff_spec(current: Seq<PackageView>, previous: Seq<PackageView>) -> Seq<
    PackageView,
> {
    current.filter(|p: PackageView| !previous.contains(p))
}

/// The records of `data` whose name is one of `names`, in their order in `data`.
pub open spec fn updates_spec(data: Seq<PackageView>, names: Seq<Seq<char>>) -> Seq<PackageView> {
    data.filter(|p: PackageView| names.contains(p.name))
}

/// Whether `v` holds a record equal to `p`.
fn contains_package(v: &Vec<Package>, p: &Package) -> (r: bool)
    ensures
        r == packages_view(v@).contains(p@),
{
    let mut i: usize = 0;
    while i < v.len()
        invariant
            i <= v@.len(),
            forall|k: int| 0 <= k < i ==> v@[k]@ != p@,
        decreases v@.len() - i,
    {
        if v[i].same_as(p) {
            proof {
                assert(packages_view(v@)[i as int] == p@);
            }
            return true;
        }
        i = i + 1;
    }
    false
}

impl Anicca {
    /// The records of `data` that concern one of the `packages`, in snapshot order.
    pub fn get_updates(data: &Self, packages: &[String]) -> (r: Vec<Package>)
        ensures
            packages_view(r@) == updates_spec(data@, strs(packages@)),
    {
        let ghost names = strs(packages@);
        let ghost pred = |p: PackageView| names.contains(p.name);
        let mut out: Vec<Package> = Vec::new();
        let mut i: usize = 0;
        while i < data.0.len()
            invariant
                i <= data.0@.len(),
                names == strs(packages@),
                pred == (|p: PackageView| names.contains(p.name)),
                packages_view(out@) == data@.take(i as int).filter(pred),
            decreases data.0@.len() - i,
        {
            let pkg = &data.0[i];
            let keep = contains_str(packages, pkg.name.as_str());
            proof {
                reveal(Seq::filter);
                let s = data@.take(i + 1);
                assert(s.drop_last() =~= data@.take(i as int));
                assert(s.last() == pkg@);
            }
            if keep {
                out.push(pkg.duplicate());
                proof {
                    assert(packages_view(out@) =~= packages_view(out@).drop_last().push(pkg@));
                    assert(packages_view(out@).drop_last() =~= data@.take(i as int).filter(pred));
                }
            }
            i = i + 1;
        }
        proof {
            assert(data@.take(data.0@.len() as int) =~= data@);
        }
        out
    }

    /// The records of this snapshot that concern one of the `packages`.
    pub fn get_subscription_updates(&self, packages: &[String]) -> (r: Vec<Package>)
        ensures
            packages_view(r@) == updates_spec(self@, strs(packages@)),
    {
        Self::get_updates(self, packages)
    }

    /// Every record of this snapshot that `past_data` does not hold with all
    /// fields equal, in snapshot order.
    pub fn diff(&self, past_data: &Self) -> (r: Self)
        ensures
            r@ == diff_spec(self@, past_data@),
    {
        let ghost prev = past_data@;
        let ghost pred = |p: PackageView| !prev.contains(p);
        let mut out: Vec<Package> = Vec::new();
        let mut i: usize = 0;
        while i < self.0.len()
            invariant
                i <= self.0@.len(),
                prev == past_data@,
                pred == (|p: PackageView| !prev.contains(p)),
                packages_view(out@) == self@.take(i as int).filter(pred),
            decreases self.0@.len() - i,
        {
            let pkg = &self.0[i];
            let seen = contains_package(&past_data.0, pkg);
            proof {
                reveal(Seq::filter);
                let s = self@.take(i + 1);
                assert(s.drop_last() =~= self@.take(i as int));
                assert(s.last() == pkg@);
            }
            if !seen {
                out.push(pkg.duplicate());
                proof {
                    assert(packages_view(out@) =~= packages_view(out@).drop_last().push(pkg@));
                    assert(packages_view(out@).drop_last() =~= self@.take(i as int).filter(pred));
                }
            }
            i = i + 1;
        }
        proof {
            assert(self@.take(self.0@.len() as int) =~= self@);
        }
        Anicca(out)
    }
}

impl Anicca {
    /// The diff snapshot to store after fetching `self`: the records that are
    /// new since `previous`, or, on the first fetch, all of `self`.
    pub fn next_diff(&self, previous: Option<&Self>) -> (r: Self)
        ensures
            r@ == match previous {
                Some(p) => diff_spec(self@, p@),
                None => self@,
            },
    {
        match previous {
            Some(p) => self.diff(p),
            None => {
                let mut out: Vec<Package> = Vec::new();
                let mut i: usize = 0;
                while i < self.0.len()
                    invariant
                        i <= self.0@.len(),
                        packages_view(out@) == self@.take(i as int),
                    decreases self.0@.len() - i,
                {
                    let ghost before = packages_view(out@);
                    out.push(self.0[i].duplicate());
                    proof {
                        assert(packages_view(out@) =~= before.push(self@[i as int]));
                        assert(self@.take(i + 1) =~= self@.take(i as int).push(self@[i as int]));
                    }
                    i = i + 1;
                }
                proof {
                    assert(self@.take(i as int) =~= self@);
                }
                Anicca(out)
            },
        }
    }
}

/// The diff engine's laws: a snapshot has no change against itself; against
/// an empty snapshot every record is a change; and every change is a record of
/// the current snapshot that the previous one does not hold.
pub proof fn lemma_diff_laws(a: Seq<PackageView>, b: Seq<PackageView>)
    ensures
        diff_spec(a, a).len() == 0,
        diff_spec(a, Seq::empty()) == a,
        forall|x: PackageView| #[trigger]
            diff_spec(a, b).contains(x) ==> a.contains(x) && !b.contains(x),
{
    broadcast use vstd::seq_lib::group_filter_ensures;
    broadcast use vstd::seq::Seq::lemma_filter_contains_rev;

    let d = diff_spec(a, a);
    if d.len() > 0 {
        assert(d.contains(d[0]));
        assert(!a.contains(d[0]));
    }
    lemma_diff_empty(a);
    assert forall|x: PackageView| #[trigger] diff_spec(a, b).contains(x) implies a.contains(x)
        && !b.contains(x) by {
        let e = diff_spec(a, b);
        let k = choose|k: int| 0 <= k < e.len() && e[k] == x;
        assert(!b.contains(e[k]));
    }
}

proof fn lemma_diff_empty(a: Seq<PackageView>)
    ensures
        diff_spec(a, Seq::empty()) == a,
    decreases a.len(),
{
    reveal(Seq::filter);
    if a.len() > 0 {
        lemma_diff_empty(a.drop_last());
        assert(!Seq::<PackageView>::empty().contains(a.last()));
        assert(a.drop_last().push(a.last()) =~= a);
    } else {
        assert(diff_spec(a, Seq::empty()) =~= a);
    }
}

/// A fetch that changes one record of the previous snapshot into a record
/// that snapshot did not hold yields a diff of exactly that record.
pub proof fn lemma_one_changed_record(previous: Seq<PackageView>, i: int, x: PackageView)
    requires
        0 <= i < previous.len(),
        !previous.contains(x),
    ensures
        diff_spec(previous.update(i, x), previous) == seq![x],
{
    let s = previous.update(i, x);
    assert forall|k: int| 0 <= k < s.len() && k != i implies previous.contains(#[trigger] s[k]) by {
        assert(s[k] == previous[k]);
    }
    lemma_only_one_new(s, previous, i);
}

proof fn lemma_only_one_new(s: Seq<PackageView>, prev: Seq<PackageView>, j: int)
    requires
        0 <= j < s.len(),
        !prev.contains(s[j]),
        forall|k: int| 0 <= k < s.len() && k != j ==> prev.contains(#[trigger] s[k]),
    ensures
        diff_spec(s, prev) == seq![s[j]],
    decreases s.len(),
{
    reveal(Seq::filter);
    let d = s.drop_last();
    if j == s.len() - 1 {
        lemma_none_new(d, prev);
        assert(diff_spec(s, prev) =~= seq![s[j]]);
    } else {
        assert forall|k: int| 0 <= k < d.len() && k != j implies prev.contains(#[trigger] d[k]) by {
            assert(d[k] == s[k]);
        }
        lemma_only_one_new(d, prev, j);
        assert(prev.contains(s[s.len() - 1]));
        assert(diff_spec(s, prev) == diff_spec(d, prev));
    }
}

proof fn lemma_none_new(s: Seq<PackageView>, prev: Seq<PackageView>)
    requires
        forall|k: int| 0 <= k < s.len() ==> prev.contains(#[trigger] s[k]),
    ensures
        diff_spec(s, prev) == Seq::<PackageView>::empty(),
    decreases s.len(),
{
    reveal(Seq::filter);
    if s.len() > 0 {
        let d = s.drop_last();
        assert forall|k: int| 0 <= k < d.len() implies prev.contains(#[trigger] d[k]) by {
            assert(d[k] == s[k]);
        }
        lemma_none_new(d, prev);
        assert(prev.contains(s[s.len() - 1]));
    } else {
        assert(diff_spec(s, prev) =~= Seq::<PackageView>::empty());
    }
}

} // verus!

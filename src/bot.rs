//! Update reports: ordering a user's updates and rendering them as plain and
//! marked-up text.
use vstd::prelude::*;

use crate::anicca::{packages_view, updates_spec, Anicca, Package, PackageView};
use crate::db::{lists_sorted, packages_of, Database, StoreView};
use crate::text::{decimal, decimal_string, lemma_sorted_unique, lex_lt, str_lt, strs};

verus! {

/// `sorted` with `p` inserted after every record whose name is not greater than `p`'s.
pub open spec fn insert_by_name(sorted: Seq<PackageView>, p: PackageView) -> Seq<PackageView>
    decreases sorted.len(),
{
    if sorted.len() == 0 {
        seq![p]
    } else if lex_lt(p.name, sorted.last().name) {
        insert_by_name(sorted.drop_last(), p).push(sorted.last())
    } else {
        sorted.push(p)
    }
}

/// `s` in ascending order of name; records with equal names keep their order.
pub open spec fn sort_by_name(s: Seq<PackageView>) -> Seq<PackageView>
    decreases s.len(),
{
    if s.len() == 0 {
        s
    } else {
        insert_by_name(sort_by_name(s.drop_last()), s.last())
    }
}

/// The second warning of a record in parentheses, after a space; nothing when
/// the record has fewer than two warnings.
pub open spec fn warning_note(p: PackageView) -> Seq<char> {
    if p.warnings.len() > 1 {
        " ("@ + p.warnings[1] + ")"@
    } else {
        Seq::empty()
    }
}

/// `name: before -> after`.
pub open spec fn update_line(p: PackageView) -> Seq<char> {
    p.name + ": "@ + p.before + " -> "@ + p.after
}

/// One list item per record, marked up.
pub open spec fn html_items(s: Seq<PackageView>) -> Seq<char>
    decreases s.len(),
{
    if s.len() == 0 {
        Seq::empty()
    } else {
        html_items(s.drop_last()) + "<li><code>"@ + update_line(s.last()) + "</code>"@
            + warning_note(s.last()) + "</li>"@
    }
}

/// One line per record, as plain text.
pub open spec fn plain_items(s: Seq<PackageView>) -> Seq<char>
    decreases s.len(),
{
    if s.len() == 0 {
        Seq::empty()
    } else {
        plain_items(s.drop_last()) + "- "@ + update_line(s.last()) + warning_note(s.last())
            + "\n"@
    }
}

/// `Found N update`, with a plural `s` from two on.
pub open spec fn found_header(n: nat) -> Seq<char> {
    "Found "@ + decimal(n) + " update"@ + if n >= 2 {
        "s"@
    } else {
        Seq::empty()
    }
}

/// The marked-up report of the records `s`, in the order given.
pub open spec fn updates_html(s: Seq<PackageView>) -> Seq<char> {
    "<strong>"@ + found_header(s.len()) + "</strong><br/><ul>"@ + html_items(s) + "</ul>"@
}

/// The plain-text report of the records `s`, in the order given.
pub open spec fn updates_plain(s: Seq<PackageView>) -> Seq<char> {
    found_header(s.len()) + ": \n"@ + plain_items(s)
}

fn insert_package(out: &mut Vec<Package>, p: Package)
    ensures
        packages_view(final(out)@) == insert_by_name(packages_view(old(out)@), p@),
{
    let ghost v = packages_view(out@);
    let mut j: usize = out.len();
    proof {
        assert(v.take(j as int) =~= v);
        assert(insert_by_name(v, p@) =~= insert_by_name(v.take(j as int), p@) + v.skip(
            j as int,
        ));
    }
    while j > 0 && str_lt(p.name.as_str(), out[j - 1].name.as_str())
        invariant
            j <= out@.len(),
            v == packages_view(out@),
            insert_by_name(v, p@) == insert_by_name(v.take(j as int), p@) + v.skip(j as int),
        decreases j,
    {
        proof {
            let t = v.take(j as int);
            assert(t.drop_last() =~= v.take(j - 1));
            assert(t.last() == v[j - 1]);
            assert(insert_by_name(t, p@) == insert_by_name(v.take(j - 1), p@).push(v[j - 1]));
            assert(insert_by_name(v.take(j - 1), p@).push(v[j - 1]) + v.skip(j as int)
                =~= insert_by_name(v.take(j - 1), p@) + v.skip(j - 1));
        }
        j = j - 1;
    }
    proof {
        let t = v.take(j as int);
        if j > 0 {
            assert(t.last() == v[j - 1]);
            assert(insert_by_name(t, p@) == t.push(p@));
        } else {
            assert(insert_by_name(t, p@) == seq![p@]);
            assert(t.push(p@) =~= seq![p@]);
        }
    }
    let ghost pv = p@;
    out.insert(j, p);
    proof {
        assert(packages_view(out@) =~= v.take(j as int).push(pv) + v.skip(j as int));
    }
}

/// Appends to `out` the text of one record, marked up or plain.
fn append_item(out: &mut String, p: &Package, html: bool)
    ensures
        final(out)@ == old(out)@ + if html {
            "<li><code>"@ + update_line(p@) + "</code>"@ + warning_note(p@) + "</li>"@
        } else {
            "- "@ + update_line(p@) + warning_note(p@) + "\n"@
        },
{
    let ghost start = out@;
    if html {
        out.append("<li><code>");
    } else {
        out.append("- ");
    }
    out.append(p.name.as_str());
    out.append(": ");
    out.append(p.before.as_str());
    out.append(" -> ");
    out.append(p.after.as_str());
    if html {
        out.append("</code>");
    }
    let ghost mid = out@;
    if p.warnings.len() > 1 {
        out.append(" (");
        out.append(p.warnings[1].as_str());
        out.append(")");
    }
    proof {
        assert(out@ =~= mid + warning_note(p@));
    }
    if html {
        out.append("</li>");
    } else {
        out.append("\n");
    }
    proof {
        if html {
            assert(out@ =~= start + ("<li><code>"@ + update_line(p@) + "</code>"@ + warning_note(
                p@,
            ) + "</li>"@));
        } else {
            assert(out@ =~= start + ("- "@ + update_line(p@) + warning_note(p@) + "\n"@));
        }
    }
}

/// Sorts `packages` by name and renders them: the plain-text report first,
/// then the marked-up one, both from the same sorted records.
pub fn format_update_packages(packages: &mut Vec<Package>) -> (r: (String, String))
    ensures
        packages_view(final(packages)@) == sort_by_name(packages_view(old(packages)@)),
        r.0@ == updates_plain(packages_view(final(packages)@)),
        r.1@ == updates_html(packages_view(final(packages)@)),
{
    let ghost input = packages_view(packages@);
    let mut sorted: Vec<Package> = Vec::new();
    let mut i: usize = 0;
    proof {
        assert(input.take(0) =~= Seq::<PackageView>::empty());
    }
    while i < packages.len()
        invariant
            i <= input.len(),
            input == packages_view(packages@),
            packages_view(sorted@) == sort_by_name(input.take(i as int)),
        decreases input.len() - i,
    {
        proof {
            assert(input.take(i + 1).drop_last() =~= input.take(i as int));
            assert(input.take(i + 1).last() == packages@[i as int]@);
        }
        insert_package(&mut sorted, packages[i].duplicate());
        i = i + 1;
    }
    proof {
        assert(input.take(i as int) =~= input);
    }
    *packages = sorted;
    let ghost s = packages_view(packages@);
    let n = packages.len();
    let mut header = String::from_str("Found ");
    header.append(decimal_string(n).as_str());
    header.append(" update");
    if n >= 2 {
        header.append("s");
    }
    proof {
        if n >= 2 {
            assert(header@ =~= found_header(n as nat));
        } else {
            assert(header@ =~= found_header(n as nat));
        }
    }
    let mut html_list = String::new();
    let mut plain_list = String::new();
    let mut k: usize = 0;
    proof {
        assert(s.take(0) =~= Seq::<PackageView>::empty());
        assert(html_list@ =~= html_items(s.take(0)));
        assert(plain_list@ =~= plain_items(s.take(0)));
    }
    while k < packages.len()
        invariant
            k <= s.len(),
            s == packages_view(packages@),
            html_list@ == html_items(s.take(k as int)),
            plain_list@ == plain_items(s.take(k as int)),
        decreases s.len() - k,
    {
        proof {
            assert(s.take(k + 1).drop_last() =~= s.take(k as int));
            assert(s.take(k + 1).last() == packages@[k as int]@);
        }
        append_item(&mut html_list, &packages[k], true);
        append_item(&mut plain_list, &packages[k], false);
        proof {
            assert(html_list@ =~= html_items(s.take(k + 1)));
            assert(plain_list@ =~= plain_items(s.take(k + 1)));
        }
        k = k + 1;
    }
    proof {
        assert(s.take(k as int) =~= s);
    }
    let mut html = String::from_str("<strong>");
    html.append(header.as_str());
    html.append("</strong><br/><ul>");
    html.append(html_list.as_str());
    html.append("</ul>");
    let mut plain = header;
    plain.append(": \n");
    plain.append(plain_list.as_str());
    proof {
        assert(html@ =~= updates_html(s));
        assert(plain@ =~= updates_plain(s));
    }
    (plain, html)
}

/// The scheduled message for a user subscribed to `packages`: plain text and
/// markup, or `None` when `diff` holds no update for them.
pub open spec fn notice_for(diff: Seq<PackageView>, packages: Seq<Seq<char>>) -> Option<
    (Seq<char>, Seq<char>),
> {
    let ups = sort_by_name(updates_spec(diff, packages));
    if ups.len() == 0 {
        None
    } else {
        Some(
            (
                "(Hourly Notification)\n"@ + updates_plain(ups),
                "(Hourly Notification)<br/>"@ + updates_html(ups),
            ),
        )
    }
}

/// The scheduled message for a user subscribed to `packages`, or `None` when
/// the diff snapshot holds no update for them.
pub fn notification_for(diff: &Anicca, packages: &[String]) -> (r: Option<(String, String)>)
    ensures
        match r {
            Some((plain, html)) => notice_for(diff@, strs(packages@)) == Some((plain@, html@)),
            None => notice_for(diff@, strs(packages@)) is None,
        },
{
    let mut updates = diff.get_subscription_updates(packages);
    if updates.len() == 0 {
        return None;
    }
    let (plain_updates, html_updates) = format_update_packages(&mut updates);
    let mut plain = String::from_str("(Hourly Notification)\n");
    plain.append(plain_updates.as_str());
    let mut html = String::from_str("(Hourly Notification)<br/>");
    html.append(html_updates.as_str());
    Some((plain, html))
}

/// A scheduled message: the recipient, then the text as plain text and as markup.
pub type Notice = (String, String, String);

/// The messages for `targets` in order, one for each target that has updates.
pub open spec fn notices(
    targets: Seq<Seq<char>>,
    store: StoreView,
    diff: Seq<PackageView>,
) -> Seq<(Seq<char>, Seq<char>, Seq<char>)>
    decreases targets.len(),
{
    if targets.len() == 0 {
        Seq::empty()
    } else {
        let prev = notices(targets.drop_last(), store, diff);
        let u = targets.last();
        match notice_for(diff, packages_of(store, u)) {
            Some((plain, html)) => prev.push((u, plain, html)),
            None => prev,
        }
    }
}

/// The views of a sequence of messages.
pub open spec fn notices_view(v: Seq<Notice>) -> Seq<(Seq<char>, Seq<char>, Seq<char>)> {
    v.map_values(|n: Notice| (n.0@, n.1@, n.2@))
}

/// The scheduled messages of one round: for each user with notifications
/// enabled, in increasing order, the message reporting their updates in
/// `diff`; users without updates get none.
pub fn notify<D: Database>(db: &D, diff: &Anicca) -> (r: Vec<Notice>)
    requires
        db.inv(),
    ensures
        forall|targets: Seq<Seq<char>>|
            lists_sorted(targets, db.store().notify) ==> notices_view(r@) == notices(
                targets,
                db.store(),
                diff@,
            ),
{
    let targets = db.notification_targets();
    let ghost t = strs(targets@);
    let mut out: Vec<Notice> = Vec::new();
    let mut i: usize = 0;
    while i < targets.len()
        invariant
            i <= t.len(),
            t == strs(targets@),
            db.inv(),
            notices_view(out@) == notices(t.take(i as int), db.store(), diff@),
        decreases t.len() - i,
    {
        let user_id = targets[i].as_str();
        let packages = db.get_packages(user_id);
        let message = notification_for(diff, packages.as_slice());
        proof {
            assert(t.take(i + 1).drop_last() =~= t.take(i as int));
            assert(t.take(i + 1).last() == user_id@);
        }
        match message {
            Some((plain, html)) => {
                let ghost before = notices_view(out@);
                out.push((targets[i].clone(), plain, html));
                proof {
                    assert(notices_view(out@) =~= before.push((user_id@, plain@, html@)));
                }
            },
            None => {},
        }
        i = i + 1;
    }
    proof {
        assert(t.take(i as int) =~= t);
        assert forall|other: Seq<Seq<char>>| lists_sorted(other, db.store().notify) implies notices_view(out@)
            == notices(other, db.store(), diff@) by {
            lemma_sorted_unique(other, t);
        }
    }
    out
}

} // verus!

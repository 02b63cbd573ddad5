use anicca_subscribe::anicca::{Anicca, Package};
use anicca_subscribe::bot::format_update_packages;

fn pkg(name: &str, before: &str, after: &str, warnings: &[&str]) -> Package {
    Package {
        name: name.to_string(),
        before: before.to_string(),
        after: after.to_string(),
        path: format!("/{}", name),
        warnings: warnings.iter().map(|w| w.to_string()).collect(),
    }
}

fn sample() -> Anicca {
    Anicca(vec![pkg("abc", "1", "2", &[]), pkg("xyz", "3", "4", &["w0"]), pkg("def", "5", "6", &[])])
}

#[test]
fn diff_of_a_snapshot_with_itself_is_empty() {
    let a = sample();
    assert_eq!(a.diff(&sample()).0, Vec::<Package>::new());
}

#[test]
fn diff_against_empty_is_the_snapshot() {
    let a = sample();
    assert_eq!(a.diff(&Anicca(Vec::new())).0, sample().0);
}

#[test]
fn diff_keeps_changed_records_only() {
    let current = sample();
    let previous = Anicca(vec![pkg("abc", "1", "2", &[]), pkg("xyz", "3", "4", &[]), pkg("zzz", "0", "1", &[])]);
    let d = current.diff(&previous);
    assert_eq!(d.0, vec![pkg("xyz", "3", "4", &["w0"]), pkg("def", "5", "6", &[])]);
}

#[test]
fn diff_compares_every_field() {
    let mut moved = pkg("abc", "1", "2", &[]);
    moved.path = "/elsewhere".to_string();
    let current = Anicca(vec![moved.clone()]);
    let previous = Anicca(vec![pkg("abc", "1", "2", &[])]);
    assert_eq!(current.diff(&previous).0, vec![moved]);
}

#[test]
fn first_fetch_stores_the_snapshot_as_diff() {
    let fetched = sample();
    assert_eq!(fetched.next_diff(None).0, sample().0);
}

#[test]
fn second_fetch_reports_the_one_changed_record() {
    let first = sample();
    let mut records = sample().0;
    records[2] = pkg("def", "6", "7", &[]);
    let second = Anicca(records);
    assert_eq!(second.next_diff(Some(&first)).0, vec![pkg("def", "6", "7", &[])]);
}

#[test]
fn updates_are_filtered_by_subscription() {
    let data = sample();
    let wanted = vec!["def".to_string(), "abc".to_string(), "nope".to_string()];
    let ups = Anicca::get_updates(&data, &wanted);
    assert_eq!(ups, vec![pkg("abc", "1", "2", &[]), pkg("def", "5", "6", &[])]);
    assert_eq!(data.get_subscription_updates(&[]), Vec::<Package>::new());
}

#[test]
fn report_of_one_update() {
    let mut ups = vec![pkg("abc", "1", "2", &[])];
    let (plain, html) = format_update_packages(&mut ups);
    assert_eq!(plain, "Found 1 update: \n- abc: 1 -> 2\n");
    assert_eq!(html, "<strong>Found 1 update</strong><br/><ul><li><code>abc: 1 -> 2</code></li></ul>");
}

#[test]
fn report_sorts_by_name_and_shows_the_second_warning() {
    let mut ups = vec![pkg("zlib", "1.2", "1.3", &["first", "second"]), pkg("bash", "5.1", "5.2", &["only"])];
    let (plain, html) = format_update_packages(&mut ups);
    assert_eq!(ups[0].name, "bash");
    assert_eq!(plain, "Found 2 updates: \n- bash: 5.1 -> 5.2\n- zlib: 1.2 -> 1.3 (second)\n");
    assert_eq!(
        html,
        "<strong>Found 2 updates</strong><br/><ul><li><code>bash: 5.1 -> 5.2</code></li><li><code>zlib: 1.2 -> 1.3</code> (second)</li></ul>"
    );
}

#[test]
fn report_counts_in_decimal() {
    let mut ups: Vec<Package> = (0..12).map(|i| pkg(&format!("p{:02}", i), "0", "1", &[])).collect();
    ups.reverse();
    let (plain, _) = format_update_packages(&mut ups);
    assert!(plain.starts_with("Found 12 updates: \n- p00: 0 -> 1\n- p01: 0 -> 1\n"));
    assert_eq!(ups[11].name, "p11");
}

#[test]
fn report_keeps_order_of_equal_names() {
    let mut ups = vec![pkg("b", "1", "2", &[]), pkg("a", "9", "9", &[]), pkg("b", "0", "1", &[])];
    format_update_packages(&mut ups);
    assert_eq!(ups, vec![pkg("a", "9", "9", &[]), pkg("b", "1", "2", &[]), pkg("b", "0", "1", &[])]);
}

use anicca_subscribe::db::{replay, Database, StoreError, StoreOp};
use anicca_subscribe::keyvalue::RocksDbDatabase;
use anicca_subscribe::sqlite::SqliteDatabase;

const USER: &str = "@abc:example.com";

fn strings(items: &[&str]) -> Vec<String> {
    items.iter().map(|s| s.to_string()).collect()
}

fn check_subscribe<D: Database>() {
    let mut db = D::new();
    db.subscribe(USER, strings(&["abc", "xyz"])).unwrap();
    assert_eq!(db.get_packages(USER), strings(&["abc", "xyz"]));
    assert_eq!(db.users(), strings(&[USER]));
    db.unsubscribe(USER, strings(&["xyz"])).unwrap();
    assert_eq!(db.get_packages(USER), strings(&["abc"]));
    db.unsubscribe(USER, strings(&["abc"])).unwrap();
    assert_eq!(db.get_packages(USER), Vec::<String>::new());
    assert_eq!(db.users(), Vec::<String>::new());
}

fn check_notification<D: Database>() {
    let mut db = D::new();
    db.enable_notification(USER).unwrap();
    assert_eq!(db.is_notification_enabled(USER), true);
    assert_eq!(db.notification_targets(), strings(&[USER]));
    assert_eq!(db.users(), strings(&[USER]));
    db.disable_notification(USER).unwrap();
    assert_eq!(db.is_notification_enabled(USER), false);
    assert_eq!(db.users(), Vec::<String>::new());
}

#[test]
fn test_subscribe() {
    check_subscribe::<SqliteDatabase>();
    check_subscribe::<RocksDbDatabase>();
}

#[test]
fn test_notification() {
    check_notification::<SqliteDatabase>();
    check_notification::<RocksDbDatabase>();
}

fn check_subscribe_twice<D: Database>() {
    let mut db = D::new();
    db.subscribe("u", strings(&["p"])).unwrap();
    db.subscribe("u", strings(&["p"])).unwrap();
    assert_eq!(db.get_packages("u"), strings(&["p"]));
    db.subscribe("u", strings(&["q", "p", "q"])).unwrap();
    assert_eq!(db.get_packages("u"), strings(&["p", "q"]));
}

#[test]
fn subscribing_twice_keeps_one_entry() {
    check_subscribe_twice::<SqliteDatabase>();
    check_subscribe_twice::<RocksDbDatabase>();
}

fn check_subscribe_then_unsubscribe<D: Database>() {
    let mut db = D::new();
    db.subscribe("u", strings(&["a", "b"])).unwrap();
    db.unsubscribe("u", strings(&["a"])).unwrap();
    assert_eq!(db.get_packages("u"), strings(&["b"]));
}

#[test]
fn unsubscribe_one_of_two() {
    check_subscribe_then_unsubscribe::<SqliteDatabase>();
    check_subscribe_then_unsubscribe::<RocksDbDatabase>();
}

fn check_unsubscribe_absent<D: Database>() {
    let mut db = D::new();
    db.subscribe("u", strings(&["a", "b"])).unwrap();
    db.unsubscribe("u", strings(&["x"])).unwrap();
    assert_eq!(db.get_packages("u"), strings(&["a", "b"]));
    db.unsubscribe("nobody", strings(&["x"])).unwrap();
    assert_eq!(db.get_packages("nobody"), Vec::<String>::new());
    assert_eq!(db.users(), strings(&["u"]));
}

#[test]
fn unsubscribe_absent_package_changes_nothing() {
    check_unsubscribe_absent::<SqliteDatabase>();
    check_unsubscribe_absent::<RocksDbDatabase>();
}

fn check_enable_twice<D: Database>() {
    let mut db = D::new();
    db.enable_notification("u").unwrap();
    db.enable_notification("u").unwrap();
    assert!(db.is_notification_enabled("u"));
    assert_eq!(db.notification_targets(), strings(&["u"]));
}

#[test]
fn enabling_twice_keeps_one_target() {
    check_enable_twice::<SqliteDatabase>();
    check_enable_twice::<RocksDbDatabase>();
}

fn check_forgotten_user<D: Database>() {
    let mut db = D::new();
    db.subscribe("u", strings(&["p"])).unwrap();
    db.enable_notification("u").unwrap();
    db.unsubscribe("u", strings(&["p"])).unwrap();
    assert_eq!(db.users(), strings(&["u"]));
    db.disable_notification("u").unwrap();
    assert_eq!(db.users(), Vec::<String>::new());
    db.disable_notification("never-seen").unwrap();
    assert_eq!(db.users(), Vec::<String>::new());
}

#[test]
fn user_without_packages_or_notifications_is_not_listed() {
    check_forgotten_user::<SqliteDatabase>();
    check_forgotten_user::<RocksDbDatabase>();
}

fn check_sorted_lists<D: Database>() {
    let mut db = D::new();
    db.subscribe("@zed:x", strings(&["a"])).unwrap();
    db.enable_notification("@mia:x").unwrap();
    db.subscribe("@amy:x", strings(&["b"])).unwrap();
    db.enable_notification("@zed:x").unwrap();
    db.enable_notification("@bob:x").unwrap();
    assert_eq!(db.users(), strings(&["@amy:x", "@bob:x", "@mia:x", "@zed:x"]));
    assert_eq!(db.notification_targets(), strings(&["@bob:x", "@mia:x", "@zed:x"]));
}

#[test]
fn user_lists_are_in_increasing_order() {
    check_sorted_lists::<SqliteDatabase>();
    check_sorted_lists::<RocksDbDatabase>();
}

fn script() -> Vec<StoreOp> {
    vec![
        StoreOp::Subscribe("@b:x".to_string(), strings(&["vim", "emacs", "vim"])),
        StoreOp::EnableNotification("@a:x".to_string()),
        StoreOp::Subscribe("@a:x".to_string(), strings(&["gcc"])),
        StoreOp::Unsubscribe("@b:x".to_string(), strings(&["vim", "nano"])),
        StoreOp::EnableNotification("@c:x".to_string()),
        StoreOp::DisableNotification("@c:x".to_string()),
        StoreOp::Subscribe("@b:x".to_string(), strings(&["vim"])),
        StoreOp::Unsubscribe("@a:x".to_string(), strings(&["gcc"])),
    ]
}

#[test]
fn backends_answer_alike_after_the_same_operations() {
    let mut rel = SqliteDatabase::new();
    let mut kv = RocksDbDatabase::new();
    replay(&mut rel, &script()).unwrap();
    replay(&mut kv, &script()).unwrap();
    for user in ["@a:x", "@b:x", "@c:x", "@d:x"] {
        assert_eq!(rel.get_packages(user), kv.get_packages(user));
        assert_eq!(rel.is_notification_enabled(user), kv.is_notification_enabled(user));
    }
    assert_eq!(rel.users(), kv.users());
    assert_eq!(rel.notification_targets(), kv.notification_targets());
    assert_eq!(rel.get_packages("@b:x"), strings(&["emacs", "vim"]));
    assert_eq!(rel.users(), strings(&["@a:x", "@b:x"]));
    assert_eq!(rel.notification_targets(), strings(&["@a:x"]));
}

#[test]
fn stored_records_load_back() {
    let mut db = RocksDbDatabase::new();
    db.subscribe("@a:x", strings(&["vim", "gcc"])).unwrap();
    db.enable_notification("@a:x").unwrap();
    db.subscribe("@b:x", strings(&["emacs"])).unwrap();
    assert_eq!(db.stored_record("@nobody:x"), None);
    let a = db.stored_record("@a:x").unwrap();
    let b = db.stored_record("@b:x").unwrap();
    assert_ne!(a, b);
    let mut copy = RocksDbDatabase::new();
    copy.load_record("@a:x", &a).unwrap();
    copy.load_record("@b:x", &b).unwrap();
    assert_eq!(copy.get_packages("@a:x"), strings(&["vim", "gcc"]));
    assert!(copy.is_notification_enabled("@a:x"));
    assert_eq!(copy.get_packages("@b:x"), strings(&["emacs"]));
    assert!(!copy.is_notification_enabled("@b:x"));
}

#[test]
fn undecodable_record_is_rejected() {
    let mut db = RocksDbDatabase::new();
    assert_eq!(db.load_record("@a:x", &[1]), Err(StoreError::Decode));
    assert_eq!(db.users(), Vec::<String>::new());
}

#[test]
fn record_declaring_a_huge_length_is_rejected() {
    let mut db = RocksDbDatabase::new();
    let bytes = [253u8, 0xff, 0xff, 0xff, 0xff, 0xff, 0xff, 0xff, 0xff];
    assert_eq!(db.load_record("@a:x", &bytes), Err(StoreError::Decode));
    assert_eq!(db.users(), Vec::<String>::new());
}

#[test]
fn oversized_record_is_refused() {
    let mut db = RocksDbDatabase::new();
    db.subscribe("@a:x", strings(&["vim"])).unwrap();
    let huge = "y".repeat(300_000);
    assert_eq!(db.subscribe("@a:x", vec![huge.clone()]), Err(StoreError::TooLarge));
    assert_eq!(db.get_packages("@a:x"), strings(&["vim"]));
    let mut rel = SqliteDatabase::new();
    rel.subscribe("@a:x", vec![huge]).unwrap();
    assert_eq!(rel.get_packages("@a:x").len(), 1);
}

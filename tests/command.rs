use anicca_subscribe::anicca::{Anicca, Package};
use anicca_subscribe::bot::{notification_for, notify};
use anicca_subscribe::command::{command_prefix_str, handle, parse_args, parse_prefix_and_args, Reply};
use anicca_subscribe::config::{BuildInfo, Config};
use anicca_subscribe::db::Database;
use anicca_subscribe::keyvalue::RocksDbDatabase;
use anicca_subscribe::sqlite::SqliteDatabase;

const BOT: &str = "@anicca:example.com";
const ADMIN: &str = "@admin:example.com";

fn config() -> Config {
    Config { admin_ids: vec![ADMIN.to_string()], data_dir: None }
}

fn about() -> BuildInfo {
    BuildInfo {
        version: "0.3.0".to_string(),
        backend: "SQLite".to_string(),
        changelog: "# Changes".to_string(),
        changelog_markup: "<h1>Changes</h1>".to_string(),
    }
}

fn update(name: &str, before: &str, after: &str, warnings: &[&str]) -> Package {
    Package {
        name: name.to_string(),
        before: before.to_string(),
        after: after.to_string(),
        path: "/x".to_string(),
        warnings: warnings.iter().map(|w| w.to_string()).collect(),
    }
}

fn run<D: Database>(db: &mut D, diff: &Anicca, user: &str, is_direct: bool, text: &str) -> Option<Reply> {
    let args = parse_prefix_and_args(is_direct, text, Some(BOT), "anicca")?;
    Some(handle(&config(), &about(), db, diff, user, is_direct, &args).unwrap())
}

fn plain<D: Database>(db: &mut D, diff: &Anicca, user: &str, is_direct: bool, text: &str) -> String {
    run(db, diff, user, is_direct, text).unwrap().plain
}

fn strings(items: &[&str]) -> Vec<String> {
    items.iter().map(|s| s.to_string()).collect()
}

#[test]
fn words_split_on_whitespace_runs() {
    assert_eq!(parse_args("  !anic\tsubscribe  abc\n xyz "), strings(&["!anic", "subscribe", "abc", "xyz"]));
    assert_eq!(parse_args(""), Vec::<String>::new());
    assert_eq!(parse_args(" \u{3000} "), Vec::<String>::new());
    assert_eq!(parse_args("a\u{a0}b"), strings(&["a", "b"]));
    assert_eq!(command_prefix_str(), "!anic");
}

#[test]
fn addressing_by_prefix_identity_name_or_direct() {
    assert_eq!(parse_prefix_and_args(false, "!anic list", Some(BOT), "anicca"), Some(strings(&["list"])));
    assert_eq!(
        parse_prefix_and_args(false, "@anicca:example.com: list", Some(BOT), "anicca"),
        Some(strings(&["list"]))
    );
    assert_eq!(
        parse_prefix_and_args(false, "@anicca:example.com ping", Some(BOT), "anicca"),
        Some(strings(&["ping"]))
    );
    assert_eq!(parse_prefix_and_args(false, "anicca: updates now", Some(BOT), "anicca"), Some(strings(&["updates", "now"])));
    assert_eq!(parse_prefix_and_args(true, "list", Some(BOT), "anicca"), Some(strings(&["list"])));
    assert_eq!(parse_prefix_and_args(true, "", None, "anicca"), Some(Vec::new()));
    assert_eq!(parse_prefix_and_args(true, " \t ", Some(BOT), "anicca"), Some(Vec::new()));
    assert_eq!(parse_prefix_and_args(false, " \t ", Some(BOT), "anicca"), None);
    assert_eq!(parse_prefix_and_args(false, "!anic", Some(BOT), "anicca"), Some(Vec::new()));
    assert_eq!(parse_prefix_and_args(false, "!anicca list", None, "anicca"), None);
}

#[test]
fn plain_text_in_a_group_is_not_a_command() {
    assert_eq!(parse_prefix_and_args(false, "hello", Some(BOT), "anicca"), None);
}

#[test]
fn subscribe_from_any_conversation() {
    for is_direct in [false, true] {
        let mut db = SqliteDatabase::new();
        let reply = run(&mut db, &Anicca(Vec::new()), "@u:x", is_direct, "!anic subscribe abc xyz").unwrap();
        assert_eq!(reply.plain, "Subscribed.");
        assert_eq!(reply.html, None);
        assert_eq!(db.get_packages("@u:x"), strings(&["abc", "xyz"]));
    }
}

#[test]
fn list_without_subscriptions() {
    let mut db = RocksDbDatabase::new();
    assert_eq!(plain(&mut db, &Anicca(Vec::new()), "@u:x", false, "!anic list"), "No package subscribed.");
}

#[test]
fn list_counts_packages() {
    let mut db = RocksDbDatabase::new();
    let diff = Anicca(Vec::new());
    plain(&mut db, &diff, "@u:x", true, "subscribe abc");
    assert_eq!(plain(&mut db, &diff, "@u:x", true, "list"), "Subscribed 1 package: abc");
    plain(&mut db, &diff, "@u:x", true, "subscribe xyz abc");
    assert_eq!(plain(&mut db, &diff, "@u:x", true, "list"), "Subscribed 2 packages: abc, xyz");
}

#[test]
fn updates_report_subscribed_changes() {
    let mut db = SqliteDatabase::new();
    let diff = Anicca(vec![update("abc", "1", "2", &[]), update("other", "3", "4", &[])]);
    plain(&mut db, &diff, "@u:x", false, "!anic subscribe abc");
    let reply = run(&mut db, &diff, "@u:x", false, "!anic updates").unwrap();
    assert!(reply.plain.contains("abc: 1 -> 2"));
    assert!(!reply.plain.contains("other"));
    assert_eq!(
        reply.html,
        Some("<strong>Found 1 update</strong><br/><ul><li><code>abc: 1 -> 2</code></li></ul>".to_string())
    );
}

#[test]
fn updates_when_nothing_changed() {
    let mut db = SqliteDatabase::new();
    let diff = Anicca(vec![update("other", "3", "4", &[])]);
    plain(&mut db, &diff, "@u:x", false, "!anic subscribe abc");
    assert_eq!(plain(&mut db, &diff, "@u:x", false, "!anic updates"), "No package update found.");
}

#[test]
fn admin_commands_hidden_from_others() {
    let mut db = SqliteDatabase::new();
    let diff = Anicca(Vec::new());
    assert_eq!(plain(&mut db, &diff, "@u:x", true, "!anic +users"), "Unknown command: +users");
    assert_eq!(plain(&mut db, &diff, ADMIN, false, "!anic +users"), "Unknown command: +users");
    assert_eq!(plain(&mut db, &diff, "@u:x", true, "+list"), "Unknown command: +list");
}

#[test]
fn admin_lists_users_and_subscriptions() {
    let mut db = SqliteDatabase::new();
    let diff = Anicca(Vec::new());
    plain(&mut db, &diff, "@b:x", true, "subscribe vim");
    plain(&mut db, &diff, "@a:x", true, "enable-notification");
    assert_eq!(plain(&mut db, &diff, ADMIN, true, "+users"), "2 users: @a:x [✓], @b:x");
    assert_eq!(plain(&mut db, &diff, ADMIN, true, "+list @b:x"), "Subscribed 1 package: vim");
    assert_eq!(plain(&mut db, &diff, ADMIN, true, "+list @a:x"), "No package subscribed.");
    let usage = run(&mut db, &diff, ADMIN, true, "+list").unwrap();
    assert_eq!(usage.plain, "Usage: `!anic +list <userid>`");
    assert_eq!(usage.html, Some("Usage: <code>!anic +list &lt;userid&gt;</code>".to_string()));
}

#[test]
fn enable_notification_twice() {
    let mut db = RocksDbDatabase::new();
    let diff = Anicca(Vec::new());
    assert_eq!(plain(&mut db, &diff, "@u:x", true, "enable-notification"), "Enabled hourly notification.");
    assert_eq!(plain(&mut db, &diff, "@u:x", true, "enable-notification"), "Hourly notification already enabled.");
    assert!(db.is_notification_enabled("@u:x"));
    assert_eq!(plain(&mut db, &diff, "@u:x", true, "disable-notification"), "Hourly notification disabled.");
    assert!(!db.is_notification_enabled("@u:x"));
}

#[test]
fn usage_and_unknown_commands() {
    let mut db = SqliteDatabase::new();
    let diff = Anicca(Vec::new());
    let r = run(&mut db, &diff, "@u:x", false, "!anic subscribe").unwrap();
    assert_eq!(r.plain, "Usage: `!anic subscribe <packages>`");
    assert_eq!(r.html, Some("Usage: <code>!anic subscribe &lt;packages&gt;</code>".to_string()));
    let r = run(&mut db, &diff, "@u:x", false, "!anic unsubscribe").unwrap();
    assert_eq!(r.plain, "Usage: `!anic unsubscribe <packages>`");
    assert_eq!(plain(&mut db, &diff, "@u:x", false, "!anic frobnicate"), "Unknown command: frobnicate");
    assert_eq!(plain(&mut db, &diff, "@u:x", false, "!anic Ping"), "Unknown command: Ping");
    assert_eq!(plain(&mut db, &diff, "@u:x", false, "!anic ping"), "pong");
    let r = run(&mut db, &diff, "@u:x", false, "!anic").unwrap();
    assert_eq!(r.plain, "No command provided. Type `!anic help` for available commands.");
}

#[test]
fn help_version_and_changelog() {
    let mut db = SqliteDatabase::new();
    let diff = Anicca(Vec::new());
    let help = run(&mut db, &diff, "@u:x", true, "help").unwrap();
    assert!(help.plain.starts_with("Available commands:\nPrefixing commands with `!anic` is not required"));
    assert!(help.html.unwrap().contains("<code>!anic subscribe &lt;packages&gt;</code> - Subscribe to packages<br/>"));
    let version = run(&mut db, &diff, "@u:x", true, "version").unwrap();
    assert_eq!(version.plain, "0.3.0");
    assert_eq!(
        version.html,
        Some("<a href=\"https://factoria.origincode.me/OriginCode/anicca-subscribe-matrix/-/tree/v0.3.0?ref_type=tags\">0.3.0</a> (SQLite backend)".to_string())
    );
    let changelog = run(&mut db, &diff, "@u:x", true, "changelog").unwrap();
    assert_eq!(changelog.plain, "# Changes");
    assert_eq!(
        changelog.html,
        Some("<details><summary>Click to see the changelog</summary><h1>Changes</h1></details>".to_string())
    );
}

#[test]
fn unsubscribe_command() {
    let mut db = RocksDbDatabase::new();
    let diff = Anicca(Vec::new());
    plain(&mut db, &diff, "@u:x", true, "subscribe a b c");
    assert_eq!(plain(&mut db, &diff, "@u:x", true, "unsubscribe b zz"), "Unsubscribed.");
    assert_eq!(db.get_packages("@u:x"), strings(&["a", "c"]));
}

#[test]
fn scheduled_messages_go_to_targets_with_updates() {
    let mut db = SqliteDatabase::new();
    let diff = Anicca(vec![update("vim", "9.0", "9.1", &["a", "b"]), update("gcc", "13", "14", &[])]);
    db.subscribe("@b:x", strings(&["vim"])).unwrap();
    db.enable_notification("@b:x").unwrap();
    db.subscribe("@a:x", strings(&["emacs"])).unwrap();
    db.enable_notification("@a:x").unwrap();
    db.subscribe("@c:x", strings(&["gcc"])).unwrap();
    let out = notify(&db, &diff);
    assert_eq!(out.len(), 1);
    assert_eq!(out[0].0, "@b:x");
    assert_eq!(out[0].1, "(Hourly Notification)\nFound 1 update: \n- vim: 9.0 -> 9.1 (b)\n");
    assert_eq!(
        out[0].2,
        "(Hourly Notification)<br/><strong>Found 1 update</strong><br/><ul><li><code>vim: 9.0 -> 9.1</code> (b)</li></ul>"
    );
    assert_eq!(notification_for(&diff, &strings(&["emacs"])), None);
}

#[test]
fn empty_direct_message_gets_the_no_command_reply() {
    let mut db = SqliteDatabase::new();
    let r = run(&mut db, &Anicca(Vec::new()), "@u:x", true, "   ").unwrap();
    assert_eq!(r.plain, "No command provided. Type `!anic help` for available commands.");
    assert_eq!(r.html, Some("No command provided. Type <code>!anic help</code> for available commands.".to_string()));
}

#[test]
fn oversized_subscription_is_refused_by_the_record_store() {
    let huge = "x".repeat(300_000);
    let text = format!("subscribe {}", huge);
    let args = parse_prefix_and_args(true, &text, Some(BOT), "anicca").unwrap();
    let diff = Anicca(Vec::new());
    let mut kv = RocksDbDatabase::new();
    let r = handle(&config(), &about(), &mut kv, &diff, "@u:x", true, &args);
    assert!(matches!(r, Err(anicca_subscribe::db::StoreError::TooLarge)));
    assert_eq!(kv.get_packages("@u:x"), Vec::<String>::new());
    let mut rel = SqliteDatabase::new();
    let r = handle(&config(), &about(), &mut rel, &diff, "@u:x", true, &args).unwrap();
    assert_eq!(r.plain, "Subscribed.");
}

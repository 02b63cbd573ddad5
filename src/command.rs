//! Turning chat messages into commands: tokenizing, addressing, and dispatch.
use vstd::prelude::*;

use crate::anicca::{updates_spec, Anicca, PackageView};
use crate::bot::{format_update_packages, sort_by_name, updates_html, updates_plain};
use crate::config::{BuildInfo, Config};
use crate::db::{
    disable_spec, enable_spec, known_users, lists_sorted, packages_of, subscribe_spec,
    unsubscribe_spec, Database, StoreError, StoreView,
};
use crate::text::{
    contains_str, join, join_strings, lemma_sorted_unique, signed_decimal, str_eq,
    strs,
};

verus! {

/// Whether `c` has the Unicode `White_Space` property, as `char::is_whitespace` tests.
pub open spec fn is_ws(c: char) -> bool {
    let n = c as int;
    (9 <= n <= 13) || n == 32 || n == 0x85 || n == 0xA0 || n == 0x1680 || (0x2000 <= n <= 0x200A)
        || n == 0x2028 || n == 0x2029 || n == 0x202F || n == 0x205F || n == 0x3000
}

/// The whitespace-separated words of `s`, given that the word being read so far is `cur`.
pub open spec fn words_from(s: Seq<char>, cur: Seq<char>) -> Seq<Seq<char>>
    decreases s.len(),
{
    if s.len() == 0 {
        if cur.len() > 0 {
            seq![cur]
        } else {
            Seq::empty()
        }
    } else if is_ws(s[0]) {
        (if cur.len() > 0 {
            seq![cur]
        } else {
            Seq::empty()
        }) + words_from(s.drop_first(), Seq::empty())
    } else {
        words_from(s.drop_first(), cur.push(s[0]))
    }
}

/// The words of `s`: its maximal runs of non-whitespace characters, in order.
pub open spec fn split_ws(s: Seq<char>) -> Seq<Seq<char>> {
    words_from(s, Seq::empty())
}

fn is_whitespace(c: char) -> (r: bool)
    ensures
        r == is_ws(c),
{
    let n = c as u32;
    (9 <= n && n <= 13) || n == 32 || n == 0x85 || n == 0xA0 || n == 0x1680 || (0x2000 <= n && n
        <= 0x200A) || n == 0x2028 || n == 0x2029 || n == 0x202F || n == 0x205F || n == 0x3000
}

/// Splits `text` into its whitespace-separated words.
pub fn parse_args(text: &str) -> (r: Vec<String>)
    ensures
        strs(r@) == split_ws(text@),
{
    let ghost s = text@;
    let len = text.unicode_len();
    let mut out: Vec<String> = Vec::new();
    let mut start: usize = 0;
    let mut i: usize = 0;
    proof {
        assert(s.skip(0) =~= s);
        assert(s.subrange(0, 0) =~= Seq::<char>::empty());
        assert(strs(out@) + split_ws(s) =~= split_ws(s));
    }
    while i < len
        invariant
            s == text@,
            len == s.len(),
            start <= i <= len,
            strs(out@) + words_from(s.skip(i as int), s.subrange(start as int, i as int))
                == split_ws(s),
        decreases len - i,
    {
        let c = text.get_char(i);
        let ghost cur = s.subrange(start as int, i as int);
        let ghost rest = s.skip(i as int);
        proof {
            assert(rest[0] == c);
            assert(rest.drop_first() =~= s.skip(i + 1));
        }
        if is_whitespace(c) {
            if start < i {
                let ghost before = strs(out@);
                let w = text.substring_char(start, i).to_owned();
                out.push(w);
                proof {
                    assert(strs(out@) =~= before + seq![cur]);
                    assert(words_from(rest, cur) == seq![cur] + words_from(
                        s.skip(i + 1),
                        Seq::empty(),
                    ));
                    assert(before + (seq![cur] + words_from(s.skip(i + 1), Seq::empty())) =~= (
                    before + seq![cur]) + words_from(s.skip(i + 1), Seq::empty()));
                }
            } else {
                proof {
                    assert(cur =~= Seq::<char>::empty());
                    assert(Seq::<Seq<char>>::empty() + words_from(s.skip(i + 1), Seq::empty())
                        =~= words_from(s.skip(i + 1), Seq::empty()));
                }
            }
            start = i + 1;
            proof {
                assert(s.subrange(start as int, i + 1) =~= Seq::<char>::empty());
            }
        } else {
            proof {
                assert(cur.push(c) =~= s.subrange(start as int, i + 1));
            }
        }
        i = i + 1;
    }
    let ghost cur = s.subrange(start as int, i as int);
    proof {
        assert(s.skip(i as int) =~= Seq::<char>::empty());
    }
    if start < i {
        let ghost before = strs(out@);
        let w = text.substring_char(start, i).to_owned();
        out.push(w);
        proof {
            assert(strs(out@) =~= before + seq![cur]);
        }
    } else {
        proof {
            assert(strs(out@) + Seq::<Seq<char>>::empty() =~= strs(out@));
        }
    }
    out
}

/// The literal that opens a command in a group conversation.
pub open spec fn command_prefix() -> Seq<char> {
    seq!['!', 'a', 'n', 'i', 'c']
}

/// The greeting by display name that addresses the bot: the name, a colon, a space.
pub open spec fn greeting(display_name: Seq<char>) -> Seq<char> {
    display_name + seq![':', ' ']
}

/// The command words of a message, or `None` when it does not address the bot.
///
/// A message is addressed to the bot when its first word is the command prefix,
/// the bot's identity, or that identity followed by a colon (the words after the
/// first are the command); when it begins with the bot's display name, a colon
/// and a space (the words after that are the command); or when the conversation
/// is direct (all its words are the command, even when there are none).
pub open spec fn addressed_args(
    is_direct: bool,
    text: Seq<char>,
    bot_user_id: Option<Seq<char>>,
    display_name: Seq<char>,
) -> Option<Seq<Seq<char>>> {
    let words = split_ws(text);
    if words.len() > 0 && (words[0] == command_prefix() || (bot_user_id is Some && (words[0]
        == bot_user_id->0 || words[0] == bot_user_id->0.push(':')))) {
        Some(words.drop_first())
    } else if greeting(display_name).is_prefix_of(text) {
        Some(split_ws(text.skip(greeting(display_name).len() as int)))
    } else if is_direct {
        Some(words)
    } else {
        None
    }
}

/// The command prefix, `!anic`.
pub fn command_prefix_str() -> (r: &'static str)
    ensures
        r@ == command_prefix(),
{
    proof {
        reveal_strlit("!anic");
    }
    "!anic"
}

/// Whether `a` is a prefix of `b`.
fn is_prefix(a: &str, b: &str) -> (r: bool)
    ensures
        r == a@.is_prefix_of(b@),
{
    let la = a.unicode_len();
    let lb = b.unicode_len();
    if la > lb {
        return false;
    }
    let mut i: usize = 0;
    while i < la
        invariant
            la == a@.len(),
            lb == b@.len(),
            la <= lb,
            i <= la,
            forall|k: int| 0 <= k < i ==> a@[k] == b@[k],
        decreases la - i,
    {
        if a.get_char(i) != b.get_char(i) {
            proof {
                assert(a@[i as int] != b@.subrange(0, la as int)[i as int]);
            }
            return false;
        }
        i = i + 1;
    }
    proof {
        assert(a@ =~= b@.subrange(0, la as int));
    }
    true
}

/// The command words of a message, or `None` when the message does not
/// address the bot and no reply should be sent.
pub fn parse_prefix_and_args(
    is_direct: bool,
    text: &str,
    bot_user_id: Option<&str>,
    display_name: &str,
) -> (r: Option<Vec<String>>)
    ensures
        r matches Some(v) ==> addressed_args(
            is_direct,
            text@,
            match bot_user_id {
                Some(b) => Some(b@),
                None => None,
            },
            display_name@,
        ) == Some(strs(v@)),
        r is None ==> addressed_args(
            is_direct,
            text@,
            match bot_user_id {
                Some(b) => Some(b@),
                None => None,
            },
            display_name@,
        ) is None,
{
    let ghost bot = match bot_user_id {
        Some(b) => Some(b@),
        None => None,
    };
    let mut parsed_args = parse_args(text);
    let mut matched = false;
    if parsed_args.len() > 0 {
        let first = parsed_args[0].as_str();
        if str_eq(first, command_prefix_str()) {
            matched = true;
        } else {
            match bot_user_id {
                Some(id) => {
                    let mut with_colon = id.to_owned();
                    proof {
                        reveal_strlit(":");
                    }
                    with_colon.append(":");
                    proof {
                        assert(with_colon@ =~= id@.push(':'));
                    }
                    if str_eq(first, id) || str_eq(first, with_colon.as_str()) {
                        matched = true;
                    }
                },
                None => {},
            }
        }
    }
    if matched {
        let ghost words = strs(parsed_args@);
        parsed_args.remove(0);
        proof {
            assert(strs(parsed_args@) =~= words.drop_first());
        }
        return Some(parsed_args);
    }
    let mut greet = display_name.to_owned();
    proof {
        reveal_strlit(": ");
    }
    greet.append(": ");
    proof {
        assert(greet@ =~= greeting(display_name@));
    }
    if is_prefix(greet.as_str(), text) {
        let glen = greet.as_str().unicode_len();
        let tlen = text.unicode_len();
        let rest = text.substring_char(glen, tlen);
        proof {
            assert(rest@ =~= text@.skip(glen as int));
        }
        Some(parse_args(rest))
    } else if is_direct {
        Some(parsed_args)
    } else {
        None
    }
}

/// A reply to a command: plain text, and optionally the same text marked up.
#[derive(Debug, Clone)]
pub struct Reply {
    pub plain: String,
    pub html: Option<String>,
}

/// What a `Reply` holds, as plain sequences.
pub struct ReplyView {
    pub plain: Seq<char>,
    pub html: Option<Seq<char>>,
}

impl View for Reply {
    type V = ReplyView;

    open spec fn view(&self) -> ReplyView {
        ReplyView {
            plain: self.plain@,
            html: match self.html {
                Some(h) => Some(h@),
                None => None,
            },
        }
    }
}

pub open spec fn notice(plain: Seq<char>) -> ReplyView {
    ReplyView { plain, html: None }
}

pub open spec fn notice_html(plain: Seq<char>, html: Seq<char>) -> ReplyView {
    ReplyView { plain, html: Some(html) }
}

/// The word that `pluralizer` gives for `word` in the singular (`singular`)
/// or in the plural.
pub uninterp spec fn noun_form(word: Seq<char>, singular: bool) -> Seq<char>;

/// Whether `s` is a nonempty word of lowercase ASCII letters.
pub open spec fn is_lower_word(s: Seq<char>) -> bool {
    s.len() > 0 && forall|i: int| 0 <= i < s.len() ==> 97 <= #[trigger] (s[i] as int) <= 122
}

/// Relies on `pluralizer::pluralize` with the count included: it writes the
/// count in decimal, a space, and the word in its singular form when the count
/// is one and in its plural form otherwise. For a word in lowercase ASCII its
/// case restoring returns the rule's result before any slicing by bytes.
#[verifier::external_body]
fn pluralize(word: &str, count: isize) -> (r: String)
    requires
        is_lower_word(word@),
    ensures
        r@ == signed_decimal(count as int) + seq![' '] + noun_form(word@, count == 1),
{
    pluralizer::pluralize(word, count, true)
}

/// `N word` or `N words` for a list of `n` items.
pub open spec fn count_phrase(word: Seq<char>, n: nat) -> Seq<char> {
    signed_decimal((n as isize) as int) + seq![' '] + noun_form(word, (n as isize) == 1)
}

/// The increasing list of the members of `s`.
pub open spec fn sorted_list(s: Set<Seq<char>>) -> Seq<Seq<char>> {
    choose|r: Seq<Seq<char>>| lists_sorted(r, s)
}

/// Each user, marked when notifications are on for them.
pub open spec fn mark_targets(users: Seq<Seq<char>>, targets: Set<Seq<char>>) -> Seq<Seq<char>> {
    users.map_values(
        |u: Seq<char>|
            if targets.contains(u) {
                u + " [✓]"@
            } else {
                u
            },
    )
}

pub open spec fn unknown_command(word: Seq<char>) -> ReplyView {
    notice("Unknown command: "@ + word)
}

pub open spec fn no_command_reply() -> ReplyView {
    notice_html(
        "No command provided. Type `!anic help` for available commands."@,
        "No command provided. Type <code>!anic help</code> for available commands."@,
    )
}

pub open spec fn help_reply() -> ReplyView {
    notice_html(
        "Available commands:\nPrefixing commands with `!anic` is not required for direct messages.\n`!anic help` - Show this help message\n`!anic list` - List subscribed packages\n`!anic subscribe <packages>` - Subscribe to packages\n`!anic unsubscribe <packages>` - Unsubscribe from packages\n`!anic updates` - Show package updates\n`!anic enable-notification` - Enable hourly notification\n`!anic disable-notification` - Disable hourly notification\n`!anic version` - Show the bot version\n`!anic changelog` - Show the bot changelog"@,
        "Available commands:<br/>Prefixing commands with <code>!anic</code> is not required for direct messages.<br/><code>!anic help</code> - Show this help message<br/><code>!anic list</code> - List subscribed packages<br/><code>!anic subscribe &lt;packages&gt;</code> - Subscribe to packages<br/><code>!anic unsubscribe &lt;packages&gt;</code> - Unsubscribe from packages<br/><code>!anic updates</code> - Show package updates<br/><code>!anic enable-notification</code> - Enable hourly notification<br/><code>!anic disable-notification</code> - Disable hourly notification<br/><code>!anic version</code> - Show the bot version<br/><code>!anic changelog</code> - Show the bot changelog"@,
    )
}

pub open spec fn version_reply(about: BuildInfo) -> ReplyView {
    notice_html(
        about.version@,
        "<a href=\"https://factoria.origincode.me/OriginCode/anicca-subscribe-matrix/-/tree/v"@
            + about.version@ + "?ref_type=tags\">"@ + about.version@ + "</a> ("@ + about.backend@
            + " backend)"@,
    )
}

pub open spec fn changelog_reply(about: BuildInfo) -> ReplyView {
    notice_html(
        about.changelog@,
        "<details><summary>Click to see the changelog</summary>"@ + about.changelog_markup@
            + "</details>"@,
    )
}

pub open spec fn subscribe_usage() -> ReplyView {
    notice_html(
        "Usage: `!anic subscribe <packages>`"@,
        "Usage: <code>!anic subscribe &lt;packages&gt;</code>"@,
    )
}

pub open spec fn unsubscribe_usage() -> ReplyView {
    notice_html(
        "Usage: `!anic unsubscribe <packages>`"@,
        "Usage: <code>!anic unsubscribe &lt;packages&gt;</code>"@,
    )
}

pub open spec fn list_usage() -> ReplyView {
    notice_html(
        "Usage: `!anic +list <userid>`"@,
        "Usage: <code>!anic +list &lt;userid&gt;</code>"@,
    )
}

/// The reply listing a user's subscriptions.
pub open spec fn subscription_list(packages: Seq<Seq<char>>) -> ReplyView {
    if packages.len() == 0 {
        notice("No package subscribed."@)
    } else {
        notice(
            "Subscribed "@ + count_phrase("package"@, packages.len()) + ": "@ + join(
                packages,
                ", "@,
            ),
        )
    }
}

/// The reply listing every known user, marking notification targets.
pub open spec fn users_reply(users: Seq<Seq<char>>, targets: Set<Seq<char>>) -> ReplyView {
    notice(
        count_phrase("user"@, users.len()) + ": "@ + join(mark_targets(users, targets), ", "@),
    )
}

/// The reply reporting the updates `ups`, already in order.
pub open spec fn updates_reply(ups: Seq<PackageView>) -> ReplyView {
    if ups.len() == 0 {
        notice("No package update found."@)
    } else {
        notice_html(updates_plain(ups), updates_html(ups))
    }
}

/// What a command does: the store after it, and the reply.
///
/// `args` are the command words, `user` the sender, `diff` the latest diff
/// snapshot. The administrative commands answer as unknown commands unless the
/// conversation is direct and the sender is an administrator.
pub open spec fn dispatch(
    config: Config,
    about: BuildInfo,
    store: StoreView,
    diff: Seq<PackageView>,
    user: Seq<char>,
    is_direct: bool,
    args: Seq<Seq<char>>,
) -> (StoreView, ReplyView) {
    if args.len() == 0 {
        (store, no_command_reply())
    } else {
        let cmd = args[0];
        let rest = args.drop_first();
        let admin = is_direct && strs(config.admin_ids@).contains(user);
        if cmd == "help"@ {
            (store, help_reply())
        } else if cmd == "version"@ {
            (store, version_reply(about))
        } else if cmd == "changelog"@ {
            (store, changelog_reply(about))
        } else if cmd == "ping"@ {
            (store, notice("pong"@))
        } else if cmd == "list"@ {
            (store, subscription_list(packages_of(store, user)))
        } else if cmd == "subscribe"@ {
            if rest.len() == 0 {
                (store, subscribe_usage())
            } else {
                (subscribe_spec(store, user, rest), notice("Subscribed."@))
            }
        } else if cmd == "unsubscribe"@ {
            if rest.len() == 0 {
                (store, unsubscribe_usage())
            } else {
                (unsubscribe_spec(store, user, rest), notice("Unsubscribed."@))
            }
        } else if cmd == "updates"@ {
            (store, updates_reply(sort_by_name(updates_spec(diff, packages_of(store, user)))))
        } else if cmd == "enable-notification"@ {
            if store.notify.contains(user) {
                (store, notice("Hourly notification already enabled."@))
            } else {
                (enable_spec(store, user), notice("Enabled hourly notification."@))
            }
        } else if cmd == "disable-notification"@ {
            (disable_spec(store, user), notice("Hourly notification disabled."@))
        } else if cmd == "+users"@ {
            if admin {
                (store, users_reply(sorted_list(known_users(store)), store.notify))
            } else {
                (store, unknown_command(cmd))
            }
        } else if cmd == "+list"@ {
            if !admin {
                (store, unknown_command(cmd))
            } else if rest.len() == 0 {
                (store, list_usage())
            } else {
                (store, subscription_list(packages_of(store, rest[0])))
            }
        } else {
            (store, unknown_command(cmd))
        }
    }
}

/// Copies of every word but the first.
fn words_after_first(args: &[String]) -> (r: Vec<String>)
    requires
        args@.len() > 0,
    ensures
        strs(r@) == strs(args@).drop_first(),
{
    let mut out: Vec<String> = Vec::new();
    let mut i: usize = 1;
    while i < args.len()
        invariant
            1 <= i <= args@.len(),
            strs(out@) == strs(args@).subrange(1, i as int),
        decreases args@.len() - i,
    {
        let ghost before = strs(out@);
        let w = args[i].clone();
        out.push(w);
        proof {
            assert(strs(out@) =~= before.push(args@[i as int]@));
            assert(strs(args@).subrange(1, i + 1) =~= strs(args@).subrange(1, i as int).push(
                args@[i as int]@,
            ));
        }
        i = i + 1;
    }
    proof {
        assert(strs(args@).subrange(1, i as int) =~= strs(args@).drop_first());
    }
    out
}

fn plain_reply(text: &str) -> (r: Reply)
    ensures
        r@ == notice(text@),
{
    Reply { plain: text.to_owned(), html: None }
}

fn html_reply(plain: &str, html: &str) -> (r: Reply)
    ensures
        r@ == notice_html(plain@, html@),
{
    Reply { plain: plain.to_owned(), html: Some(html.to_owned()) }
}

fn unknown_command_reply(word: &str) -> (r: Reply)
    ensures
        r@ == unknown_command(word@),
{
    let mut text = String::from_str("Unknown command: ");
    text.append(word);
    Reply { plain: text, html: None }
}

fn subscription_list_reply(packages: &Vec<String>) -> (r: Reply)
    ensures
        r@ == subscription_list(strs(packages@)),
{
    if packages.len() == 0 {
        plain_reply("No package subscribed.")
    } else {
        let mut text = String::from_str("Subscribed ");
        proof {
            reveal_strlit("package");
        }
        text.append(pluralize("package", packages.len() as isize).as_str());
        text.append(": ");
        text.append(join_strings(packages, ", ").as_str());
        Reply { plain: text, html: None }
    }
}

fn users_list_reply(users: &Vec<String>, targets: &Vec<String>) -> (r: Reply)
    ensures
        r@ == users_reply(strs(users@), strs(targets@).to_set()),
{
    let ghost marked_all = mark_targets(strs(users@), strs(targets@).to_set());
    let mut marked: Vec<String> = Vec::new();
    let mut i: usize = 0;
    while i < users.len()
        invariant
            i <= users@.len(),
            marked_all == mark_targets(strs(users@), strs(targets@).to_set()),
            strs(marked@) == marked_all.take(i as int),
        decreases users@.len() - i,
    {
        let id = &users[i];
        let mut item = id.clone();
        let hit = contains_str(targets.as_slice(), id.as_str());
        if hit {
            item.append(" [✓]");
        }
        proof {
            assert(strs(users@)[i as int] == id@);
            assert(strs(targets@).to_set().contains(id@) == hit);
            assert(marked_all[i as int] == item@);
        }
        let ghost before = strs(marked@);
        marked.push(item);
        proof {
            assert(strs(marked@) =~= before.push(marked_all[i as int]));
            assert(marked_all.take(i + 1) =~= marked_all.take(i as int).push(marked_all[i as int]));
        }
        i = i + 1;
    }
    proof {
        assert(marked_all.take(i as int) =~= marked_all);
    }
    proof {
        reveal_strlit("user");
    }
    let mut text = pluralize("user", users.len() as isize);
    text.append(": ");
    text.append(join_strings(&marked, ", ").as_str());
    Reply { plain: text, html: None }
}

/// Carries out the command `args` sent by `user_id`, and returns the reply.
///
/// `is_direct` tells whether the conversation is direct, `diff` is the
/// latest diff snapshot. The store afterwards and the reply are those of
/// `dispatch`; the call fails, changing nothing, exactly when the backend
/// cannot hold the store that `dispatch` gives.
pub fn handle<D: Database>(
    config: &Config,
    about: &BuildInfo,
    db: &mut D,
    diff: &Anicca,
    user_id: &str,
    is_direct: bool,
    args: &[String],
) -> (r: Result<Reply, StoreError>)
    requires
        old(db).inv(),
    ensures
        final(db).inv(),
        r is Ok <==> D::holds(
            dispatch(*config, *about, old(db).store(), diff@, user_id@, is_direct, strs(args@)).0,
        ),
        r is Ok ==> (final(db).store(), r->Ok_0@) == dispatch(
            *config,
            *about,
            old(db).store(),
            diff@,
            user_id@,
            is_direct,
            strs(args@),
        ),
        r is Err ==> r == Err::<Reply, StoreError>(StoreError::TooLarge) && final(db).store()
            == old(db).store(),
{
    proof {
        db.lemma_store_wf();
    }
    let ghost words = strs(args@);
    if args.len() == 0 {
        return Ok(html_reply(
            "No command provided. Type `!anic help` for available commands.",
            "No command provided. Type <code>!anic help</code> for available commands.",
        ));
    }
    let cmd = args[0].as_str();
    let rest = words_after_first(args);
    if str_eq(cmd, "help") {
        Ok(html_reply(
            "Available commands:\nPrefixing commands with `!anic` is not required for direct messages.\n`!anic help` - Show this help message\n`!anic list` - List subscribed packages\n`!anic subscribe <packages>` - Subscribe to packages\n`!anic unsubscribe <packages>` - Unsubscribe from packages\n`!anic updates` - Show package updates\n`!anic enable-notification` - Enable hourly notification\n`!anic disable-notification` - Disable hourly notification\n`!anic version` - Show the bot version\n`!anic changelog` - Show the bot changelog",
            "Available commands:<br/>Prefixing commands with <code>!anic</code> is not required for direct messages.<br/><code>!anic help</code> - Show this help message<br/><code>!anic list</code> - List subscribed packages<br/><code>!anic subscribe &lt;packages&gt;</code> - Subscribe to packages<br/><code>!anic unsubscribe &lt;packages&gt;</code> - Unsubscribe from packages<br/><code>!anic updates</code> - Show package updates<br/><code>!anic enable-notification</code> - Enable hourly notification<br/><code>!anic disable-notification</code> - Disable hourly notification<br/><code>!anic version</code> - Show the bot version<br/><code>!anic changelog</code> - Show the bot changelog",
        ))
    } else if str_eq(cmd, "version") {
        let mut html = String::from_str(
            "<a href=\"https://factoria.origincode.me/OriginCode/anicca-subscribe-matrix/-/tree/v",
        );
        html.append(about.version.as_str());
        html.append("?ref_type=tags\">");
        html.append(about.version.as_str());
        html.append("</a> (");
        html.append(about.backend.as_str());
        html.append(" backend)");
        Ok(Reply { plain: about.version.clone(), html: Some(html) })
    } else if str_eq(cmd, "changelog") {
        let mut html = String::from_str("<details><summary>Click to see the changelog</summary>");
        html.append(about.changelog_markup.as_str());
        html.append("</details>");
        Ok(Reply { plain: about.changelog.clone(), html: Some(html) })
    } else if str_eq(cmd, "ping") {
        Ok(plain_reply("pong"))
    } else if str_eq(cmd, "list") {
        let packages = db.get_packages(user_id);
        Ok(subscription_list_reply(&packages))
    } else if str_eq(cmd, "subscribe") {
        if rest.len() == 0 {
            return Ok(html_reply(
                "Usage: `!anic subscribe <packages>`",
                "Usage: <code>!anic subscribe &lt;packages&gt;</code>",
            ));
        }
        match db.subscribe(user_id, rest) {
            Ok(()) => Ok(plain_reply("Subscribed.")),
            Err(e) => Err(e),
        }
    } else if str_eq(cmd, "unsubscribe") {
        if rest.len() == 0 {
            return Ok(html_reply(
                "Usage: `!anic unsubscribe <packages>`",
                "Usage: <code>!anic unsubscribe &lt;packages&gt;</code>",
            ));
        }
        match db.unsubscribe(user_id, rest) {
            Ok(()) => Ok(plain_reply("Unsubscribed.")),
            Err(e) => Err(e),
        }
    } else if str_eq(cmd, "updates") {
        let packages = db.get_packages(user_id);
        let mut updates = diff.get_subscription_updates(packages.as_slice());
        if updates.len() == 0 {
            Ok(plain_reply("No package update found."))
        } else {
            let (plain, html) = format_update_packages(&mut updates);
            Ok(Reply { plain, html: Some(html) })
        }
    } else if str_eq(cmd, "enable-notification") {
        if db.is_notification_enabled(user_id) {
            return Ok(plain_reply("Hourly notification already enabled."));
        }
        match db.enable_notification(user_id) {
            Ok(()) => Ok(plain_reply("Enabled hourly notification.")),
            Err(e) => Err(e),
        }
    } else if str_eq(cmd, "disable-notification") {
        match db.disable_notification(user_id) {
            Ok(()) => Ok(plain_reply("Hourly notification disabled.")),
            Err(e) => Err(e),
        }
    } else if str_eq(cmd, "+users") {
        if is_direct && config.is_admin(user_id) {
            let users = db.users();
            let targets = db.notification_targets();
            proof {
                let known = known_users(db.store());
                assert(lists_sorted(sorted_list(known), known));
                lemma_sorted_unique(strs(users@), sorted_list(known));
            }
            Ok(users_list_reply(&users, &targets))
        } else {
            Ok(unknown_command_reply(cmd))
        }
    } else if str_eq(cmd, "+list") {
        if !(is_direct && config.is_admin(user_id)) {
            Ok(unknown_command_reply(cmd))
        } else if rest.len() == 0 {
            Ok(html_reply(
                "Usage: `!anic +list <userid>`",
                "Usage: <code>!anic +list &lt;userid&gt;</code>",
            ))
        } else {
            let packages = db.get_packages(rest[0].as_str());
            Ok(subscription_list_reply(&packages))
        }
    } else {
        Ok(unknown_command_reply(cmd))
    }
}

/// Sending `enable-notification` twice leaves notifications enabled, and the
/// second reply says that they were enabled already.
pub proof fn lemma_enable_command_twice(
    config: Config,
    about: BuildInfo,
    store: StoreView,
    diff: Seq<PackageView>,
    user: Seq<char>,
    is_direct: bool,
)
    ensures
        ({
            let args = seq!["enable-notification"@];
            let (first, _) = dispatch(config, about, store, diff, user, is_direct, args);
            let (second, reply) = dispatch(config, about, first, diff, user, is_direct, args);
            &&& second == first
            &&& second.notify.contains(user)
            &&& reply == notice("Hourly notification already enabled."@)
        }),
{
    reveal_strlit("enable-notification");
    reveal_strlit("help");
    reveal_strlit("version");
    reveal_strlit("changelog");
    reveal_strlit("ping");
    reveal_strlit("list");
    reveal_strlit("subscribe");
    reveal_strlit("unsubscribe");
    reveal_strlit("updates");
    let args = seq!["enable-notification"@];
    assert(args[0] == "enable-notification"@);
    assert(args[0] != "help"@);
    assert(args[0] != "version"@);
    assert(args[0] != "changelog"@);
    assert(args[0] != "ping"@);
    assert(args[0] != "list"@);
    assert(args[0] != "subscribe"@);
    assert(args[0] != "unsubscribe"@);
    assert(args[0] != "updates"@);
    let (first, _) = dispatch(config, about, store, diff, user, is_direct, args);
    assert(first.notify.contains(user));
    if store.notify.contains(user) {
        assert(first == store);
    } else {
        assert(first == enable_spec(store, user));
    }
}

} // verus!

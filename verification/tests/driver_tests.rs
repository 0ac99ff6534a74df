//! Sync driver decisions, routing, cursors, paths, presets and the
//! manifest generator.

use corky::accounts::{apply_preset, get_account_for_email, get_default_account, provider_presets};
use corky::driver::{
    advance_label_state, build_message, extract_body, full_resync_needed, header_value, new_uids,
    since_search_criteria, uid_search_criteria, Header, MimePart,
};
use corky::manifest::{manifest_entries, ManifestEntry, NamedContact};
use corky::merge::DirEntry;
use corky::resolve::{
    accounts_toml, config_dir, conversations_dir, corrkit_toml, expand_tilde, mailbox_dir,
    manifest_file, sync_state_file,
};
use corky::routes::{build_label_routes, Route};
use corky::types::{
    Account, Contact, LabelState, Message, NamedAccount, RouteRule, SyncState, Thread,
};

fn s(x: &str) -> String {
    x.to_string()
}

#[test]
fn test_full_resync_decision() {
    let prior = Some(LabelState { uidvalidity: 7, last_uid: 40 });
    // an identity change forces full mode whatever the cursor says
    assert!(full_resync_needed(false, prior, 8));
    assert!(full_resync_needed(true, prior, 7));
    assert!(full_resync_needed(false, None, 7));
    assert!(!full_resync_needed(false, prior, 7));
}

#[test]
fn test_search_criteria() {
    assert_eq!(since_search_criteria(2025, 2, 10), "SINCE 10-Feb-2025");
    assert_eq!(since_search_criteria(2024, 12, 1), "SINCE 01-Dec-2024");
    assert_eq!(uid_search_criteria(41), "UID 42:*");
    assert_eq!(uid_search_criteria(0), "UID 1:*");
}

#[test]
fn test_new_uids_filters_cursor() {
    let uids = vec![40u32, 41, 42, 45];
    assert_eq!(new_uids(&uids, 41), vec![42u32, 45]);
}

#[test]
fn test_advance_label_state() {
    let st = advance_label_state(9, 40, &vec![42u32, 41, 45]);
    assert_eq!(st.uidvalidity, 9);
    assert_eq!(st.last_uid, 45);
    // no processed messages keeps the prior cursor
    let st2 = advance_label_state(9, 40, &Vec::new());
    assert_eq!(st2.last_uid, 40);
}

#[test]
fn test_header_value_case_insensitive() {
    let headers = vec![
        Header { name: s("SUBJECT"), value: s("Hi") },
        Header { name: s("From"), value: s("a@example.com") },
    ];
    assert_eq!(header_value(&headers, "Subject"), Some(s("Hi")));
    assert_eq!(header_value(&headers, "from"), Some(s("a@example.com")));
    assert_eq!(header_value(&headers, "Date"), None);
}

#[test]
fn test_build_message_defaults() {
    let headers = vec![Header { name: s("From"), value: s("Bob <b@x.com>") }];
    let m = build_message(17, &headers, s("body"));
    assert_eq!(m.subject, "(no subject)");
    assert_eq!(m.from, "Bob <b@x.com>");
    assert_eq!(m.date, "");
    assert_eq!(m.id, "17");
    assert_eq!(m.thread_id, "(no subject)");
    assert_eq!(m.body, "body");
}

#[test]
fn test_extract_body_prefers_plain_inline() {
    let html = MimePart {
        mimetype: s("text/html"),
        has_disposition: false,
        body: Some(s("<p>Hi</p>")),
        subparts: Vec::new(),
    };
    let plain = MimePart {
        mimetype: s("text/plain"),
        has_disposition: false,
        body: Some(s("Hi")),
        subparts: Vec::new(),
    };
    let attached = MimePart {
        mimetype: s("text/plain"),
        has_disposition: true,
        body: Some(s("attachment")),
        subparts: Vec::new(),
    };
    let root = MimePart {
        mimetype: s("multipart/alternative"),
        has_disposition: false,
        body: None,
        subparts: vec![attached, plain, html],
    };
    // the attachment has a disposition but is a leaf, so its own body
    // wins the depth-first scan: a leaf yields its body whatever its type
    assert_eq!(extract_body(&root), "attachment");

    let root2 = MimePart {
        mimetype: s("multipart/alternative"),
        has_disposition: false,
        body: None,
        subparts: vec![
            MimePart {
                mimetype: s("text/plain"),
                has_disposition: false,
                body: Some(s("plain wins")),
                subparts: Vec::new(),
            },
            MimePart {
                mimetype: s("text/html"),
                has_disposition: false,
                body: Some(s("<p>no</p>")),
                subparts: Vec::new(),
            },
        ],
    };
    assert_eq!(extract_body(&root2), "plain wins");
}

#[test]
fn test_extract_body_leaf() {
    let leaf = MimePart {
        mimetype: s("text/plain"),
        has_disposition: false,
        body: Some(s("just text")),
        subparts: Vec::new(),
    };
    assert_eq!(extract_body(&leaf), "just text");
}

#[test]
fn test_build_label_routes_bare_and_scoped() {
    let routing = vec![
        RouteRule { key: s("inbox"), mailboxes: vec![s("team")] },
        RouteRule { key: s("work:reports"), mailboxes: vec![s("boss")] },
        RouteRule { key: s("home:reports"), mailboxes: vec![s("family")] },
    ];
    let routes: Vec<Route> = build_label_routes(&routing, "work", "/data");
    let find = |label: &str| -> Option<Vec<String>> {
        routes
            .iter()
            .find(|r| r.label == label)
            .map(|r| r.dirs.clone())
    };
    assert_eq!(find("inbox"), Some(vec![s("/data/team/conversations")]));
    assert_eq!(find("reports"), Some(vec![s("/data/boss/conversations")]));
    assert_eq!(routes.len(), 2);
}

#[test]
fn test_build_label_routes_empty_account_matches_all() {
    let routing = vec![RouteRule { key: s("work:reports"), mailboxes: vec![s("boss")] }];
    let routes = build_label_routes(&routing, "", "/d");
    assert_eq!(routes.len(), 1);
    assert_eq!(routes[0].label, "reports");
}

#[test]
fn test_build_label_routes_accumulates() {
    let routing = vec![
        RouteRule { key: s("inbox"), mailboxes: vec![s("a")] },
        RouteRule { key: s("inbox"), mailboxes: vec![s("b")] },
    ];
    let routes = build_label_routes(&routing, "", "/d");
    assert_eq!(routes.len(), 1);
    assert_eq!(
        routes[0].dirs,
        vec![s("/d/a/conversations"), s("/d/b/conversations")]
    );
}

#[test]
fn test_sync_state_cursors() {
    let mut state = SyncState::new();
    assert_eq!(state.label_state("acct", "inbox"), None);
    state.set_label_state("acct", "inbox", LabelState { uidvalidity: 3, last_uid: 9 });
    assert_eq!(
        state.label_state("acct", "inbox"),
        Some(LabelState { uidvalidity: 3, last_uid: 9 })
    );
    state.set_label_state("acct", "inbox", LabelState { uidvalidity: 3, last_uid: 12 });
    assert_eq!(
        state.label_state("acct", "inbox"),
        Some(LabelState { uidvalidity: 3, last_uid: 12 })
    );
    assert_eq!(state.label_state("other", "inbox"), None);
}

#[test]
fn test_paths() {
    assert_eq!(config_dir("/data"), "/data");
    assert_eq!(conversations_dir("/data"), "/data/conversations");
    assert_eq!(sync_state_file("/data"), "/data/.sync-state.json");
    assert_eq!(manifest_file("/data"), "/data/manifest.toml");
    assert_eq!(accounts_toml("/data"), "/data/accounts.toml");
    assert_eq!(mailbox_dir("/data", "Team"), "/data/mailboxes/team");
    assert_eq!(corrkit_toml("/d", true, false), "/d/.corrkit.toml");
    assert_eq!(corrkit_toml("/d", false, true), "/d/corrkit.toml");
    assert_eq!(corrkit_toml("/d", false, false), "/d/.corrkit.toml");
}

#[test]
fn test_expand_tilde_cases() {
    assert_eq!(expand_tilde("~/mail", "/home/me"), "/home/me/mail");
    assert_eq!(expand_tilde("~", "/home/me"), "/home/me");
    assert_eq!(expand_tilde("/abs/path", "/home/me"), "/abs/path");
}

#[test]
fn test_provider_presets_table() {
    let presets = provider_presets();
    assert_eq!(presets.len(), 2);
    assert_eq!(presets[0].name, "gmail");
    assert_eq!(presets[0].defaults.imap_host, "imap.gmail.com");
    assert_eq!(presets[0].defaults.smtp_port, 465);
    assert_eq!(presets[1].name, "protonmail-bridge");
    assert_eq!(presets[1].defaults.imap_port, 1143);
    assert!(presets[1].defaults.imap_starttls);
}

#[test]
fn test_apply_preset_gmail() {
    let mut acct = Account::default();
    acct.provider = s("gmail");
    apply_preset(&mut acct);
    assert_eq!(acct.imap_host, "imap.gmail.com");
    assert_eq!(acct.smtp_host, "smtp.gmail.com");
    assert_eq!(acct.drafts_folder, "[Gmail]/Drafts");
    assert_eq!(acct.imap_port, 993);
}

#[test]
fn test_apply_preset_keeps_explicit_values() {
    let mut acct = Account::default();
    acct.provider = s("gmail");
    acct.imap_host = s("imap.example.org");
    apply_preset(&mut acct);
    assert_eq!(acct.imap_host, "imap.example.org");
}

#[test]
fn test_apply_preset_protonmail_bridge() {
    let mut acct = Account::default();
    acct.provider = s("protonmail-bridge");
    apply_preset(&mut acct);
    assert_eq!(acct.imap_host, "127.0.0.1");
    assert_eq!(acct.imap_port, 1143);
    assert!(acct.imap_starttls);
    assert_eq!(acct.smtp_port, 1025);
    assert_eq!(acct.drafts_folder, "Drafts");
}

fn named(name: &str, user: &str, default: bool) -> NamedAccount {
    let mut a = Account::default();
    a.user = s(user);
    a.default = default;
    NamedAccount { name: s(name), account: a }
}

#[test]
fn test_get_default_account_picks_flagged() {
    let accounts = vec![
        named("one", "one@x.com", false),
        named("two", "two@x.com", true),
    ];
    assert_eq!(get_default_account(&accounts), Some(1));
}

#[test]
fn test_get_default_account_falls_back_to_first() {
    let accounts = vec![named("one", "one@x.com", false)];
    assert_eq!(get_default_account(&accounts), Some(0));
    assert_eq!(get_default_account(&Vec::new()), None);
}

#[test]
fn test_get_account_for_email_case_insensitive() {
    let accounts = vec![
        named("one", "One@X.com", false),
        named("two", "two@x.com", false),
    ];
    assert_eq!(get_account_for_email(&accounts, "one@x.COM"), Some(0));
    assert_eq!(get_account_for_email(&accounts, "missing@x.com"), None);
}

#[test]
fn test_manifest_entries_sorted_and_matched() {
    let t1 = Thread {
        id: s("z-key"),
        subject: s("Zebra"),
        labels: vec![s("inbox")],
        accounts: vec![s("personal")],
        messages: vec![Message {
            id: s("1"),
            thread_id: s("zebra"),
            from: s("Alice <ALICE@example.com>"),
            date: s("Mon, 10 Feb 2025 10:00:00 +0000"),
            subject: s("Zebra"),
            body: s("Hi"),
        }],
        last_date: s("Mon, 10 Feb 2025 10:00:00 +0000"),
    };
    let t2 = Thread {
        id: s("a-key"),
        subject: s("Aardvark"),
        labels: vec![],
        accounts: vec![],
        messages: vec![],
        last_date: s(""),
    };
    let files = vec![
        DirEntry { name: s("zebra.md"), text: corky::markdown::thread_to_markdown(&t1) },
        DirEntry { name: s("aardvark.md"), text: corky::markdown::thread_to_markdown(&t2) },
        DirEntry { name: s("notes.txt"), text: s("not a thread") },
    ];
    let contacts = vec![NamedContact {
        name: s("Alice A"),
        contact: Contact {
            emails: vec![s("alice@example.com")],
            labels: vec![],
            account: s(""),
        },
    }];
    let rows: Vec<ManifestEntry> = manifest_entries(&files, &contacts);
    assert_eq!(rows.len(), 2);
    assert_eq!(rows[0].stem, "aardvark");
    assert_eq!(rows[1].stem, "zebra");
    assert_eq!(rows[1].subject, "Zebra");
    assert_eq!(rows[1].thread_id, "z-key");
    assert_eq!(rows[1].contacts, vec![s("Alice A")]);
    assert_eq!(rows[0].contacts, Vec::<String>::new());
}

#[test]
fn test_planned_copies_for_existing_files() {
    let thread = Thread {
        id: s("hello"),
        subject: s("Hello"),
        labels: vec![s("inbox"), s("unrouted")],
        accounts: vec![],
        messages: vec![],
        last_date: s(""),
    };
    let files = vec![
        DirEntry { name: s("hello.md"), text: corky::markdown::thread_to_markdown(&thread) },
        DirEntry { name: s("notes.txt"), text: s("plain notes") },
    ];
    let routing = vec![RouteRule { key: s("inbox"), mailboxes: vec![s("team"), s("boss")] }];
    let routes = build_label_routes(&routing, "", "/d");
    let plan = corky::routes::planned_copies(&files, &routes);
    assert_eq!(plan.len(), 2);
    assert_eq!(plan[0].file_name, "hello.md");
    assert_eq!(plan[0].dest_dir, "/d/team/conversations");
    assert_eq!(plan[1].dest_dir, "/d/boss/conversations");
}

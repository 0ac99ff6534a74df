//! Merge engine behaviour on directory snapshots: dedup, ordering,
//! label accumulation, slug collisions and orphan cleanup.

use corky::markdown::parse_thread_markdown;
use corky::merge::{merge_message_to_file, mtime_timestamp, parse_msg_date, unique_slug, DirEntry};
use corky::orphan::cleanup_orphans;
use corky::types::Message;

fn s(x: &str) -> String {
    x.to_string()
}

fn msg(from: &str, date: &str, subject: &str, body: &str) -> Message {
    Message {
        id: s("1"),
        thread_id: subject.to_lowercase(),
        from: s(from),
        date: s(date),
        subject: s(subject),
        body: s(body),
    }
}

#[test]
fn test_merge_creates_new_file() {
    let files: Vec<DirEntry> = Vec::new();
    let m = msg(
        "Alice <alice@example.com>",
        "Mon, 10 Feb 2025 10:00:00 +0000",
        "Hello World",
        "Hi!",
    );
    let out = merge_message_to_file(&files, "inbox", "personal", &m, "hello world");
    assert_eq!(out.file_name, "hello-world.md");
    assert_eq!(out.thread.id, "hello world");
    assert_eq!(out.thread.subject, "Hello World");
    assert_eq!(out.thread.labels, vec![s("inbox")]);
    assert_eq!(out.thread.accounts, vec![s("personal")]);
    assert_eq!(out.thread.messages.len(), 1);
    assert_eq!(out.thread.last_date, "Mon, 10 Feb 2025 10:00:00 +0000");
    let parsed = parse_thread_markdown(&out.text).unwrap();
    assert_eq!(parsed.subject, "Hello World");
}

#[test]
fn test_merge_appends_to_existing() {
    let files: Vec<DirEntry> = Vec::new();
    let m1 = msg(
        "Alice <alice@example.com>",
        "Mon, 10 Feb 2025 09:00:00 +0000",
        "Hello World",
        "First.",
    );
    let first = merge_message_to_file(&files, "inbox", "personal", &m1, "hello world");

    let files2 = vec![DirEntry { name: first.file_name.clone(), text: first.text.clone() }];
    let m2 = msg(
        "Bob <bob@example.com>",
        "Mon, 10 Feb 2025 10:00:00 +0000",
        "Re: Hello World",
        "Second.",
    );
    let second = merge_message_to_file(&files2, "inbox", "personal", &m2, "hello world");
    assert_eq!(second.file_name, "hello-world.md");
    assert_eq!(second.thread.messages.len(), 2);
    assert_eq!(second.thread.messages[0].from, "Alice <alice@example.com>");
    assert_eq!(second.thread.messages[1].from, "Bob <bob@example.com>");
    assert_eq!(second.thread.last_date, "Mon, 10 Feb 2025 10:00:00 +0000");
}

#[test]
fn test_dedup_same_sender_date_skipped() {
    let files: Vec<DirEntry> = Vec::new();
    let m = msg(
        "Alice <alice@example.com>",
        "Mon, 10 Feb 2025 10:00:00 +0000",
        "Hello World",
        "Hi!",
    );
    let first = merge_message_to_file(&files, "inbox", "personal", &m, "hello world");
    let files2 = vec![DirEntry { name: first.file_name.clone(), text: first.text.clone() }];
    let second = merge_message_to_file(&files2, "inbox", "personal", &m, "hello world");
    assert_eq!(second.thread.messages.len(), 1);
    assert_eq!(second.file_name, first.file_name);
}

#[test]
fn test_dedup_different_sender_same_date_not_skipped() {
    let files: Vec<DirEntry> = Vec::new();
    let m1 = msg(
        "Alice <alice@example.com>",
        "Mon, 10 Feb 2025 10:00:00 +0000",
        "Hello World",
        "From Alice.",
    );
    let first = merge_message_to_file(&files, "inbox", "personal", &m1, "hello world");
    let files2 = vec![DirEntry { name: first.file_name.clone(), text: first.text.clone() }];
    let m2 = msg(
        "Bob <bob@example.com>",
        "Mon, 10 Feb 2025 10:00:00 +0000",
        "Hello World",
        "From Bob.",
    );
    let second = merge_message_to_file(&files2, "inbox", "personal", &m2, "hello world");
    assert_eq!(second.thread.messages.len(), 2);
}

#[test]
fn test_label_accumulation() {
    let files: Vec<DirEntry> = Vec::new();
    let m1 = msg(
        "Alice <a@example.com>",
        "Mon, 10 Feb 2025 09:00:00 +0000",
        "Topic",
        "One.",
    );
    let first = merge_message_to_file(&files, "inbox", "personal", &m1, "topic");
    let files2 = vec![DirEntry { name: first.file_name.clone(), text: first.text.clone() }];
    let m2 = msg(
        "Bob <b@example.com>",
        "Mon, 10 Feb 2025 10:00:00 +0000",
        "Topic",
        "Two.",
    );
    let second = merge_message_to_file(&files2, "archive", "work", &m2, "topic");
    assert_eq!(second.thread.labels, vec![s("inbox"), s("archive")]);
    assert_eq!(second.thread.accounts, vec![s("personal"), s("work")]);
}

#[test]
fn test_label_not_duplicated() {
    let files: Vec<DirEntry> = Vec::new();
    let m1 = msg(
        "Alice <a@example.com>",
        "Mon, 10 Feb 2025 09:00:00 +0000",
        "Topic",
        "One.",
    );
    let first = merge_message_to_file(&files, "inbox", "personal", &m1, "topic");
    let files2 = vec![DirEntry { name: first.file_name.clone(), text: first.text.clone() }];
    let m2 = msg(
        "Bob <b@example.com>",
        "Mon, 10 Feb 2025 10:00:00 +0000",
        "Topic",
        "Two.",
    );
    let second = merge_message_to_file(&files2, "inbox", "personal", &m2, "topic");
    assert_eq!(second.thread.labels, vec![s("inbox")]);
    assert_eq!(second.thread.accounts, vec![s("personal")]);
}

#[test]
fn test_empty_label_not_added() {
    let files: Vec<DirEntry> = Vec::new();
    let m = msg(
        "Alice <alice@example.com>",
        "Mon, 10 Feb 2025 10:00:00 +0000",
        "Empty Label",
        "Test",
    );
    let out = merge_message_to_file(&files, "", "", &m, "empty label");
    let parsed = parse_thread_markdown(&out.text).unwrap();
    assert!(parsed.labels.is_empty());
    assert!(parsed.accounts.is_empty());
}

#[test]
fn test_messages_sorted_by_date() {
    let files: Vec<DirEntry> = Vec::new();
    let late = msg(
        "Alice <a@example.com>",
        "Mon, 10 Feb 2025 11:00:00 +0000",
        "Order",
        "Late.",
    );
    let first = merge_message_to_file(&files, "inbox", "personal", &late, "order");
    let files2 = vec![DirEntry { name: first.file_name.clone(), text: first.text.clone() }];
    let early = msg(
        "Bob <b@example.com>",
        "Mon, 10 Feb 2025 09:00:00 +0000",
        "Order",
        "Early.",
    );
    let second = merge_message_to_file(&files2, "inbox", "personal", &early, "order");
    assert_eq!(second.thread.messages.len(), 2);
    assert_eq!(second.thread.messages[0].from, "Bob <b@example.com>");
    assert_eq!(second.thread.messages[1].from, "Alice <a@example.com>");
    assert_eq!(second.thread.last_date, "Mon, 10 Feb 2025 11:00:00 +0000");
}

#[test]
fn test_slug_collision_suffix() {
    // three distinct thread keys whose subjects share one slug
    let m1 = msg(
        "Alice <a@example.com>",
        "Mon, 10 Feb 2025 09:00:00 +0000",
        "Shared Slug",
        "One.",
    );
    let out1 = merge_message_to_file(&Vec::new(), "inbox", "acct", &m1, "key one");
    assert_eq!(out1.file_name, "shared-slug.md");

    let files2 = vec![DirEntry { name: out1.file_name.clone(), text: out1.text.clone() }];
    let m2 = msg(
        "Bob <b@example.com>",
        "Mon, 10 Feb 2025 10:00:00 +0000",
        "Shared Slug",
        "Two.",
    );
    let out2 = merge_message_to_file(&files2, "inbox", "acct", &m2, "key two");
    assert_eq!(out2.file_name, "shared-slug-2.md");

    let files3 = vec![
        DirEntry { name: out1.file_name.clone(), text: out1.text.clone() },
        DirEntry { name: out2.file_name.clone(), text: out2.text.clone() },
    ];
    let m3 = msg(
        "Cara <c@example.com>",
        "Mon, 10 Feb 2025 11:00:00 +0000",
        "Shared Slug",
        "Three.",
    );
    let out3 = merge_message_to_file(&files3, "inbox", "acct", &m3, "key three");
    assert_eq!(out3.file_name, "shared-slug-3.md");
}

#[test]
fn test_unique_slug_prefers_bare_name() {
    let existing = vec![s("other.md")];
    assert_eq!(unique_slug(&existing, "topic"), "topic");
    let taken = vec![s("topic.md")];
    assert_eq!(unique_slug(&taken, "topic"), "topic-2");
    let taken2 = vec![s("topic.md"), s("topic-2.md")];
    assert_eq!(unique_slug(&taken2, "topic"), "topic-3");
}

#[test]
fn test_orphan_cleanup() {
    let names = vec![s("a.md"), s("b.md"), s("c.txt")];
    let touched = vec![s("a.md")];
    let doomed = cleanup_orphans(&names, &touched);
    // only the untouched thread file goes; the stray text file stays
    assert_eq!(doomed, vec![s("b.md")]);
}

#[test]
fn test_parse_msg_date_rfc2822() {
    let ts = parse_msg_date("Mon, 10 Feb 2025 10:00:00 +0000");
    assert_eq!(ts, 1739181600);
}

#[test]
fn test_parse_msg_date_invalid_returns_epoch() {
    assert_eq!(parse_msg_date("not a date"), 0);
}

#[test]
fn test_mtime_skipped_for_epoch_dates() {
    assert_eq!(mtime_timestamp("not a date"), None);
    assert_eq!(
        mtime_timestamp("Mon, 10 Feb 2025 10:00:00 +0000"),
        Some(1739181600)
    );
}

#[test]
fn test_end_to_end_two_messages() {
    // two fetched messages for thread key `hello world`, dates 09:00 then
    // 10:00, different senders, into an empty directory
    let m1 = msg(
        "Alice <alice@example.com>",
        "Mon, 10 Feb 2025 09:00:00 +0000",
        "Hello World",
        "Good morning.",
    );
    let out1 = merge_message_to_file(&Vec::new(), "inbox", "personal", &m1, "hello world");
    assert_eq!(out1.file_name, "hello-world.md");

    let files = vec![DirEntry { name: out1.file_name.clone(), text: out1.text.clone() }];
    let m2 = msg(
        "Bob <bob@example.com>",
        "Mon, 10 Feb 2025 10:00:00 +0000",
        "Re: Hello World",
        "Good day.",
    );
    let out2 = merge_message_to_file(&files, "inbox", "personal", &m2, "hello world");
    assert_eq!(out2.file_name, "hello-world.md");

    let parsed = parse_thread_markdown(&out2.text).unwrap();
    assert_eq!(parsed.messages.len(), 2);
    assert_eq!(parsed.messages[0].from, "Alice <alice@example.com>");
    assert_eq!(parsed.messages[1].from, "Bob <bob@example.com>");
    assert!(out2.text.contains("**Labels**: inbox"));
    assert!(out2.text.contains("**Thread ID**: hello world"));
}

#[test]
fn test_merge_survives_undecodable_file() {
    // a matching file that fails to decode is treated as absent
    let files = vec![DirEntry {
        name: s("broken.md"),
        text: s("no heading\n**Thread ID**: topic\n"),
    }];
    let m = msg(
        "Alice <a@example.com>",
        "Mon, 10 Feb 2025 09:00:00 +0000",
        "Topic",
        "Fresh.",
    );
    let out = merge_message_to_file(&files, "inbox", "acct", &m, "topic");
    assert_eq!(out.thread.messages.len(), 1);
    assert_eq!(out.file_name, "broken.md");
}

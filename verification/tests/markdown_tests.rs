//! Codec, slug and thread-key behaviour.

use corky::markdown::{parse_thread_markdown, thread_to_markdown};
use corky::types::{Message, Thread};
use corky::util::{slugify, thread_key_from_subject};

fn s(x: &str) -> String {
    x.to_string()
}

fn msg(id: &str, thread_id: &str, from: &str, date: &str, subject: &str, body: &str) -> Message {
    Message {
        id: s(id),
        thread_id: s(thread_id),
        from: s(from),
        date: s(date),
        subject: s(subject),
        body: s(body),
    }
}

#[test]
fn test_roundtrip() {
    let thread = Thread {
        id: s("test-thread"),
        subject: s("Hello World"),
        labels: vec![s("inbox")],
        accounts: vec![s("personal")],
        messages: vec![msg(
            "1",
            "hello world",
            "Alice <alice@example.com>",
            "Mon, 10 Feb 2025 10:00:00 +0000",
            "Hello World",
            "Hello there!",
        )],
        last_date: s("Mon, 10 Feb 2025 10:00:00 +0000"),
    };

    let md = thread_to_markdown(&thread);
    let parsed = parse_thread_markdown(&md).unwrap();

    assert_eq!(parsed.subject, "Hello World");
    assert_eq!(parsed.id, "test-thread");
    assert_eq!(parsed.labels, vec![s("inbox")]);
    assert_eq!(parsed.accounts, vec![s("personal")]);
    assert_eq!(parsed.messages.len(), 1);
    assert_eq!(parsed.messages[0].from, "Alice <alice@example.com>");
    assert_eq!(parsed.messages[0].body, "Hello there!");
}

#[test]
fn markdown_test_parse_multi_label() {
    let md = "# Subject\n\n**Labels**: label1, label2\n**Thread ID**: test\n**Last updated**: Mon, 1 Jan 2024 00:00:00 +0000\n";
    let parsed = parse_thread_markdown(md).unwrap();
    assert_eq!(parsed.labels, vec![s("label1"), s("label2")]);
}

#[test]
fn test_sync_test_parse_multi_label() {
    let md = "# Multi Label Thread\n\n\
              **Labels**: alpha, beta, gamma\n\
              **Accounts**: acct1, acct2\n\
              **Thread ID**: multi\n\
              **Last updated**: Mon, 1 Jan 2024 00:00:00 +0000\n";
    let parsed = parse_thread_markdown(md).unwrap();
    assert_eq!(parsed.labels, vec![s("alpha"), s("beta"), s("gamma")]);
    assert_eq!(parsed.accounts, vec![s("acct1"), s("acct2")]);
}

#[test]
fn test_roundtrip_single_message() {
    let thread = Thread {
        id: s("thread-1"),
        subject: s("Meeting Tomorrow"),
        labels: vec![s("inbox"), s("important")],
        accounts: vec![s("personal")],
        messages: vec![msg(
            "msg-1",
            "meeting tomorrow",
            "Alice <alice@example.com>",
            "Mon, 10 Feb 2025 10:00:00 +0000",
            "Meeting Tomorrow",
            "Let's meet at 3pm.",
        )],
        last_date: s("Mon, 10 Feb 2025 10:00:00 +0000"),
    };

    let md = thread_to_markdown(&thread);
    let parsed = parse_thread_markdown(&md).unwrap();

    assert_eq!(parsed.subject, "Meeting Tomorrow");
    assert_eq!(parsed.id, "thread-1");
    assert_eq!(parsed.labels, vec![s("inbox"), s("important")]);
    assert_eq!(parsed.accounts, vec![s("personal")]);
    assert_eq!(parsed.messages.len(), 1);
    assert_eq!(parsed.messages[0].from, "Alice <alice@example.com>");
    assert_eq!(parsed.messages[0].date, "Mon, 10 Feb 2025 10:00:00 +0000");
    assert_eq!(parsed.messages[0].body, "Let's meet at 3pm.");
    assert_eq!(parsed.last_date, "Mon, 10 Feb 2025 10:00:00 +0000");
}

#[test]
fn test_roundtrip_multiple_messages() {
    let thread = Thread {
        id: s("thread-2"),
        subject: s("Project Update"),
        labels: vec![s("work")],
        accounts: vec![s("work")],
        messages: vec![
            msg(
                "msg-1",
                "project update",
                "Bob <bob@work.com>",
                "Mon, 10 Feb 2025 09:00:00 +0000",
                "Project Update",
                "Here's the update.",
            ),
            msg(
                "msg-2",
                "project update",
                "Alice <alice@work.com>",
                "Mon, 10 Feb 2025 10:00:00 +0000",
                "Re: Project Update",
                "Thanks for the update!",
            ),
            msg(
                "msg-3",
                "project update",
                "Bob <bob@work.com>",
                "Mon, 10 Feb 2025 11:00:00 +0000",
                "Re: Project Update",
                "No problem. Let me know if you need more.",
            ),
        ],
        last_date: s("Mon, 10 Feb 2025 11:00:00 +0000"),
    };

    let md = thread_to_markdown(&thread);
    let parsed = parse_thread_markdown(&md).unwrap();

    assert_eq!(parsed.messages.len(), 3);
    assert_eq!(parsed.messages[0].from, "Bob <bob@work.com>");
    assert_eq!(parsed.messages[1].from, "Alice <alice@work.com>");
    assert_eq!(parsed.messages[2].from, "Bob <bob@work.com>");
    assert_eq!(
        parsed.messages[2].body,
        "No problem. Let me know if you need more."
    );
}

#[test]
fn test_parse_empty_subject_returns_none() {
    let md = "# \n\n**Thread ID**: test\n";
    assert!(parse_thread_markdown(md).is_none());
}

#[test]
fn test_parse_no_h1_returns_none() {
    let md = "No heading here\n**Thread ID**: test\n";
    assert!(parse_thread_markdown(md).is_none());
}

#[test]
fn test_thread_to_markdown_format() {
    let thread = Thread {
        id: s("fmt-test"),
        subject: s("Format Test"),
        labels: vec![s("label1"), s("label2")],
        accounts: vec![s("acct1")],
        messages: vec![msg(
            "1",
            "format test",
            "Sender <sender@test.com>",
            "Mon, 10 Feb 2025 10:00:00 +0000",
            "Format Test",
            "Body text here.",
        )],
        last_date: s("Mon, 10 Feb 2025 10:00:00 +0000"),
    };

    let md = thread_to_markdown(&thread);

    assert!(md.starts_with("# Format Test\n"));
    assert!(md.contains("**Labels**: label1, label2"));
    assert!(md.contains("**Accounts**: acct1"));
    assert!(md.contains("**Thread ID**: fmt-test"));
    assert!(md.contains("**Last updated**: Mon, 10 Feb 2025 10:00:00 +0000"));
    assert!(md.contains("---"));
    assert!(md.contains("## Sender <sender@test.com> \u{2014} Mon, 10 Feb 2025 10:00:00 +0000"));
    assert!(md.contains("Body text here."));
}

#[test]
fn test_thread_to_markdown_empty_labels() {
    let thread = Thread {
        id: s("empty"),
        subject: s("Empty Labels"),
        labels: vec![],
        accounts: vec![],
        messages: vec![],
        last_date: String::new(),
    };

    let md = thread_to_markdown(&thread);
    assert!(md.contains("**Labels**: "));
    assert!(md.contains("**Accounts**: "));
}

#[test]
fn test_slugify_basic() {
    assert_eq!(slugify("Hello World"), "hello-world");
}

#[test]
fn test_slugify_special_chars() {
    assert_eq!(slugify("Re: My Important Email!"), "re-my-important-email");
}

#[test]
fn test_slugify_truncation() {
    let long = "a".repeat(100);
    assert_eq!(slugify(&long).len(), 60);
}

#[test]
fn test_slugify_empty() {
    assert_eq!(slugify(""), "untitled");
    assert_eq!(slugify("!!!"), "untitled");
}

#[test]
fn test_slugify_produces_valid_filename() {
    assert_eq!(slugify("Hello World"), "hello-world");
    assert_eq!(slugify("Re: My Important Email!"), "re-my-important-email");
}

#[test]
fn test_slugify_truncates_long_subjects() {
    let long_subject = "a".repeat(100);
    let slug = slugify(&long_subject);
    assert!(slug.len() <= 60);
}

#[test]
fn test_slugify_empty_returns_untitled() {
    assert_eq!(slugify(""), "untitled");
    assert_eq!(slugify("!!!"), "untitled");
}

#[test]
fn test_slugify_lowercases() {
    // would fail if the lower-casing step handed its input back unchanged
    assert_eq!(slugify("HELLO"), "hello");
}

#[test]
fn test_thread_key_strips_re() {
    assert_eq!(thread_key_from_subject("Re: Hello World"), "hello world");
}

#[test]
fn test_thread_key_strips_fwd() {
    assert_eq!(thread_key_from_subject("Fwd: Hello World"), "hello world");
}

#[test]
fn test_thread_key_strips_fw() {
    assert_eq!(thread_key_from_subject("Fw: Hello World"), "hello world");
}

#[test]
fn test_thread_key_case_insensitive() {
    assert_eq!(thread_key_from_subject("RE: Hello World"), "hello world");
}

#[test]
fn test_thread_key_no_prefix() {
    assert_eq!(thread_key_from_subject("Hello World"), "hello world");
}

#[test]
fn test_thread_key_strips_only_one_prefix() {
    assert_eq!(thread_key_from_subject("Re: Fwd: News"), "fwd: news");
}

#[test]
fn test_body_with_extra_blank_lines_survives() {
    let thread = Thread {
        id: s("multi-line"),
        subject: s("Multi Line"),
        labels: vec![],
        accounts: vec![],
        messages: vec![msg(
            "1",
            "multi line",
            "Alice <a@example.com>",
            "Mon, 10 Feb 2025 10:00:00 +0000",
            "Multi Line",
            "First paragraph.\n\nSecond paragraph.",
        )],
        last_date: s("Mon, 10 Feb 2025 10:00:00 +0000"),
    };
    let md = thread_to_markdown(&thread);
    let parsed = parse_thread_markdown(&md).unwrap();
    assert_eq!(
        parsed.messages[0].body,
        "First paragraph.\n\nSecond paragraph."
    );
}

#[test]
fn test_parse_tolerates_hand_edited_layout() {
    // extra blank lines and reordered metadata still decode
    let md = "# Edited By Hand\n\n\n**Last updated**: Mon, 1 Jan 2024 00:00:00 +0000\n\n**Thread ID**: edited\n**Labels**: a, b\n";
    let parsed = parse_thread_markdown(md).unwrap();
    assert_eq!(parsed.subject, "Edited By Hand");
    assert_eq!(parsed.id, "edited");
    assert_eq!(parsed.labels, vec![s("a"), s("b")]);
    assert_eq!(parsed.last_date, "Mon, 1 Jan 2024 00:00:00 +0000");
}

//! Thread / Markdown codec: a bidirectional mapping between [`Thread`]
//! values and their Markdown text form.
//!
//! The layout is fixed: an H1 subject line, a blank line, four metadata
//! lines of the form `**Key**: value`, a blank line, and one section per
//! message opened by `---` and a `## from — date` header.

#![verifier::loop_isolation(false)]

use vstd::prelude::*;
use vstd::string::StrSliceExecFns;

use crate::strutil::{
    chars_string, is_wsp, join_ch, join_chars, lower_of, split_ch, split_chars, str_chars,
    trim_chars, trim_spec, views,
};
use crate::types::{msg_views, strs, Message, MessageView, Thread, ThreadView};
use crate::util::strip_reply_prefix;

verus! {

// ---------------------------------------------------------------------
// Line-level spec functions
// ---------------------------------------------------------------------

/// The lines of a text, split at every newline.
pub open spec fn lines_of(text: Seq<char>) -> Seq<Seq<char>> {
    split_ch(text, '\n')
}

/// An H1 heading line: `# ` followed by the subject.
pub open spec fn is_h1(l: Seq<char>) -> bool {
    l.len() >= 2 && l[0] == '#' && l[1] == ' '
}

/// The trimmed text of an H1 heading line.
pub open spec fn h1_text(l: Seq<char>) -> Seq<char> {
    trim_spec(l.subrange(2, l.len() as int))
}

/// The trimmed text of the first H1 heading line, if any.
pub open spec fn first_h1(ls: Seq<Seq<char>>) -> Option<Seq<char>>
    decreases ls.len(),
{
    if ls.len() == 0 {
        None
    } else if is_h1(ls[0]) {
        Some(h1_text(ls[0]))
    } else {
        first_h1(ls.drop_first())
    }
}

/// A `**:` key terminator at position `i` of a line.
pub open spec fn meta_sep_at(l: Seq<char>, i: int) -> bool {
    0 <= i && i + 3 <= l.len() && l[i] == '*' && l[i + 1] == '*' && l[i + 2] == ':'
}

/// The first `**:` at or after position `i`, or -1.
pub open spec fn first_meta_sep_from(l: Seq<char>, i: int) -> int
    decreases l.len() - i,
{
    if i < 0 || i + 3 > l.len() {
        -1
    } else if meta_sep_at(l, i) {
        i
    } else {
        first_meta_sep_from(l, i + 1)
    }
}

/// A metadata line `**key**: value`: the key is everything up to the
/// first `**:`, the value is the trimmed remainder, which must not be
/// absent altogether.
pub open spec fn meta_parse(l: Seq<char>) -> Option<(Seq<char>, Seq<char>)> {
    if l.len() >= 2 && l[0] == '*' && l[1] == '*' {
        let i = first_meta_sep_from(l, 3);
        if i >= 0 && i + 3 < l.len() {
            Some((l.subrange(2, i), trim_spec(l.subrange(i + 3, l.len() as int))))
        } else {
            None
        }
    } else {
        None
    }
}

/// The value of the last metadata line carrying `key`, if any.
pub open spec fn meta_value(ls: Seq<Seq<char>>, key: Seq<char>) -> Option<Seq<char>>
    decreases ls.len(),
{
    if ls.len() == 0 {
        None
    } else {
        match meta_parse(ls.last()) {
            Some(kv) => if kv.0 == key {
                Some(kv.1)
            } else {
                meta_value(ls.drop_last(), key)
            },
            None => meta_value(ls.drop_last(), key),
        }
    }
}

/// A ` — ` separator (space, em dash, space) at position `j` of a line.
pub open spec fn hdr_sep_at(l: Seq<char>, j: int) -> bool {
    0 <= j && j + 3 <= l.len() && l[j] == ' ' && l[j + 1] == '\u{2014}' && l[j + 2] == ' '
}

/// The first ` — ` at or after position `j` that leaves a non-empty
/// date behind it, or -1.
pub open spec fn first_hdr_sep_from(l: Seq<char>, j: int) -> int
    decreases l.len() - j,
{
    if j < 0 || j + 3 >= l.len() {
        -1
    } else if hdr_sep_at(l, j) {
        j
    } else {
        first_hdr_sep_from(l, j + 1)
    }
}

/// A message header line `## from — date`: sender and date split at the
/// first em-dash separator, both non-empty.
pub open spec fn hdr_parse(l: Seq<char>) -> Option<(Seq<char>, Seq<char>)> {
    if l.len() >= 3 && l[0] == '#' && l[1] == '#' && l[2] == ' ' {
        let j = first_hdr_sep_from(l, 4);
        if j >= 0 {
            Some((l.subrange(3, j), l.subrange(j + 3, l.len() as int)))
        } else {
            None
        }
    } else {
        None
    }
}

/// The thread key a subject line yields.
pub open spec fn thread_key_spec(subject: Seq<char>) -> Seq<char> {
    strip_reply_prefix(lower_of(trim_spec(subject)))
}

/// The `Labels` metadata key.
pub open spec fn key_labels() -> Seq<char> {
    seq!['L', 'a', 'b', 'e', 'l', 's']
}

/// The `Accounts` metadata key.
pub open spec fn key_accounts() -> Seq<char> {
    seq!['A', 'c', 'c', 'o', 'u', 'n', 't', 's']
}

/// The `Thread ID` metadata key.
pub open spec fn key_thread_id() -> Seq<char> {
    seq!['T', 'h', 'r', 'e', 'a', 'd', ' ', 'I', 'D']
}

/// The `Last updated` metadata key.
pub open spec fn key_last_updated() -> Seq<char> {
    seq!['L', 'a', 's', 't', ' ', 'u', 'p', 'd', 'a', 't', 'e', 'd']
}

/// The `---` section separator line.
pub open spec fn dashes() -> Seq<char> {
    seq!['-', '-', '-']
}

/// Trim every part and drop those left empty: how a comma-joined list
/// is read back.
pub open spec fn trim_nonempty(parts: Seq<Seq<char>>) -> Seq<Seq<char>>
    decreases parts.len(),
{
    if parts.len() == 0 {
        Seq::empty()
    } else {
        let rest = trim_nonempty(parts.drop_first());
        if trim_spec(parts[0]).len() > 0 {
            seq![trim_spec(parts[0])] + rest
        } else {
            rest
        }
    }
}

/// A comma-separated list value, split, trimmed, empties dropped.
pub open spec fn split_list(v: Seq<char>) -> Seq<Seq<char>> {
    trim_nonempty(split_ch(v, ','))
}

/// One decoded message.
pub open spec fn mk_msg(
    subject: Seq<char>,
    from: Seq<char>,
    date: Seq<char>,
    bodylines: Seq<Seq<char>>,
) -> MessageView {
    MessageView {
        id: Seq::empty(),
        thread_id: thread_key_spec(subject),
        from: from,
        date: date,
        subject: subject,
        body: trim_spec(join_ch(bodylines, '\n')),
    }
}

/// The fold that walks the lines and cuts them into message sections:
/// a header line closes the open section and opens a new one; other
/// lines except bare `---` belong to the open section's body.
pub open spec fn msgs_fold(
    ls: Seq<Seq<char>>,
    subject: Seq<char>,
    cur: Option<(Seq<char>, Seq<char>, Seq<Seq<char>>)>,
) -> Seq<MessageView>
    decreases ls.len(),
{
    if ls.len() == 0 {
        match cur {
            None => Seq::empty(),
            Some(c) => seq![mk_msg(subject, c.0, c.1, c.2)],
        }
    } else {
        let l = ls[0];
        match hdr_parse(l) {
            Some(fd) => {
                let opened = Some((fd.0, fd.1, Seq::<Seq<char>>::empty()));
                match cur {
                    None => msgs_fold(ls.drop_first(), subject, opened),
                    Some(c) => seq![mk_msg(subject, c.0, c.1, c.2)] + msgs_fold(
                        ls.drop_first(),
                        subject,
                        opened,
                    ),
                }
            },
            None => match cur {
                None => msgs_fold(ls.drop_first(), subject, None),
                Some(c) => if trim_spec(l) == dashes() {
                    msgs_fold(ls.drop_first(), subject, cur)
                } else {
                    msgs_fold(ls.drop_first(), subject, Some((c.0, c.1, c.2.push(l))))
                },
            },
        }
    }
}

/// What decoding a Markdown text yields: `None` when no H1 heading with
/// non-empty text opens the file, otherwise the thread value read from
/// the metadata lines and message sections.
pub open spec fn decode_spec(text: Seq<char>) -> Option<ThreadView> {
    let ls = lines_of(text);
    match first_h1(ls) {
        None => None,
        Some(subj) => if subj.len() == 0 {
            None
        } else {
            Some(
                ThreadView {
                    id: match meta_value(ls, key_thread_id()) {
                        Some(v) => v,
                        None => Seq::empty(),
                    },
                    subject: subj,
                    labels: match meta_value(ls, key_labels()) {
                        Some(v) => split_list(v),
                        None => Seq::empty(),
                    },
                    accounts: match meta_value(ls, key_accounts()) {
                        Some(v) => split_list(v),
                        None => Seq::empty(),
                    },
                    messages: msgs_fold(ls, subj, None),
                    last_date: match meta_value(ls, key_last_updated()) {
                        Some(v) => v,
                        None => Seq::empty(),
                    },
                },
            )
        },
    }
}

// ---------------------------------------------------------------------
// Encoding
// ---------------------------------------------------------------------

/// Comma-space joining of a list value.
pub open spec fn join_list(parts: Seq<Seq<char>>) -> Seq<char>
    decreases parts.len(),
{
    if parts.len() == 0 {
        Seq::empty()
    } else if parts.len() == 1 {
        parts[0]
    } else {
        parts[0] + seq![',', ' '] + join_list(parts.drop_first())
    }
}

/// The `**key**: value` metadata line for a key and a raw value.
pub open spec fn meta_line(key: Seq<char>, value: Seq<char>) -> Seq<char> {
    seq!['*', '*'] + key + seq!['*', '*', ':', ' '] + value
}

/// The `## from — date` header line of one message.
pub open spec fn hdr_line(m: MessageView) -> Seq<char> {
    seq!['#', '#', ' '] + m.from + seq![' ', '\u{2014}', ' '] + m.date
}

/// The six text blocks one message contributes.
pub open spec fn msg_parts(m: MessageView) -> Seq<Seq<char>> {
    seq![
        dashes(),
        Seq::<char>::empty(),
        hdr_line(m),
        Seq::<char>::empty(),
        trim_spec(m.body),
        Seq::<char>::empty(),
    ]
}

/// The text blocks of all messages, in order.
pub open spec fn msgs_parts(ms: Seq<MessageView>) -> Seq<Seq<char>>
    decreases ms.len(),
{
    if ms.len() == 0 {
        Seq::empty()
    } else {
        msg_parts(ms[0]) + msgs_parts(ms.drop_first())
    }
}

/// The text blocks of a whole thread: heading, metadata, then messages.
/// Joined with newlines they form the file; a message body may span
/// several lines inside its one block.
pub open spec fn encode_parts(t: ThreadView) -> Seq<Seq<char>> {
    seq![
        seq!['#', ' '] + t.subject,
        Seq::<char>::empty(),
        meta_line(key_labels(), join_list(t.labels)),
        meta_line(key_accounts(), join_list(t.accounts)),
        meta_line(key_thread_id(), t.id),
        meta_line(key_last_updated(), t.last_date),
        Seq::<char>::empty(),
    ] + msgs_parts(t.messages)
}

/// The Markdown text of a thread.
pub open spec fn encode_spec(t: ThreadView) -> Seq<char> {
    join_ch(encode_parts(t), '\n')
}

proof fn lemma_msgs_parts_push(ms: Seq<MessageView>, m: MessageView)
    ensures
        msgs_parts(ms.push(m)) == msgs_parts(ms) + msg_parts(m),
    decreases ms.len(),
{
    if ms.len() == 0 {
        assert(ms.push(m).drop_first() =~= Seq::<MessageView>::empty());
        assert(msgs_parts(Seq::<MessageView>::empty()) =~= Seq::<Seq<char>>::empty());
        assert(msgs_parts(ms.push(m)) =~= msg_parts(m));
        assert(msgs_parts(ms) + msg_parts(m) =~= msg_parts(m));
    } else {
        lemma_msgs_parts_push(ms.drop_first(), m);
        assert(ms.push(m).drop_first() =~= ms.drop_first().push(m));
        assert(msgs_parts(ms.push(m)) =~= msgs_parts(ms) + msg_parts(m));
    }
}

/// Append the characters of a string slice to a character vector.
fn push_str_chars(v: &mut Vec<char>, s: &str)
    ensures
        final(v)@ == old(v)@ + s@,
{
    let n = s.unicode_len();
    let mut i: usize = 0;
    while i < n
        invariant
            0 <= i <= n,
            n == s@.len(),
            v@ == old(v)@ + s@.subrange(0, i as int),
        decreases n - i,
    {
        v.push(s.get_char(i));
        proof {
            assert(old(v)@ + s@.subrange(0, i as int) + seq![s@[i as int]] =~= old(v)@
                + s@.subrange(0, i + 1 as int));
        }
        i = i + 1;
    }
    proof {
        assert(old(v)@ + s@.subrange(0, n as int) =~= old(v)@ + s@);
    }
}

/// The comma-space joined character vector of a string list.
fn join_list_chars(items: &Vec<String>) -> (r: Vec<char>)
    ensures
        r@ == join_list(strs(items@)),
{
    let mut r: Vec<char> = Vec::new();
    let n = items.len();
    let mut i: usize = 0;
    proof {
        assert(strs(items@).subrange(0, 0) =~= Seq::<Seq<char>>::empty());
    }
    while i < n
        invariant
            0 <= i <= n,
            n == items.len(),
            r@ == join_list(strs(items@).subrange(0, i as int)),
        decreases n - i,
    {
        if i > 0 {
            r.push(',');
            r.push(' ');
        }
        push_str_chars(&mut r, items[i].as_str());
        proof {
            lemma_join_list_push(strs(items@).subrange(0, i as int), strs(items@)[i as int]);
            assert(strs(items@).subrange(0, i as int).push(strs(items@)[i as int]) =~= strs(
                items@,
            ).subrange(0, i + 1 as int));
        }
        i = i + 1;
    }
    proof {
        assert(strs(items@).subrange(0, n as int) =~= strs(items@));
    }
    r
}

proof fn lemma_join_list_push(parts: Seq<Seq<char>>, p: Seq<char>)
    ensures
        parts.len() == 0 ==> join_list(parts.push(p)) == p,
        parts.len() > 0 ==> join_list(parts.push(p)) == join_list(parts) + seq![',', ' '] + p,
    decreases parts.len(),
{
    let w = parts.push(p);
    if parts.len() == 0 {
        assert(w =~= seq![p]);
    } else if parts.len() == 1 {
        assert(w.drop_first() =~= seq![p]);
        assert(join_list(w) == w[0] + seq![',', ' '] + join_list(w.drop_first()));
    } else {
        lemma_join_list_push(parts.drop_first(), p);
        assert(w.drop_first() =~= parts.drop_first().push(p));
        assert(join_list(w) =~= join_list(parts) + seq![',', ' '] + p);
    }
}

/// The `**key**: value` line as characters, for a key given as a
/// literal.
fn meta_line_chars(key: &str, value: &Vec<char>) -> (r: Vec<char>)
    ensures
        r@ == meta_line(key@, value@),
{
    let mut r: Vec<char> = Vec::new();
    r.push('*');
    r.push('*');
    push_str_chars(&mut r, key);
    r.push('*');
    r.push('*');
    r.push(':');
    r.push(' ');
    let n = value.len();
    let mut i: usize = 0;
    while i < n
        invariant
            0 <= i <= n,
            n == value.len(),
            r@ == seq!['*', '*'] + key@ + seq!['*', '*', ':', ' '] + value@.subrange(0, i as int),
        decreases n - i,
    {
        r.push(value[i]);
        proof {
            assert(seq!['*', '*'] + key@ + seq!['*', '*', ':', ' '] + value@.subrange(0, i as int)
                + seq![value@[i as int]] =~= seq!['*', '*'] + key@ + seq!['*', '*', ':', ' ']
                + value@.subrange(0, i + 1 as int));
        }
        i = i + 1;
    }
    proof {
        assert(seq!['*', '*'] + key@ + seq!['*', '*', ':', ' '] + value@.subrange(0, n as int)
            =~= meta_line(key@, value@));
    }
    r
}

/// Serialize a thread to its Markdown text.
pub fn thread_to_markdown(thread: &Thread) -> (r: String)
    ensures
        r@ == encode_spec(thread@),
{
    let mut parts: Vec<Vec<char>> = Vec::new();

    let mut subject_line: Vec<char> = Vec::new();
    subject_line.push('#');
    subject_line.push(' ');
    push_str_chars(&mut subject_line, thread.subject.as_str());
    parts.push(subject_line);

    parts.push(Vec::new());

    let labels_joined = join_list_chars(&thread.labels);
    let lab_line = meta_line_chars("Labels", &labels_joined);
    proof {
        reveal_strlit("Labels");
        assert("Labels"@ =~= key_labels());
    }
    parts.push(lab_line);

    let accounts_joined = join_list_chars(&thread.accounts);
    let acc_line = meta_line_chars("Accounts", &accounts_joined);
    proof {
        reveal_strlit("Accounts");
        assert("Accounts"@ =~= key_accounts());
    }
    parts.push(acc_line);

    let idv = str_chars(thread.id.as_str());
    let id_line = meta_line_chars("Thread ID", &idv);
    proof {
        reveal_strlit("Thread ID");
        assert("Thread ID"@ =~= key_thread_id());
    }
    parts.push(id_line);

    let datev = str_chars(thread.last_date.as_str());
    let upd_line = meta_line_chars("Last updated", &datev);
    proof {
        reveal_strlit("Last updated");
        assert("Last updated"@ =~= key_last_updated());
    }
    parts.push(upd_line);

    parts.push(Vec::new());

    proof {
        assert(views(parts@) =~~= encode_parts(thread@).subrange(0, 7));
        assert(msg_views(thread.messages@).subrange(0, 0) =~= Seq::<MessageView>::empty());
        assert(msgs_parts(Seq::<MessageView>::empty()) =~= Seq::<Seq<char>>::empty());
        assert(views(parts@) =~~= encode_parts(thread@).subrange(0, 7) + msgs_parts(
            msg_views(thread.messages@).subrange(0, 0),
        ));
    }

    let nmsg = thread.messages.len();
    let mut i: usize = 0;
    while i < nmsg
        invariant
            0 <= i <= nmsg,
            nmsg == thread.messages.len(),
            views(parts@) == encode_parts(thread@).subrange(0, 7) + msgs_parts(
                msg_views(thread.messages@).subrange(0, i as int),
            ),
        decreases nmsg - i,
    {
        let m = &thread.messages[i];
        let ghost old_pv = views(parts@);

        let mut dash_line: Vec<char> = Vec::new();
        dash_line.push('-');
        dash_line.push('-');
        dash_line.push('-');
        parts.push(dash_line);

        parts.push(Vec::new());

        let mut header: Vec<char> = Vec::new();
        header.push('#');
        header.push('#');
        header.push(' ');
        push_str_chars(&mut header, m.from.as_str());
        header.push(' ');
        header.push('\u{2014}');
        header.push(' ');
        push_str_chars(&mut header, m.date.as_str());
        proof {
            assert(header@ =~= hdr_line(m@));
        }
        parts.push(header);

        parts.push(Vec::new());

        let bodyv = str_chars(m.body.as_str());
        let body_trimmed = trim_chars(&bodyv);
        parts.push(body_trimmed);

        parts.push(Vec::new());

        proof {
            let mvs = msg_views(thread.messages@);
            assert(mvs[i as int] == m@);
            assert(views(parts@) =~~= old_pv + msg_parts(mvs[i as int]));
            lemma_msgs_parts_push(mvs.subrange(0, i as int), mvs[i as int]);
            assert(mvs.subrange(0, i as int).push(mvs[i as int]) =~= mvs.subrange(0, i + 1 as int));
            assert(views(parts@) =~= encode_parts(thread@).subrange(0, 7) + msgs_parts(
                mvs.subrange(0, i + 1 as int),
            ));
        }
        i = i + 1;
    }
    proof {
        assert(msg_views(thread.messages@).subrange(0, nmsg as int) =~= msg_views(
            thread.messages@,
        ));
        assert(encode_parts(thread@).subrange(0, 7) + msgs_parts(msg_views(thread.messages@))
            =~~= encode_parts(thread@));
    }
    let joined = join_chars(&parts, '\n');
    chars_string(&joined)
}

// ---------------------------------------------------------------------
// Decoding
// ---------------------------------------------------------------------

/// The view of an optional thread.
pub open spec fn thread_opt_view(r: Option<Thread>) -> Option<ThreadView> {
    match r {
        Some(t) => Some(t@),
        None => None,
    }
}

/// A copy of the characters between two positions.
pub(crate) fn slice_chars(v: &Vec<char>, a: usize, b: usize) -> (r: Vec<char>)
    requires
        a <= b <= v@.len(),
    ensures
        r@ == v@.subrange(a as int, b as int),
{
    let mut r: Vec<char> = Vec::new();
    let mut k: usize = a;
    while k < b
        invariant
            a <= k <= b,
            r@ == v@.subrange(a as int, k as int),
        decreases b - k,
    {
        r.push(v[k]);
        assert(r@ =~= v@.subrange(a as int, k + 1 as int));
        k = k + 1;
    }
    r
}

/// The first `**:` key terminator of a line, scanning from position 3.
fn meta_sep_index(l: &Vec<char>) -> (r: Option<usize>)
    ensures
        match r {
            Some(i) => first_meta_sep_from(l@, 3) == i as int && 3 <= i && i + 3 <= l@.len(),
            None => first_meta_sep_from(l@, 3) == -1,
        },
{
    let n = l.len();
    let mut i: usize = 3;
    while n >= 3 && i <= n - 3
        invariant
            3 <= i,
            n == l@.len(),
            first_meta_sep_from(l@, 3) == first_meta_sep_from(l@, i as int),
        decreases n - i,
    {
        if l[i] == '*' && l[i + 1] == '*' && l[i + 2] == ':' {
            return Some(i);
        }
        i = i + 1;
    }
    None
}

/// Parse one line as `**key**: value`.
pub(crate) fn meta_parse_line(l: &Vec<char>) -> (r: Option<(Vec<char>, Vec<char>)>)
    ensures
        match r {
            Some(kv) => meta_parse(l@) == Some((kv.0@, kv.1@)),
            None => meta_parse(l@) is None,
        },
{
    let n = l.len();
    if n >= 2 && l[0] == '*' && l[1] == '*' {
        match meta_sep_index(l) {
            Some(i) => {
                if i + 3 < n {
                    let key = slice_chars(l, 2, i);
                    let raw = slice_chars(l, i + 3, n);
                    let value = trim_chars(&raw);
                    Some((key, value))
                } else {
                    None
                }
            },
            None => None,
        }
    } else {
        None
    }
}

/// The first ` — ` separator of a line, scanning from position 4 and
/// demanding a non-empty date after it.
fn hdr_sep_index(l: &Vec<char>) -> (r: Option<usize>)
    ensures
        match r {
            Some(j) => first_hdr_sep_from(l@, 4) == j as int && 4 <= j && j + 3 < l@.len(),
            None => first_hdr_sep_from(l@, 4) == -1,
        },
{
    let n = l.len();
    let mut j: usize = 4;
    while n >= 4 && j <= n - 4
        invariant
            4 <= j,
            n == l@.len(),
            first_hdr_sep_from(l@, 4) == first_hdr_sep_from(l@, j as int),
        decreases n - j,
    {
        if l[j] == ' ' && l[j + 1] == '\u{2014}' && l[j + 2] == ' ' {
            return Some(j);
        }
        j = j + 1;
    }
    None
}

/// Parse one line as a `## from — date` message header.
fn hdr_parse_line(l: &Vec<char>) -> (r: Option<(Vec<char>, Vec<char>)>)
    ensures
        match r {
            Some(fd) => hdr_parse(l@) == Some((fd.0@, fd.1@)),
            None => hdr_parse(l@) is None,
        },
{
    let n = l.len();
    if n >= 3 && l[0] == '#' && l[1] == '#' && l[2] == ' ' {
        match hdr_sep_index(l) {
            Some(j) => {
                let from = slice_chars(l, 3, j);
                let date = slice_chars(l, j + 3, n);
                Some((from, date))
            },
            None => None,
        }
    } else {
        None
    }
}

/// The value of the last metadata line carrying `key`.
fn meta_lookup(lines: &Vec<Vec<char>>, key: &str) -> (r: Option<Vec<char>>)
    ensures
        match r {
            Some(v) => meta_value(views(lines@), key@) == Some(v@),
            None => meta_value(views(lines@), key@) is None,
        },
{
    let kv = str_chars(key);
    let mut best: Option<Vec<char>> = None;
    let n = lines.len();
    let mut i: usize = 0;
    proof {
        assert(views(lines@).subrange(0, 0) =~= Seq::<Seq<char>>::empty());
    }
    while i < n
        invariant
            0 <= i <= n,
            n == lines.len(),
            kv@ == key@,
            match best {
                Some(v) => meta_value(views(lines@).subrange(0, i as int), key@) == Some(v@),
                None => meta_value(views(lines@).subrange(0, i as int), key@) is None,
            },
        decreases n - i,
    {
        proof {
            let pre = views(lines@).subrange(0, i as int);
            let cur = views(lines@).subrange(0, i + 1 as int);
            assert(cur.drop_last() =~= pre);
            assert(cur.last() == lines@[i as int]@);
        }
        match meta_parse_line(&lines[i]) {
            Some(kvpair) => {
                if crate::strutil::chars_eq(&kvpair.0, &kv) {
                    best = Some(kvpair.1);
                }
            },
            None => {},
        }
        i = i + 1;
    }
    proof {
        assert(views(lines@).subrange(0, n as int) =~= views(lines@));
    }
    best
}

/// Split a comma-separated list value into its trimmed, non-empty
/// entries.
fn split_list_strings(v: &Vec<char>) -> (r: Vec<String>)
    ensures
        strs(r@) == split_list(v@),
{
    let parts = split_chars(v, ',');
    let mut out: Vec<String> = Vec::new();
    let n = parts.len();
    let mut i: usize = 0;
    proof {
        assert(views(parts@).subrange(0, n as int) =~= views(parts@));
        assert(strs(out@) =~= Seq::<Seq<char>>::empty());
        assert(strs(out@) + trim_nonempty(views(parts@)) =~= trim_nonempty(views(parts@)));
    }
    while i < n
        invariant
            0 <= i <= n,
            n == parts.len(),
            trim_nonempty(views(parts@)) == strs(out@) + trim_nonempty(
                views(parts@).subrange(i as int, n as int),
            ),
        decreases n - i,
    {
        proof {
            assert(views(parts@).subrange(i as int, n as int).drop_first() =~= views(
                parts@,
            ).subrange(i + 1, n as int));
        }
        let ghost old_out = strs(out@);
        let t = trim_chars(&parts[i]);
        if t.len() > 0 {
            out.push(chars_string(&t));
            proof {
                assert(strs(out@) =~= old_out + seq![t@]);
                assert(old_out + seq![t@] + trim_nonempty(
                    views(parts@).subrange(i + 1, n as int),
                ) =~= old_out + (seq![t@] + trim_nonempty(
                    views(parts@).subrange(i + 1, n as int),
                )));
            }
        }
        i = i + 1;
    }
    proof {
        assert(views(parts@).subrange(n as int, n as int) =~= Seq::<Seq<char>>::empty());
        assert(strs(out@) + Seq::<Seq<char>>::empty() =~= strs(out@));
    }
    out
}

/// The ghost state of the message scanner.
pub open spec fn scan_state(
    have: bool,
    from: Seq<char>,
    date: Seq<char>,
    body: Seq<Seq<char>>,
) -> Option<(Seq<char>, Seq<char>, Seq<Seq<char>>)> {
    if have {
        Some((from, date, body))
    } else {
        None
    }
}

/// Close the open message section into a message value.
fn make_message(
    subject: &String,
    from: &Vec<char>,
    date: &Vec<char>,
    body: &Vec<Vec<char>>,
) -> (m: Message)
    ensures
        m@ == mk_msg(subject@, from@, date@, views(body@)),
{
    let joined = join_chars(body, '\n');
    let trimmed = trim_chars(&joined);
    Message {
        id: String::new(),
        thread_id: crate::util::thread_key_from_subject(subject.as_str()),
        from: chars_string(from),
        date: chars_string(date),
        subject: subject.clone(),
        body: chars_string(&trimmed),
    }
}

/// Parse a conversation Markdown text back into a thread.
///
/// Returns `None` exactly when the text has no H1 heading or its first
/// heading trims to nothing; missing metadata decodes to empty fields.
pub fn parse_thread_markdown(text: &str) -> (r: Option<Thread>)
    ensures
        thread_opt_view(r) == decode_spec(text@),
{
    let tv = str_chars(text);
    let lines = split_chars(&tv, '\n');
    let ghost ls = lines_of(text@);
    let n = lines.len();
    proof {
        assert(views(lines@) == ls);
        assert(ls.subrange(0, n as int) =~= ls);
    }

    let mut k: usize = 0;
    let mut have_subject = false;
    let mut subject_chars: Vec<char> = Vec::new();
    while k < n && !have_subject
        invariant
            0 <= k <= n,
            n == lines.len(),
            !have_subject ==> first_h1(ls) == first_h1(ls.subrange(k as int, n as int)),
            have_subject ==> first_h1(ls) == Some(subject_chars@),
        decreases n - k + (if have_subject { 0int } else { 1int }),
    {
        let l = &lines[k];
        proof {
            assert(ls.subrange(k as int, n as int)[0] == ls[k as int]);
            assert(ls.subrange(k as int, n as int).drop_first() =~= ls.subrange(k + 1, n as int));
        }
        if l.len() >= 2 && l[0] == '#' && l[1] == ' ' {
            let tail = slice_chars(l, 2, l.len());
            subject_chars = trim_chars(&tail);
            have_subject = true;
        } else {
            k = k + 1;
        }
    }
    if !have_subject {
        proof {
            assert(ls.subrange(n as int, n as int) =~= Seq::<Seq<char>>::empty());
        }
        return None;
    }
    if subject_chars.len() == 0 {
        return None;
    }
    let subject = chars_string(&subject_chars);

    proof {
        reveal_strlit("Thread ID");
        assert("Thread ID"@ =~= key_thread_id());
        reveal_strlit("Labels");
        assert("Labels"@ =~= key_labels());
        reveal_strlit("Accounts");
        assert("Accounts"@ =~= key_accounts());
        reveal_strlit("Last updated");
        assert("Last updated"@ =~= key_last_updated());
    }
    let thread_id = match meta_lookup(&lines, "Thread ID") {
        Some(v) => chars_string(&v),
        None => String::new(),
    };
    let last_date = match meta_lookup(&lines, "Last updated") {
        Some(v) => chars_string(&v),
        None => String::new(),
    };
    let labels = match meta_lookup(&lines, "Labels") {
        Some(v) => split_list_strings(&v),
        None => Vec::new(),
    };
    let accounts = match meta_lookup(&lines, "Accounts") {
        Some(v) => split_list_strings(&v),
        None => Vec::new(),
    };

    let mut msgs: Vec<Message> = Vec::new();
    let mut have_cur = false;
    let mut cur_from: Vec<char> = Vec::new();
    let mut cur_date: Vec<char> = Vec::new();
    let mut cur_body: Vec<Vec<char>> = Vec::new();
    let mut i: usize = 0;
    proof {
        assert(ls.subrange(0, n as int) =~= ls);
        assert(msg_views(msgs@) =~= Seq::<MessageView>::empty());
    }
    while i < n
        invariant
            0 <= i <= n,
            n == lines.len(),
            subject@ == subject_chars@,
            msgs_fold(ls, subject@, None) == msg_views(msgs@) + msgs_fold(
                ls.subrange(i as int, n as int),
                subject@,
                scan_state(have_cur, cur_from@, cur_date@, views(cur_body@)),
            ),
        decreases n - i,
    {
        proof {
            assert(ls.subrange(i as int, n as int)[0] == ls[i as int]);
            assert(ls.subrange(i as int, n as int).drop_first() =~= ls.subrange(i + 1, n as int));
        }
        let ghost old_msgs = msg_views(msgs@);
        match hdr_parse_line(&lines[i]) {
            Some(fd) => {
                if have_cur {
                    let m = make_message(&subject, &cur_from, &cur_date, &cur_body);
                    msgs.push(m);
                    proof {
                        assert(msg_views(msgs@) =~= old_msgs + seq![
                            mk_msg(subject@, cur_from@, cur_date@, views(cur_body@)),
                        ]);
                    }
                }
                cur_from = fd.0;
                cur_date = fd.1;
                cur_body = Vec::new();
                have_cur = true;
                proof {
                    assert(views(cur_body@) =~= Seq::<Seq<char>>::empty());
                }
            },
            None => {
                if have_cur {
                    let t = trim_chars(&lines[i]);
                    let is_dashes = t.len() == 3 && t[0] == '-' && t[1] == '-' && t[2] == '-';
                    proof {
                        if is_dashes {
                            assert(t@ =~= dashes());
                        } else {
                            assert(t@ != dashes());
                        }
                    }
                    if !is_dashes {
                        let ghost old_body = views(cur_body@);
                        let lcopy = slice_chars(&lines[i], 0, lines[i].len());
                        proof {
                            assert(lcopy@ =~= ls[i as int]);
                        }
                        cur_body.push(lcopy);
                        proof {
                            assert(views(cur_body@) =~= old_body.push(ls[i as int]));
                        }
                    }
                }
            },
        }
        i = i + 1;
    }
    proof {
        assert(ls.subrange(n as int, n as int) =~= Seq::<Seq<char>>::empty());
    }
    if have_cur {
        let m = make_message(&subject, &cur_from, &cur_date, &cur_body);
        let ghost old_msgs = msg_views(msgs@);
        msgs.push(m);
        proof {
            assert(msg_views(msgs@) =~= old_msgs + seq![
                mk_msg(subject@, cur_from@, cur_date@, views(cur_body@)),
            ]);
        }
    }
    proof {
        assert(msg_views(msgs@) + Seq::<MessageView>::empty() =~= msg_views(msgs@));
    }

    let th = Thread {
        id: thread_id,
        subject: subject,
        labels: labels,
        accounts: accounts,
        messages: msgs,
        last_date: last_date,
    };
    proof {
        assert(decode_spec(text@) is Some);
        let dv = decode_spec(text@).unwrap();
        assert(th@.id =~= dv.id);
        assert(th@.subject =~= dv.subject);
        assert(th@.labels =~= dv.labels);
        assert(th@.accounts =~= dv.accounts);
        assert(th@.last_date =~= dv.last_date);
        assert(th@.messages =~= dv.messages);
        assert(th@ == dv);
    }
    Some(th)
}

// ---------------------------------------------------------------------
// Round-trip: well-formedness and line structure
// ---------------------------------------------------------------------

/// A single line: no newline inside.
pub open spec fn line_ok(l: Seq<char>) -> bool {
    forall|k: int| 0 <= k < l.len() ==> l[k] != '\n'
}

/// A metadata value that survives the codec: one line, equal to its own
/// trim.  It may be empty.
pub open spec fn plain_value_ok(v: Seq<char>) -> bool {
    line_ok(v) && trim_spec(v) == v
}

/// A label or account entry: non-empty, one line, self-trimmed, without
/// commas.
pub open spec fn list_item_ok(x: Seq<char>) -> bool {
    &&& x.len() > 0
    &&& line_ok(x)
    &&& trim_spec(x) == x
    &&& forall|k: int| 0 <= k < x.len() ==> x[k] != ','
}

/// The ` — ` header separator.
pub open spec fn hdr_sep() -> Seq<char> {
    seq![' ', '\u{2014}', ' ']
}

/// A sender that decodes back unchanged: non-empty, one line, and the
/// first ` — ` of `from — …` is the one the codec wrote.
pub open spec fn from_ok(f: Seq<char>) -> bool {
    &&& f.len() > 0
    &&& line_ok(f)
    &&& forall|p: int| 0 <= p < f.len() ==> !hdr_sep_at(f + hdr_sep(), p)
}

/// A body line that decodes back into the same message: neither a
/// message header, nor a bare `---`, nor a metadata line carrying one of
/// the four reserved keys.
pub open spec fn body_line_ok(l: Seq<char>) -> bool {
    &&& hdr_parse(l) is None
    &&& trim_spec(l) != dashes()
    &&& match meta_parse(l) {
        Some(kv) => kv.0 != key_labels() && kv.0 != key_accounts() && kv.0 != key_thread_id()
            && kv.0 != key_last_updated(),
        None => true,
    }
}

/// A message body that survives the codec: self-trimmed, every line
/// harmless.
pub open spec fn body_ok(b: Seq<char>) -> bool {
    &&& trim_spec(b) == b
    &&& forall|i: int|
        0 <= i < split_ch(b, '\n').len() ==> body_line_ok(#[trigger] split_ch(b, '\n')[i])
}

/// A message that survives the codec.
pub open spec fn msg_ok(m: MessageView) -> bool {
    &&& from_ok(m.from)
    &&& m.date.len() > 0
    &&& line_ok(m.date)
    &&& body_ok(m.body)
}

/// A thread value the codec reproduces: non-empty self-trimmed one-line
/// subject, plain metadata values, well-formed list entries and
/// messages.
pub open spec fn codec_wf(t: ThreadView) -> bool {
    &&& t.subject.len() > 0
    &&& line_ok(t.subject)
    &&& trim_spec(t.subject) == t.subject
    &&& plain_value_ok(t.id)
    &&& plain_value_ok(t.last_date)
    &&& forall|i: int| 0 <= i < t.labels.len() ==> list_item_ok(#[trigger] t.labels[i])
    &&& forall|i: int| 0 <= i < t.accounts.len() ==> list_item_ok(#[trigger] t.accounts[i])
    &&& forall|i: int| 0 <= i < t.messages.len() ==> msg_ok(#[trigger] t.messages[i])
}

/// The lines one encoded message occupies.
pub open spec fn msg_lines(m: MessageView) -> Seq<Seq<char>> {
    seq![dashes(), Seq::<char>::empty(), hdr_line(m), Seq::<char>::empty()] + split_ch(
        trim_spec(m.body),
        '\n',
    ) + seq![Seq::<char>::empty()]
}

/// The lines of all encoded messages.
pub open spec fn msgs_lines(ms: Seq<MessageView>) -> Seq<Seq<char>>
    decreases ms.len(),
{
    if ms.len() == 0 {
        Seq::empty()
    } else {
        msg_lines(ms[0]) + msgs_lines(ms.drop_first())
    }
}

/// The seven heading and metadata lines of an encoded thread.
pub open spec fn header_lines(t: ThreadView) -> Seq<Seq<char>> {
    seq![
        seq!['#', ' '] + t.subject,
        Seq::<char>::empty(),
        meta_line(key_labels(), join_list(t.labels)),
        meta_line(key_accounts(), join_list(t.accounts)),
        meta_line(key_thread_id(), t.id),
        meta_line(key_last_updated(), t.last_date),
        Seq::<char>::empty(),
    ]
}

/// The full line sequence of an encoded thread.
pub open spec fn enc_lines(t: ThreadView) -> Seq<Seq<char>> {
    header_lines(t) + msgs_lines(t.messages)
}

/// Splitting each part of a non-empty part list.
pub open spec fn split_all(parts: Seq<Seq<char>>) -> Seq<Seq<char>>
    decreases parts.len(),
{
    if parts.len() <= 1 {
        split_ch(parts[0], '\n')
    } else {
        split_ch(parts[0], '\n') + split_all(parts.drop_first())
    }
}

proof fn lemma_lines_of_join(parts: Seq<Seq<char>>)
    requires
        parts.len() > 0,
    ensures
        split_ch(join_ch(parts, '\n'), '\n') == split_all(parts),
    decreases parts.len(),
{
    if parts.len() == 1 {
    } else {
        lemma_lines_of_join(parts.drop_first());
        crate::strutil::lemma_split_ch_append(parts[0], join_ch(parts.drop_first(), '\n'), '\n');
        assert(parts[0] + seq!['\n'] + join_ch(parts.drop_first(), '\n') == join_ch(parts, '\n'));
    }
}

proof fn lemma_split_all_concat(a: Seq<Seq<char>>, b: Seq<Seq<char>>)
    requires
        a.len() > 0,
        b.len() > 0,
    ensures
        split_all(a + b) == split_all(a) + split_all(b),
    decreases a.len(),
{
    if a.len() == 1 {
        assert((a + b).drop_first() =~= b);
        assert((a + b)[0] == a[0]);
        assert(split_all(a + b) == split_ch(a[0], '\n') + split_all(b));
    } else {
        lemma_split_all_concat(a.drop_first(), b);
        assert((a + b).drop_first() =~= a.drop_first() + b);
        assert(split_all(a + b) =~= split_all(a) + split_all(b));
    }
}

proof fn lemma_line_ok_concat(a: Seq<char>, b: Seq<char>)
    requires
        line_ok(a),
        line_ok(b),
    ensures
        line_ok(a + b),
{
    assert forall|k: int| 0 <= k < (a + b).len() implies (a + b)[k] != '\n' by {
        if k < a.len() {
            assert((a + b)[k] == a[k]);
        } else {
            assert((a + b)[k] == b[k - a.len()]);
        }
    }
}

proof fn lemma_keys_ok()
    ensures
        line_ok(key_labels()),
        line_ok(key_accounts()),
        line_ok(key_thread_id()),
        line_ok(key_last_updated()),
        line_ok(dashes()),
        forall|k: int| 0 <= k < key_labels().len() ==> key_labels()[k] != '*',
        forall|k: int| 0 <= k < key_accounts().len() ==> key_accounts()[k] != '*',
        forall|k: int| 0 <= k < key_thread_id().len() ==> key_thread_id()[k] != '*',
        forall|k: int| 0 <= k < key_last_updated().len() ==> key_last_updated()[k] != '*',
{
}

proof fn lemma_join_list_line_ok(items: Seq<Seq<char>>)
    requires
        forall|i: int| 0 <= i < items.len() ==> line_ok(#[trigger] items[i]),
    ensures
        line_ok(join_list(items)),
    decreases items.len(),
{
    if items.len() == 0 {
    } else if items.len() == 1 {
    } else {
        lemma_join_list_line_ok(items.drop_first());
        lemma_line_ok_concat(items[0], seq![',', ' ']);
        lemma_line_ok_concat(items[0] + seq![',', ' '], join_list(items.drop_first()));
        assert(items[0] + seq![',', ' '] + join_list(items.drop_first()) == join_list(items));
    }
}

proof fn lemma_meta_line_line_ok(key: Seq<char>, value: Seq<char>)
    requires
        line_ok(key),
        line_ok(value),
    ensures
        line_ok(meta_line(key, value)),
{
    lemma_line_ok_concat(seq!['*', '*'], key);
    lemma_line_ok_concat(seq!['*', '*'] + key, seq!['*', '*', ':', ' ']);
    lemma_line_ok_concat(seq!['*', '*'] + key + seq!['*', '*', ':', ' '], value);
}

proof fn lemma_split_all_msgs(ms: Seq<MessageView>)
    requires
        forall|i: int| 0 <= i < ms.len() ==> msg_ok(#[trigger] ms[i]),
        ms.len() > 0,
    ensures
        split_all(msgs_parts(ms)) == msgs_lines(ms),
    decreases ms.len(),
{
    let m = ms[0];
    reveal_with_fuel(split_all, 10);
    // the five single-line blocks of one message split to themselves
    lemma_keys_ok();
    crate::strutil::lemma_split_ch_no_sep(dashes(), '\n');
    crate::strutil::lemma_split_ch_no_sep(Seq::<char>::empty(), '\n');
    lemma_line_ok_concat(seq!['#', '#', ' '], m.from);
    lemma_line_ok_concat(seq!['#', '#', ' '] + m.from, hdr_sep());
    lemma_line_ok_concat(seq!['#', '#', ' '] + m.from + hdr_sep(), m.date);
    assert(seq!['#', '#', ' '] + m.from + hdr_sep() + m.date == hdr_line(m));
    crate::strutil::lemma_split_ch_no_sep(hdr_line(m), '\n');
    let bodysplit = split_ch(trim_spec(m.body), '\n');
    crate::strutil::lemma_split_ch_len(trim_spec(m.body), '\n');
    let head4: Seq<Seq<char>> = seq![
        dashes(),
        Seq::<char>::empty(),
        hdr_line(m),
        Seq::<char>::empty(),
    ];
    let blk = msg_parts(m);
    assert(blk =~= head4 + seq![trim_spec(m.body)] + seq![Seq::<char>::empty()]);
    lemma_split_all_concat(head4 + seq![trim_spec(m.body)], seq![Seq::<char>::empty()]);
    lemma_split_all_concat(head4, seq![trim_spec(m.body)]);
    assert(split_all(head4) =~~= seq![dashes(), Seq::<char>::empty(), hdr_line(m), Seq::<char>::empty()]) by {
        assert(head4.drop_first() =~= seq![Seq::<char>::empty(), hdr_line(m), Seq::<char>::empty()]);
        assert(head4.drop_first().drop_first() =~= seq![hdr_line(m), Seq::<char>::empty()]);
        assert(head4.drop_first().drop_first().drop_first() =~= seq![Seq::<char>::empty()]);
        assert(split_all(seq![Seq::<char>::empty()]) == split_ch(Seq::<char>::empty(), '\n'));
    }
    assert(split_all(seq![trim_spec(m.body)]) == bodysplit);
    assert(split_all(seq![Seq::<char>::empty()]) =~= seq![Seq::<char>::empty()]);
    assert(split_all(head4 + seq![trim_spec(m.body)]) == split_all(head4) + split_all(
        seq![trim_spec(m.body)],
    ));
    assert(split_all(blk) == split_all(head4 + seq![trim_spec(m.body)]) + split_all(
        seq![Seq::<char>::empty()],
    ));
    assert(split_all(blk) == (seq![dashes(), Seq::<char>::empty(), hdr_line(m), Seq::<char>::empty()]
        + bodysplit) + seq![Seq::<char>::empty()]);
    assert(msg_lines(m) == (seq![dashes(), Seq::<char>::empty(), hdr_line(m), Seq::<char>::empty()]
        + bodysplit) + seq![Seq::<char>::empty()]);
    assert(split_all(blk) == msg_lines(m));
    if ms.len() == 1 {
        assert(ms.drop_first() =~= Seq::<MessageView>::empty());
        assert(msgs_lines(Seq::<MessageView>::empty()) =~= Seq::<Seq<char>>::empty());
        assert(msgs_parts(Seq::<MessageView>::empty()) =~= Seq::<Seq<char>>::empty());
        assert(msgs_parts(ms) =~= blk);
        assert(msgs_lines(ms) =~= msg_lines(m) + Seq::<Seq<char>>::empty());
        assert(msg_lines(m) + Seq::<Seq<char>>::empty() =~= msg_lines(m));
    } else {
        lemma_split_all_msgs(ms.drop_first());
        assert(msgs_parts(ms) == blk + msgs_parts(ms.drop_first()));
        assert(msgs_parts(ms.drop_first()).len() > 0) by {
            assert(msgs_parts(ms.drop_first()) == msg_parts(ms.drop_first()[0]) + msgs_parts(
                ms.drop_first().drop_first(),
            ));
        }
        lemma_split_all_concat(blk, msgs_parts(ms.drop_first()));
        assert(split_all(msgs_parts(ms)) =~= msgs_lines(ms));
    }
}

/// The encoded text splits into exactly the expected lines.
proof fn lemma_enc_lines(t: ThreadView)
    requires
        codec_wf(t),
    ensures
        lines_of(encode_spec(t)) == enc_lines(t),
{
    let parts = encode_parts(t);
    reveal_with_fuel(split_all, 10);
    lemma_lines_of_join(parts);
    lemma_keys_ok();
    // each of the seven header parts is a single line
    lemma_line_ok_concat(seq!['#', ' '], t.subject);
    lemma_join_list_line_ok(t.labels);
    lemma_join_list_line_ok(t.accounts);
    lemma_meta_line_line_ok(key_labels(), join_list(t.labels));
    lemma_meta_line_line_ok(key_accounts(), join_list(t.accounts));
    lemma_meta_line_line_ok(key_thread_id(), t.id);
    lemma_meta_line_line_ok(key_last_updated(), t.last_date);
    let hl = header_lines(t);
    assert(forall|i: int| 0 <= i < hl.len() ==> line_ok(#[trigger] hl[i]));
    assert forall|i: int| 0 <= i < hl.len() implies split_ch(#[trigger] hl[i], '\n') == seq![
        hl[i],
    ] by {
        crate::strutil::lemma_split_ch_no_sep(hl[i], '\n');
    }
    assert(split_all(hl) =~~= hl) by {
        assert(hl.drop_first() =~= hl.subrange(1, 7));
        assert(hl.subrange(1, 7).drop_first() =~= hl.subrange(2, 7));
        assert(hl.subrange(2, 7).drop_first() =~= hl.subrange(3, 7));
        assert(hl.subrange(3, 7).drop_first() =~= hl.subrange(4, 7));
        assert(hl.subrange(4, 7).drop_first() =~= hl.subrange(5, 7));
        assert(hl.subrange(5, 7).drop_first() =~= hl.subrange(6, 7));
        assert(split_all(hl.subrange(6, 7)) == split_ch(hl.subrange(6, 7)[0], '\n'));
        assert(hl.subrange(6, 7)[0] == hl[6]);
    }
    if t.messages.len() == 0 {
        assert(msgs_parts(t.messages) =~= Seq::<Seq<char>>::empty());
        assert(parts =~= hl);
        assert(msgs_lines(t.messages) =~= Seq::<Seq<char>>::empty());
        assert(enc_lines(t) =~= hl);
    } else {
        assert(msgs_parts(t.messages).len() > 0) by {
            assert(msgs_parts(t.messages) == msg_parts(t.messages[0]) + msgs_parts(
                t.messages.drop_first(),
            ));
        }
        assert(parts =~= hl + msgs_parts(t.messages));
        lemma_split_all_concat(hl, msgs_parts(t.messages));
        lemma_split_all_msgs(t.messages);
        assert(split_all(parts) =~= hl + msgs_lines(t.messages));
        assert(enc_lines(t) =~= hl + msgs_lines(t.messages));
    }
}

// ---------------------------------------------------------------------
// Round-trip: reading the encoded lines back
// ---------------------------------------------------------------------

proof fn lemma_first_h1_enc(t: ThreadView)
    requires
        codec_wf(t),
    ensures
        first_h1(enc_lines(t)) == Some(t.subject),
{
    let ls = enc_lines(t);
    let l0 = seq!['#', ' '] + t.subject;
    assert(ls[0] == l0);
    assert(l0[0] == '#' && l0[1] == ' ');
    assert(l0.subrange(2, l0.len() as int) =~= t.subject);
    assert(h1_text(l0) == trim_spec(t.subject));
}

/// A line that carries no `**key**:` metadata for the given key.
pub open spec fn not_key(l: Seq<char>, key: Seq<char>) -> bool {
    match meta_parse(l) {
        Some(kv) => kv.0 != key,
        None => true,
    }
}

proof fn lemma_meta_value_skip_suffix(prefix: Seq<Seq<char>>, suffix: Seq<Seq<char>>, key: Seq<char>)
    requires
        forall|i: int| 0 <= i < suffix.len() ==> not_key(#[trigger] suffix[i], key),
    ensures
        meta_value(prefix + suffix, key) == meta_value(prefix, key),
    decreases suffix.len(),
{
    if suffix.len() == 0 {
        assert(prefix + suffix =~= prefix);
    } else {
        lemma_meta_value_skip_suffix(prefix, suffix.drop_last(), key);
        let w = prefix + suffix;
        assert(w.last() == suffix.last());
        assert(w.drop_last() =~= prefix + suffix.drop_last());
    }
}

/// One of the four keys the decoder reads.
pub open spec fn reserved_key(k: Seq<char>) -> bool {
    k == key_labels() || k == key_accounts() || k == key_thread_id() || k == key_last_updated()
}

proof fn lemma_msg_lines_not_key(m: MessageView, key: Seq<char>)
    requires
        msg_ok(m),
        reserved_key(key),
    ensures
        forall|i: int| 0 <= i < msg_lines(m).len() ==> not_key(#[trigger] msg_lines(m)[i], key),
{
    let bl = split_ch(trim_spec(m.body), '\n');
    let mls = msg_lines(m);
    assert(hdr_line(m)[0] == '#');
    assert(dashes()[0] == '-');
    assert forall|i: int| 0 <= i < mls.len() implies not_key(#[trigger] mls[i], key) by {
        if i == 0 {
            assert(mls[i] == dashes());
        } else if i == 1 || i == 3 || i == mls.len() - 1 {
            assert(mls[i] =~= Seq::<char>::empty());
        } else if i == 2 {
            assert(mls[i] == hdr_line(m));
        } else {
            assert(mls[i] == bl[i - 4]);
            assert(body_line_ok(bl[i - 4]));
        }
    }
}

proof fn lemma_msgs_lines_not_key(ms: Seq<MessageView>, key: Seq<char>)
    requires
        forall|i: int| 0 <= i < ms.len() ==> msg_ok(#[trigger] ms[i]),
        reserved_key(key),
    ensures
        forall|i: int| 0 <= i < msgs_lines(ms).len() ==> not_key(#[trigger] msgs_lines(ms)[i], key),
    decreases ms.len(),
{
    if ms.len() > 0 {
        lemma_msgs_lines_not_key(ms.drop_first(), key);
        lemma_msg_lines_not_key(ms[0], key);
        let whole = msgs_lines(ms);
        let head = msg_lines(ms[0]);
        let tail = msgs_lines(ms.drop_first());
        assert forall|i: int| 0 <= i < whole.len() implies not_key(#[trigger] whole[i], key) by {
            if i < head.len() {
                assert(whole[i] == head[i]);
            } else {
                assert(whole[i] == tail[i - head.len()]);
            }
        }
    }
}

proof fn lemma_first_meta_range(l: Seq<char>, j: int, i0: int)
    requires
        3 <= j <= i0,
        meta_sep_at(l, i0),
        forall|k: int| j <= k < i0 ==> !meta_sep_at(l, k),
    ensures
        first_meta_sep_from(l, j) == i0,
    decreases i0 - j,
{
    if j < i0 {
        lemma_first_meta_range(l, j + 1, i0);
    }
}

proof fn lemma_first_hdr_range(l: Seq<char>, j: int, j0: int)
    requires
        4 <= j <= j0,
        hdr_sep_at(l, j0),
        j0 + 3 < l.len(),
        forall|k: int| j <= k < j0 ==> !hdr_sep_at(l, k),
    ensures
        first_hdr_sep_from(l, j) == j0,
    decreases j0 - j,
{
    if j < j0 {
        lemma_first_hdr_range(l, j + 1, j0);
    }
}

/// What the decoder reads from a well-formed metadata line.
proof fn lemma_meta_parse_meta_line(key: Seq<char>, value: Seq<char>)
    requires
        key.len() > 0,
        forall|k: int| 0 <= k < key.len() ==> key[k] != '*',
    ensures
        meta_parse(meta_line(key, value)) == Some((key, trim_spec(value))),
{
    let l = meta_line(key, value);
    let i0 = 2 + key.len() as int;
    assert(l.len() == key.len() + 6 + value.len());
    assert(l[0] == '*' && l[1] == '*');
    assert(l[i0] == '*' && l[i0 + 1] == '*' && l[i0 + 2] == ':');
    assert(meta_sep_at(l, i0));
    assert forall|k: int| 3 <= k < i0 implies !meta_sep_at(l, k) by {
        assert(l[k] == key[k - 2]);
    }
    lemma_first_meta_range(l, 3, i0);
    assert(i0 + 3 < l.len());
    assert(l.subrange(2, i0) =~= key);
    assert(l.subrange(i0 + 3, l.len() as int) =~= seq![' '] + value);
    crate::strutil::lemma_trim_spec_pad(value, ' ');
}

/// What the decoder reads from a well-formed message header line.
proof fn lemma_hdr_parse_hdr_line(m: MessageView)
    requires
        msg_ok(m),
    ensures
        hdr_parse(hdr_line(m)) == Some((m.from, m.date)),
{
    let l = hdr_line(m);
    let flen = m.from.len() as int;
    let j0 = 3 + flen;
    let w = m.from + hdr_sep();
    assert(l.len() == 3 + flen + 3 + m.date.len());
    assert(l[0] == '#' && l[1] == '#' && l[2] == ' ');
    assert forall|p: int| 3 <= p < 3 + w.len() implies l[p] == w[p - 3] by {
        if p < 3 + flen {
            assert(w[p - 3] == m.from[p - 3]);
            assert(l[p] == m.from[p - 3]);
        } else {
            assert(w[p - 3] == hdr_sep()[p - 3 - flen]);
            assert(l[p] == hdr_sep()[p - 3 - flen]);
        }
    }
    assert(l[j0] == ' ' && l[j0 + 1] == '\u{2014}' && l[j0 + 2] == ' ');
    assert(hdr_sep_at(l, j0));
    assert(j0 + 3 < l.len());
    assert forall|k: int| 4 <= k < j0 implies !hdr_sep_at(l, k) by {
        if hdr_sep_at(l, k) {
            assert(l[k] == w[k - 3] && l[k + 1] == w[k - 2] && l[k + 2] == w[k - 1]);
            assert(hdr_sep_at(w, k - 3));
        }
    }
    lemma_first_hdr_range(l, 4, j0);
    assert(l.subrange(3, j0) =~= m.from);
    assert(l.subrange(j0 + 3, l.len() as int) =~= m.date);
}

proof fn lemma_join_list_ends(items: Seq<Seq<char>>)
    requires
        forall|i: int| 0 <= i < items.len() ==> list_item_ok(#[trigger] items[i]),
        items.len() > 0,
    ensures
        join_list(items).len() > 0,
        join_list(items)[0] == items[0][0],
        join_list(items).last() == items.last().last(),
    decreases items.len(),
{
    if items.len() == 1 {
    } else {
        lemma_join_list_ends(items.drop_first());
        assert(items.drop_first().last() == items.last());
        let j = join_list(items);
        assert(j == items[0] + seq![',', ' '] + join_list(items.drop_first()));
        assert(j[0] == items[0][0]);
        assert(j.last() == join_list(items.drop_first()).last());
    }
}

proof fn lemma_join_list_trimmed(items: Seq<Seq<char>>)
    requires
        forall|i: int| 0 <= i < items.len() ==> list_item_ok(#[trigger] items[i]),
    ensures
        trim_spec(join_list(items)) == join_list(items),
{
    if items.len() == 0 {
        assert(trim_spec(Seq::<char>::empty()) =~= Seq::<char>::empty());
    } else {
        lemma_join_list_ends(items);
        crate::strutil::lemma_self_trimmed_ends(items[0]);
        crate::strutil::lemma_self_trimmed_ends(items.last());
        crate::strutil::lemma_trim_noop(join_list(items));
    }
}

/// Reading a joined list back gives the entries that were joined.
proof fn lemma_split_list_join(items: Seq<Seq<char>>)
    requires
        forall|i: int| 0 <= i < items.len() ==> list_item_ok(#[trigger] items[i]),
    ensures
        split_list(join_list(items)) == items,
    decreases items.len(),
{
    reveal_with_fuel(trim_nonempty, 5);
    if items.len() == 0 {
        assert(split_ch(Seq::<char>::empty(), '\n').len() >= 0);
        assert(split_ch(Seq::<char>::empty(), ',') =~= seq![Seq::<char>::empty()]);
        assert(crate::strutil::trim_front(Seq::<char>::empty()) =~= Seq::<char>::empty());
        assert(crate::strutil::trim_back(Seq::<char>::empty()) =~= Seq::<char>::empty());
        assert(trim_spec(Seq::<char>::empty()) =~= Seq::<char>::empty());
        assert(seq![Seq::<char>::empty()].drop_first() =~= Seq::<Seq<char>>::empty());
        assert(trim_nonempty(Seq::<Seq<char>>::empty()) =~= Seq::<Seq<char>>::empty());
        assert(trim_nonempty(seq![Seq::<char>::empty()]) =~= Seq::<Seq<char>>::empty());
        assert(split_list(join_list(items)) =~= items);
    } else if items.len() == 1 {
        let x = items[0];
        crate::strutil::lemma_split_ch_no_sep(x, ',');
        assert(seq![x].drop_first() =~= Seq::<Seq<char>>::empty());
        assert(trim_nonempty(Seq::<Seq<char>>::empty()) =~= Seq::<Seq<char>>::empty());
        assert(trim_nonempty(seq![x]) =~= seq![x] + Seq::<Seq<char>>::empty());
        assert(seq![x] + Seq::<Seq<char>>::empty() =~= seq![x]);
        assert(items =~= seq![x]);
    } else {
        lemma_split_list_join(items.drop_first());
        let x = items[0];
        let z = join_list(items.drop_first());
        let j = join_list(items);
        assert(j == x + seq![',', ' '] + z);
        assert(x + seq![',', ' '] + z =~= x + seq![','] + (seq![' '] + z));
        crate::strutil::lemma_split_ch_append(x, seq![' '] + z, ',');
        crate::strutil::lemma_split_ch_no_sep(x, ',');
        // splitting ` ` ++ z only pads the first part with one space
        let zs = split_ch(z, ',');
        let ws = split_ch(seq![' '] + z, ',');
        crate::strutil::lemma_split_ch_len(z, ',');
        if z.len() == 0 {
            assert(zs =~= seq![Seq::<char>::empty()]);
            assert(seq![' '] + z =~= seq![' ']);
            crate::strutil::lemma_split_ch_no_sep(seq![' '], ',');
            assert(ws =~= seq![seq![' ']]);
        } else {
            assert((seq![' '] + z)[0] == ' ');
            assert((seq![' '] + z).drop_first() =~= z);
            assert(ws =~= seq![seq![' '] + zs[0]] + zs.drop_first());
        }
        // now compare trim_nonempty on both shapes
        assert(split_ch(j, ',') =~= seq![x] + ws);
        assert(trim_spec(x) == x);
        assert((seq![x] + ws).drop_first() =~= ws);
        assert(trim_nonempty(seq![x] + ws) =~= seq![x] + trim_nonempty(ws));
        // trim_nonempty(ws) == trim_nonempty(zs)
        if z.len() == 0 {
            assert(trim_spec(seq![' ']) =~= Seq::<char>::empty()) by {
                crate::strutil::lemma_trim_spec_pad(Seq::<char>::empty(), ' ');
                assert(Seq::<char>::empty() + seq![' '] =~= seq![' ']);
                assert(seq![' '] =~= Seq::<char>::empty() + seq![' ']);
                assert(trim_spec(Seq::<char>::empty()) =~= Seq::<char>::empty());
            }
            assert(seq![seq![' ']].drop_first() =~= Seq::<Seq<char>>::empty());
            assert(trim_nonempty(ws) =~= Seq::<Seq<char>>::empty());
            assert(trim_nonempty(zs) =~= Seq::<Seq<char>>::empty()) by {
                assert(trim_spec(Seq::<char>::empty()) =~= Seq::<char>::empty());
                assert(seq![Seq::<char>::empty()].drop_first() =~= Seq::<Seq<char>>::empty());
            }
        } else {
            assert(ws[0] =~= seq![' '] + zs[0]);
            crate::strutil::lemma_trim_spec_pad(zs[0], ' ');
            assert(trim_spec(ws[0]) == trim_spec(zs[0]));
            assert(ws.drop_first() =~= zs.drop_first());
            assert(trim_nonempty(ws) =~= trim_nonempty(zs)) by {
                if trim_spec(zs[0]).len() > 0 {
                    assert(trim_nonempty(ws) == seq![trim_spec(ws[0])] + trim_nonempty(
                        ws.drop_first(),
                    ));
                    assert(trim_nonempty(zs) == seq![trim_spec(zs[0])] + trim_nonempty(
                        zs.drop_first(),
                    ));
                } else {
                    assert(trim_nonempty(ws) == trim_nonempty(ws.drop_first()));
                    assert(trim_nonempty(zs) == trim_nonempty(zs.drop_first()));
                }
            }
        }
        assert(trim_nonempty(zs) == items.drop_first());
        assert(seq![x] + items.drop_first() =~= items);
    }
}

/// The metadata the decoder reads from the seven heading lines.
proof fn lemma_meta_header(t: ThreadView)
    requires
        codec_wf(t),
    ensures
        meta_value(header_lines(t), key_labels()) == Some(join_list(t.labels)),
        meta_value(header_lines(t), key_accounts()) == Some(join_list(t.accounts)),
        meta_value(header_lines(t), key_thread_id()) == Some(t.id),
        meta_value(header_lines(t), key_last_updated()) == Some(t.last_date),
{
    reveal_with_fuel(meta_value, 10);
    lemma_keys_ok();
    lemma_join_list_trimmed(t.labels);
    lemma_join_list_trimmed(t.accounts);
    lemma_meta_parse_meta_line(key_labels(), join_list(t.labels));
    lemma_meta_parse_meta_line(key_accounts(), join_list(t.accounts));
    lemma_meta_parse_meta_line(key_thread_id(), t.id);
    lemma_meta_parse_meta_line(key_last_updated(), t.last_date);
    let hl = header_lines(t);
    let l0 = seq!['#', ' '] + t.subject;
    assert(l0[0] == '#');
    assert(meta_parse(l0) is None);
    assert(meta_parse(Seq::<char>::empty()) is None);
    assert(hl.drop_last() =~= hl.subrange(0, 6));
    assert(hl.subrange(0, 6).drop_last() =~= hl.subrange(0, 5));
    assert(hl.subrange(0, 5).drop_last() =~= hl.subrange(0, 4));
    assert(hl.subrange(0, 4).drop_last() =~= hl.subrange(0, 3));
    assert(hl.subrange(0, 3).drop_last() =~= hl.subrange(0, 2));
    assert(hl.subrange(0, 2).drop_last() =~= hl.subrange(0, 1));
    assert(hl.subrange(0, 1).drop_last() =~= hl.subrange(0, 0));
    assert(hl.subrange(0, 0) =~= Seq::<Seq<char>>::empty());
    assert(key_labels().len() == 6 && key_accounts().len() == 8 && key_thread_id().len() == 9
        && key_last_updated().len() == 12);
    assert(hl.last() == hl[6] && hl.subrange(0, 6).last() == hl[5] && hl.subrange(0, 5).last()
        == hl[4] && hl.subrange(0, 4).last() == hl[3] && hl.subrange(0, 3).last() == hl[2]
        && hl.subrange(0, 2).last() == hl[1] && hl.subrange(0, 1).last() == hl[0]);
}

// ---------------------------------------------------------------------
// Round-trip: replaying the message fold
// ---------------------------------------------------------------------

/// What the decoder makes of each encoded message: sender, date and body
/// as they were, the identifiers rederived from the subject.
pub open spec fn decoded_msgs(ms: Seq<MessageView>, subj: Seq<char>) -> Seq<MessageView> {
    Seq::new(
        ms.len(),
        |i: int|
            MessageView {
                id: Seq::empty(),
                thread_id: thread_key_spec(subj),
                from: ms[i].from,
                date: ms[i].date,
                subject: subj,
                body: ms[i].body,
            },
    )
}

proof fn lemma_fold_skip_none(lines: Seq<Seq<char>>, rest: Seq<Seq<char>>, subj: Seq<char>)
    requires
        forall|i: int| 0 <= i < lines.len() ==> hdr_parse(#[trigger] lines[i]) is None,
    ensures
        msgs_fold(lines + rest, subj, None) == msgs_fold(rest, subj, None),
    decreases lines.len(),
{
    if lines.len() == 0 {
        assert(lines + rest =~= rest);
    } else {
        lemma_fold_skip_none(lines.drop_first(), rest, subj);
        let w = lines + rest;
        assert(w[0] == lines[0]);
        assert(w.drop_first() =~= lines.drop_first() + rest);
    }
}

proof fn lemma_fold_push_lines(
    lines: Seq<Seq<char>>,
    rest: Seq<Seq<char>>,
    subj: Seq<char>,
    f: Seq<char>,
    d: Seq<char>,
    acc: Seq<Seq<char>>,
)
    requires
        forall|i: int|
            0 <= i < lines.len() ==> hdr_parse(#[trigger] lines[i]) is None && trim_spec(lines[i])
                != dashes(),
    ensures
        msgs_fold(lines + rest, subj, Some((f, d, acc))) == msgs_fold(
            rest,
            subj,
            Some((f, d, acc + lines)),
        ),
    decreases lines.len(),
{
    if lines.len() == 0 {
        assert(lines + rest =~= rest);
        assert(acc + lines =~= acc);
    } else {
        let w = lines + rest;
        assert(w[0] == lines[0]);
        assert(w.drop_first() =~= lines.drop_first() + rest);
        lemma_fold_push_lines(lines.drop_first(), rest, subj, f, d, acc.push(lines[0]));
        assert(acc.push(lines[0]) + lines.drop_first() =~= acc + lines);
    }
}

proof fn lemma_body_wrap(b: Seq<char>, extra: bool)
    requires
        trim_spec(b) == b,
    ensures
        trim_spec(
            join_ch(
                seq![Seq::<char>::empty()] + split_ch(b, '\n') + (if extra {
                    seq![Seq::<char>::empty(), Seq::<char>::empty()]
                } else {
                    seq![Seq::<char>::empty()]
                }),
                '\n',
            ),
        ) == b,
{
    let s = split_ch(b, '\n');
    let e = Seq::<char>::empty();
    let tail: Seq<Seq<char>> = if extra {
        seq![e, e]
    } else {
        seq![e]
    };
    crate::strutil::lemma_split_ch_len(b, '\n');
    crate::strutil::lemma_join_split(b, '\n');
    crate::strutil::lemma_join_ch_concat(seq![e], s, '\n');
    assert(join_ch(seq![e] + s, '\n') == e + seq!['\n'] + join_ch(s, '\n'));
    assert(e + seq!['\n'] + join_ch(s, '\n') =~= seq!['\n'] + b);
    crate::strutil::lemma_join_ch_concat(seq![e] + s, tail, '\n');
    assert((seq![e] + s) + tail =~= seq![e] + s + tail);
    if extra {
        assert(seq![e, e].drop_first() =~= seq![e]);
        assert(join_ch(tail, '\n') == e + seq!['\n'] + join_ch(seq![e], '\n'));
        assert(join_ch(tail, '\n') =~= seq!['\n']);
        let w = join_ch(seq![e] + s + tail, '\n');
        assert(w == (seq!['\n'] + b) + seq!['\n'] + seq!['\n']);
        assert(w =~= seq!['\n'] + ((b + seq!['\n']) + seq!['\n']));
        crate::strutil::lemma_trim_spec_pad((b + seq!['\n']) + seq!['\n'], '\n');
        crate::strutil::lemma_trim_spec_pad(b + seq!['\n'], '\n');
        crate::strutil::lemma_trim_spec_pad(b, '\n');
    } else {
        assert(join_ch(tail, '\n') == e);
        let w = join_ch(seq![e] + s + tail, '\n');
        assert(w == (seq!['\n'] + b) + seq!['\n'] + e);
        assert(w =~= seq!['\n'] + (b + seq!['\n']));
        crate::strutil::lemma_trim_spec_pad(b + seq!['\n'], '\n');
        crate::strutil::lemma_trim_spec_pad(b, '\n');
    }
}

proof fn lemma_fold_msgs(
    ms: Seq<MessageView>,
    subj: Seq<char>,
    f: Seq<char>,
    d: Seq<char>,
    acc: Seq<Seq<char>>,
)
    requires
        forall|i: int| 0 <= i < ms.len() ==> msg_ok(#[trigger] ms[i]),
    ensures
        msgs_fold(msgs_lines(ms), subj, Some((f, d, acc))) == seq![
            mk_msg(
                subj,
                f,
                d,
                if ms.len() > 0 {
                    acc.push(Seq::<char>::empty())
                } else {
                    acc
                },
            ),
        ] + decoded_msgs(ms, subj),
    decreases ms.len(),
{
    let e = Seq::<char>::empty();
    if ms.len() == 0 {
        assert(msgs_lines(ms) =~= Seq::<Seq<char>>::empty());
        assert(decoded_msgs(ms, subj) =~= Seq::<MessageView>::empty());
        assert(seq![mk_msg(subj, f, d, acc)] + Seq::<MessageView>::empty() =~= seq![
            mk_msg(subj, f, d, acc),
        ]);
    } else {
        let m = ms[0];
        assert(msg_ok(m));
        let s = split_ch(trim_spec(m.body), '\n');
        assert(trim_spec(m.body) == m.body);
        let body_block = seq![e] + s + seq![e];
        let rest_lines = msgs_lines(ms.drop_first());
        let cur0 = Some((f, d, acc));
        let ll = msgs_lines(ms);
        assert(ll == msg_lines(m) + rest_lines);
        assert(ll =~= seq![dashes(), e, hdr_line(m)] + (body_block + rest_lines));

        // `---`: skipped while a section is open
        assert(ll[0] == dashes());
        assert(dashes()[0] == '-');
        assert(hdr_parse(dashes()) is None);
        assert(!is_wsp('-'));
        crate::strutil::lemma_trim_noop(dashes());
        let l1 = ll.drop_first();
        assert(msgs_fold(ll, subj, cur0) == msgs_fold(l1, subj, cur0));
        assert(l1 =~= seq![e, hdr_line(m)] + (body_block + rest_lines));

        // blank line: collected into the open section
        assert(l1[0] == e);
        assert(hdr_parse(e) is None);
        assert(crate::strutil::trim_front(e) =~= e);
        assert(crate::strutil::trim_back(e) =~= e);
        assert(trim_spec(e) =~= e);
        assert(trim_spec(e) != dashes());
        let cur1 = Some((f, d, acc.push(e)));
        let l2 = l1.drop_first();
        assert(msgs_fold(l1, subj, cur0) == msgs_fold(l2, subj, cur1));
        assert(l2 =~= seq![hdr_line(m)] + (body_block + rest_lines));

        // header line: closes the open section, opens this message's
        lemma_hdr_parse_hdr_line(m);
        let l3 = l2.drop_first();
        assert(l2[0] == hdr_line(m));
        assert(msgs_fold(l2, subj, cur1) == seq![mk_msg(subj, f, d, acc.push(e))] + msgs_fold(
            l3,
            subj,
            Some((m.from, m.date, Seq::<Seq<char>>::empty())),
        ));
        assert(l3 =~= body_block + rest_lines);

        // the message's own blank lines and body lines are collected
        assert(forall|i: int|
            0 <= i < s.len() ==> body_line_ok(#[trigger] split_ch(m.body, '\n')[i]));
        assert(s == split_ch(m.body, '\n'));
        assert forall|i: int|
            0 <= i < body_block.len() implies hdr_parse(#[trigger] body_block[i]) is None
                && trim_spec(body_block[i]) != dashes() by {
            if i == 0 || i == body_block.len() - 1 {
                assert(body_block[i] == e);
            } else {
                assert(body_block[i] == s[i - 1]);
                assert(body_line_ok(s[i - 1]));
            }
        }
        lemma_fold_push_lines(
            body_block,
            rest_lines,
            subj,
            m.from,
            m.date,
            Seq::<Seq<char>>::empty(),
        );
        assert(Seq::<Seq<char>>::empty() + body_block =~= body_block);

        // the rest of the messages by induction
        lemma_fold_msgs(ms.drop_first(), subj, m.from, m.date, body_block);
        let bb = if ms.drop_first().len() > 0 {
            body_block.push(e)
        } else {
            body_block
        };
        assert(msgs_fold(rest_lines, subj, Some((m.from, m.date, body_block))) == seq![
            mk_msg(subj, m.from, m.date, bb),
        ] + decoded_msgs(ms.drop_first(), subj));

        // the reassembled body equals the body that was encoded
        lemma_body_wrap(m.body, ms.drop_first().len() > 0);
        if ms.drop_first().len() > 0 {
            assert(bb =~= seq![e] + s + seq![e, e]);
        } else {
            assert(bb =~= seq![e] + s + seq![e]);
        }
        assert(mk_msg(subj, m.from, m.date, bb).body == m.body);
        assert(mk_msg(subj, m.from, m.date, bb) == decoded_msgs(ms, subj)[0]);

        assert(decoded_msgs(ms, subj).drop_first() =~= decoded_msgs(ms.drop_first(), subj));
        assert(msgs_fold(ll, subj, cur0) =~= seq![mk_msg(subj, f, d, acc.push(e))] + decoded_msgs(
            ms,
            subj,
        ));
    }
}

proof fn lemma_fold_msgs_none(ms: Seq<MessageView>, subj: Seq<char>)
    requires
        forall|i: int| 0 <= i < ms.len() ==> msg_ok(#[trigger] ms[i]),
    ensures
        msgs_fold(msgs_lines(ms), subj, None) == decoded_msgs(ms, subj),
    decreases ms.len(),
{
    let e = Seq::<char>::empty();
    if ms.len() == 0 {
        assert(msgs_lines(ms) =~= Seq::<Seq<char>>::empty());
        assert(decoded_msgs(ms, subj) =~= Seq::<MessageView>::empty());
    } else {
        let m = ms[0];
        assert(msg_ok(m));
        let s = split_ch(trim_spec(m.body), '\n');
        assert(trim_spec(m.body) == m.body);
        let body_block = seq![e] + s + seq![e];
        let rest_lines = msgs_lines(ms.drop_first());
        let ll = msgs_lines(ms);
        assert(ll == msg_lines(m) + rest_lines);
        assert(ll =~= seq![dashes(), e, hdr_line(m)] + (body_block + rest_lines));

        assert(ll[0] == dashes());
        assert(dashes()[0] == '-');
        assert(hdr_parse(dashes()) is None);
        let l1 = ll.drop_first();
        assert(msgs_fold(ll, subj, None) == msgs_fold(l1, subj, None));
        assert(l1 =~= seq![e, hdr_line(m)] + (body_block + rest_lines));

        assert(l1[0] == e);
        assert(hdr_parse(e) is None);
        let l2 = l1.drop_first();
        assert(msgs_fold(l1, subj, None) == msgs_fold(l2, subj, None));
        assert(l2 =~= seq![hdr_line(m)] + (body_block + rest_lines));

        lemma_hdr_parse_hdr_line(m);
        let l3 = l2.drop_first();
        assert(l2[0] == hdr_line(m));
        assert(msgs_fold(l2, subj, None) == msgs_fold(
            l3,
            subj,
            Some((m.from, m.date, Seq::<Seq<char>>::empty())),
        ));
        assert(l3 =~= body_block + rest_lines);

        assert(forall|i: int|
            0 <= i < s.len() ==> body_line_ok(#[trigger] split_ch(m.body, '\n')[i]));
        assert(s == split_ch(m.body, '\n'));
        assert forall|i: int|
            0 <= i < body_block.len() implies hdr_parse(#[trigger] body_block[i]) is None
                && trim_spec(body_block[i]) != dashes() by {
            if i == 0 || i == body_block.len() - 1 {
                assert(body_block[i] == e);
                assert(crate::strutil::trim_front(e) =~= e);
                assert(crate::strutil::trim_back(e) =~= e);
            } else {
                assert(body_block[i] == s[i - 1]);
                assert(body_line_ok(s[i - 1]));
            }
        }
        lemma_fold_push_lines(
            body_block,
            rest_lines,
            subj,
            m.from,
            m.date,
            Seq::<Seq<char>>::empty(),
        );
        assert(Seq::<Seq<char>>::empty() + body_block =~= body_block);

        lemma_fold_msgs(ms.drop_first(), subj, m.from, m.date, body_block);
        let bb = if ms.drop_first().len() > 0 {
            body_block.push(e)
        } else {
            body_block
        };
        lemma_body_wrap(m.body, ms.drop_first().len() > 0);
        if ms.drop_first().len() > 0 {
            assert(bb =~= seq![e] + s + seq![e, e]);
        } else {
            assert(bb =~= seq![e] + s + seq![e]);
        }
        assert(mk_msg(subj, m.from, m.date, bb).body == m.body);
        assert(mk_msg(subj, m.from, m.date, bb) == decoded_msgs(ms, subj)[0]);
        assert(decoded_msgs(ms, subj).drop_first() =~= decoded_msgs(ms.drop_first(), subj));
        assert(msgs_fold(ll, subj, None) =~= decoded_msgs(ms, subj));
    }
}

/// Decoding an encoded thread reproduces its subject, identifier,
/// labels, accounts, last-update stamp, and every message's sender,
/// date and body.
pub proof fn lemma_markdown_roundtrip(t: ThreadView)
    requires
        codec_wf(t),
    ensures
        decode_spec(encode_spec(t)) is Some,
        ({
            let d = decode_spec(encode_spec(t)).unwrap();
            &&& d.subject == t.subject
            &&& d.id == t.id
            &&& d.labels == t.labels
            &&& d.accounts == t.accounts
            &&& d.last_date == t.last_date
            &&& d.messages.len() == t.messages.len()
            &&& forall|i: int|
                0 <= i < t.messages.len() ==> d.messages[i].from == t.messages[i].from
                    && d.messages[i].date == t.messages[i].date && d.messages[i].body
                    == t.messages[i].body
        }),
{
    lemma_enc_lines(t);
    let ls = lines_of(encode_spec(t));
    assert(ls == enc_lines(t));
    lemma_first_h1_enc(t);
    lemma_meta_header(t);
    lemma_msgs_lines_not_key(t.messages, key_labels());
    lemma_msgs_lines_not_key(t.messages, key_accounts());
    lemma_msgs_lines_not_key(t.messages, key_thread_id());
    lemma_msgs_lines_not_key(t.messages, key_last_updated());
    lemma_meta_value_skip_suffix(header_lines(t), msgs_lines(t.messages), key_labels());
    lemma_meta_value_skip_suffix(header_lines(t), msgs_lines(t.messages), key_accounts());
    lemma_meta_value_skip_suffix(header_lines(t), msgs_lines(t.messages), key_thread_id());
    lemma_meta_value_skip_suffix(header_lines(t), msgs_lines(t.messages), key_last_updated());
    lemma_split_list_join(t.labels);
    lemma_split_list_join(t.accounts);
    let hl = header_lines(t);
    assert forall|i: int| 0 <= i < hl.len() implies hdr_parse(#[trigger] hl[i]) is None by {
        if i == 0 {
            assert(hl[i] == seq!['#', ' '] + t.subject);
            assert(hl[i][1] == ' ');
        } else if i == 1 || i == 6 {
            assert(hl[i] =~= Seq::<char>::empty());
        } else if i == 2 {
            assert(hl[i] == meta_line(key_labels(), join_list(t.labels)));
            assert(hl[i][0] == '*');
        } else if i == 3 {
            assert(hl[i] == meta_line(key_accounts(), join_list(t.accounts)));
            assert(hl[i][0] == '*');
        } else if i == 4 {
            assert(hl[i] == meta_line(key_thread_id(), t.id));
            assert(hl[i][0] == '*');
        } else {
            assert(hl[i] == meta_line(key_last_updated(), t.last_date));
            assert(hl[i][0] == '*');
        }
    }
    lemma_fold_skip_none(hl, msgs_lines(t.messages), t.subject);
    assert(hl + msgs_lines(t.messages) == enc_lines(t));
    lemma_fold_msgs_none(t.messages, t.subject);
    assert(msgs_fold(ls, t.subject, None) == decoded_msgs(t.messages, t.subject));
}

} // verus!

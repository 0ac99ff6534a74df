//! Thread merge engine: fold one fetched message into the thread files
//! of a destination directory.
//!
//! The engine works on a snapshot of the directory — a list of file
//! names and contents — and returns the file to write back.  The
//! surrounding application reads and writes the actual files.

#![verifier::loop_isolation(false)]

use vstd::prelude::*;

use crate::markdown::{decode_spec, encode_spec, key_thread_id, lines_of, meta_parse};
use crate::strutil::{dec_digits, digit_char};
use crate::types::{msg_views, str_in, strs, Message, MessageView, Thread, ThreadView};

verus! {

/// What the date parser returns for a given date string: an epoch
/// second count, a function of the characters alone.
pub uninterp spec fn date_num_of(s: Seq<char>) -> int;

/// Parse a message date to epoch seconds.
///
/// Relies on chrono's `DateTime::parse_from_rfc2822` with mailparse's
/// `dateparse` as fallback, epoch on failure: both parse the string
/// alone, so the result depends on its characters only.
#[verifier::external_body]
pub fn parse_msg_date(date_str: &str) -> (r: i64)
    ensures
        r == date_num_of(date_str@),
{
    chrono::DateTime::parse_from_rfc2822(date_str)
        .map(|dt| dt.with_timezone(&chrono::Utc))
        .or_else(|_| {
            mailparse::dateparse(date_str)
                .map(|ts| chrono::DateTime::from_timestamp(ts, 0).unwrap_or_default())
        })
        .unwrap_or_default()
        .timestamp()
}

/// The moment a merged thread file's modification time is set to, when
/// the thread's last date names a year after 1970; `None` otherwise.
pub fn mtime_timestamp(date_str: &str) -> (r: Option<i64>)
    ensures
        (r is Some) == (date_num_of(date_str@) >= 31536000),
        r is Some ==> r->0 == date_num_of(date_str@),
{
    let ts = parse_msg_date(date_str);
    if ts >= 31536000 {
        Some(ts)
    } else {
        None
    }
}

/// One file of a destination directory: its name and its text.
pub struct DirEntry {
    pub name: String,
    pub text: String,
}

/// The mathematical value of a [`DirEntry`].
pub ghost struct DirEntryView {
    pub name: Seq<char>,
    pub text: Seq<char>,
}

impl View for DirEntry {
    type V = DirEntryView;

    open spec fn view(&self) -> DirEntryView {
        DirEntryView { name: self.name@, text: self.text@ }
    }
}

/// The view sequence of a directory snapshot.
pub open spec fn entry_views(v: Seq<DirEntry>) -> Seq<DirEntryView> {
    Seq::new(v.len(), |i: int| v[i]@)
}

/// A name with the `.md` extension (a bare `.md` has none).
pub open spec fn is_md_name(name: Seq<char>) -> bool {
    name.len() > 3 && name.subrange(name.len() - 3, name.len() as int) == seq!['.', 'm', 'd']
}

/// Executable test for [`is_md_name`].
pub fn is_md_name_str(name: &str) -> (r: bool)
    ensures
        r == is_md_name(name@),
{
    let v = crate::strutil::str_chars(name);
    let n = v.len();
    if n > 3 && v[n - 3] == '.' && v[n - 2] == 'm' && v[n - 1] == 'd' {
        proof {
            assert(name@.subrange(name@.len() - 3, name@.len() as int) =~= seq!['.', 'm', 'd']);
        }
        true
    } else {
        proof {
            if n > 3 {
                assert(name@.subrange(name@.len() - 3, name@.len() as int) != seq![
                    '.',
                    'm',
                    'd',
                ]) by {
                    let sub = name@.subrange(name@.len() - 3, name@.len() as int);
                    assert(sub[0] == v@[n - 3] && sub[1] == v@[n - 2] && sub[2] == v@[n - 1]);
                }
            }
        }
        false
    }
}

/// The value of the first `**Thread ID**:` line of a text, if any.
pub open spec fn first_thread_id(ls: Seq<Seq<char>>) -> Option<Seq<char>>
    decreases ls.len(),
{
    if ls.len() == 0 {
        None
    } else {
        match meta_parse(ls[0]) {
            Some(kv) => if kv.0 == key_thread_id() {
                Some(kv.1)
            } else {
                first_thread_id(ls.drop_first())
            },
            None => first_thread_id(ls.drop_first()),
        }
    }
}

/// Whether a file claims the thread key: it is an `.md` file whose first
/// `**Thread ID**:` line carries exactly the key.
pub open spec fn entry_matches(e: DirEntryView, key: Seq<char>) -> bool {
    is_md_name(e.name) && first_thread_id(lines_of(e.text)) == Some(key)
}

/// The first matching file of the snapshot, if any.
pub open spec fn find_spec(entries: Seq<DirEntryView>, key: Seq<char>) -> Option<int>
    decreases entries.len(),
{
    if entries.len() == 0 {
        None
    } else if entry_matches(entries[0], key) {
        Some(0)
    } else {
        match find_spec(entries.drop_first(), key) {
            Some(i) => Some(i + 1),
            None => None,
        }
    }
}

proof fn lemma_find_spec_range(entries: Seq<DirEntryView>, key: Seq<char>)
    ensures
        find_spec(entries, key) is Some ==> {
            let i = find_spec(entries, key)->0;
            &&& 0 <= i < entries.len()
            &&& entry_matches(entries[i], key)
            &&& forall|k: int| 0 <= k < i ==> !entry_matches(#[trigger] entries[k], key)
        },
        find_spec(entries, key) is None ==> forall|k: int|
            0 <= k < entries.len() ==> !entry_matches(#[trigger] entries[k], key),
    decreases entries.len(),
{
    if entries.len() > 0 && !entry_matches(entries[0], key) {
        lemma_find_spec_range(entries.drop_first(), key);
        let rest = entries.drop_first();
        assert(forall|k: int| 0 <= k < entries.len() - 1 ==> rest[k] == entries[k + 1]);
        match find_spec(rest, key) {
            Some(j) => {
                assert(find_spec(entries, key) == Some(j + 1));
                assert(entry_matches(entries[j + 1], key));
                assert forall|k: int| 0 <= k < j + 1 implies !entry_matches(
                    #[trigger] entries[k],
                    key,
                ) by {
                    if k > 0 {
                        assert(entries[k] == rest[k - 1]);
                    }
                }
            },
            None => {
                assert forall|k: int| 0 <= k < entries.len() implies !entry_matches(
                    #[trigger] entries[k],
                    key,
                ) by {
                    if k > 0 {
                        assert(entries[k] == rest[k - 1]);
                    }
                }
            },
        }
    }
}

/// The first `**Thread ID**:` value of a text.
fn text_thread_id(text: &str) -> (r: Option<String>)
    ensures
        match r {
            Some(v) => first_thread_id(lines_of(text@)) == Some(v@),
            None => first_thread_id(lines_of(text@)) is None,
        },
{
    let tv = crate::strutil::str_chars(text);
    let lines = crate::strutil::split_chars(&tv, '\n');
    let ghost ls = lines_of(text@);
    let n = lines.len();
    let mut i: usize = 0;
    proof {
        reveal_strlit("Thread ID");
        assert("Thread ID"@ =~= key_thread_id());
        assert(crate::strutil::views(lines@) == ls);
        assert(ls.subrange(0, n as int) =~= ls);
    }
    let key = crate::strutil::str_chars("Thread ID");
    while i < n
        invariant
            0 <= i <= n,
            n == lines.len(),
            key@ == key_thread_id(),
            first_thread_id(ls) == first_thread_id(ls.subrange(i as int, n as int)),
        decreases n - i,
    {
        proof {
            assert(ls.subrange(i as int, n as int)[0] == ls[i as int]);
            assert(ls.subrange(i as int, n as int).drop_first() =~= ls.subrange(i + 1, n as int));
        }
        match crate::markdown::meta_parse_line(&lines[i]) {
            Some(kv) => {
                if crate::strutil::chars_eq(&kv.0, &key) {
                    return Some(crate::strutil::chars_string(&kv.1));
                }
            },
            None => {},
        }
        i = i + 1;
    }
    proof {
        assert(ls.subrange(n as int, n as int) =~= Seq::<Seq<char>>::empty());
    }
    None
}

/// Find the file whose `Thread ID` metadata equals the thread key: the
/// first match in snapshot order.
pub fn find_thread_file(files: &Vec<DirEntry>, thread_id: &str) -> (r: Option<usize>)
    ensures
        match r {
            Some(i) => find_spec(entry_views(files@), thread_id@) == Some(i as int),
            None => find_spec(entry_views(files@), thread_id@) is None,
        },
{
    let ghost evs = entry_views(files@);
    proof {
        lemma_find_spec_range(evs, thread_id@);
    }
    let n = files.len();
    let mut i: usize = 0;
    while i < n
        invariant
            0 <= i <= n,
            n == files.len(),
            forall|k: int| 0 <= k < i ==> !entry_matches(evs[k], thread_id@),
        decreases n - i,
    {
        if is_md_name_str(files[i].name.as_str()) {
            match text_thread_id(files[i].text.as_str()) {
                Some(v) => {
                    if crate::strutil::str_eq(v.as_str(), thread_id) {
                        proof {
                            assert(entry_matches(evs[i as int], thread_id@));
                        }
                        return Some(i);
                    }
                },
                None => {},
            }
        }
        i = i + 1;
    }
    None
}

// ---------------------------------------------------------------------
// Sorting messages by parsed date
// ---------------------------------------------------------------------

/// Messages in ascending order of parsed date.
pub open spec fn sorted_by_date(ms: Seq<MessageView>) -> bool {
    forall|i: int, j: int|
        0 <= i < j < ms.len() ==> date_num_of(ms[i].date) <= date_num_of(ms[j].date)
}

/// Stable insertion: the new message goes after every message whose
/// date does not exceed its own.
pub open spec fn insert_sorted(ms: Seq<MessageView>, m: MessageView) -> Seq<MessageView>
    decreases ms.len(),
{
    if ms.len() > 0 && date_num_of(ms.last().date) > date_num_of(m.date) {
        insert_sorted(ms.drop_last(), m) + seq![ms.last()]
    } else {
        ms.push(m)
    }
}

/// The stable sort by parsed date: what `sort_by_key` leaves behind.
pub open spec fn sort_by_date(ms: Seq<MessageView>) -> Seq<MessageView>
    decreases ms.len(),
{
    if ms.len() == 0 {
        Seq::empty()
    } else {
        insert_sorted(sort_by_date(ms.drop_last()), ms.last())
    }
}

proof fn lemma_insert_sorted_at(ms: Seq<MessageView>, m: MessageView, j: int)
    requires
        0 <= j <= ms.len(),
        forall|i: int| j <= i < ms.len() ==> date_num_of(ms[i].date) > date_num_of(m.date),
        j > 0 ==> date_num_of(ms[j - 1].date) <= date_num_of(m.date),
    ensures
        insert_sorted(ms, m) == ms.subrange(0, j) + seq![m] + ms.subrange(j, ms.len() as int),
    decreases ms.len(),
{
    if j == ms.len() {
        assert(insert_sorted(ms, m) == ms.push(m));
        assert(ms.push(m) =~= ms.subrange(0, j) + seq![m] + ms.subrange(j, ms.len() as int));
    } else {
        lemma_insert_sorted_at(ms.drop_last(), m, j);
        assert(insert_sorted(ms, m) == insert_sorted(ms.drop_last(), m) + seq![ms.last()]);
        assert(ms.drop_last().subrange(0, j) =~= ms.subrange(0, j));
        assert(ms.drop_last().subrange(j, ms.drop_last().len() as int) =~= ms.subrange(
            j,
            ms.len() - 1,
        ));
        assert(ms.subrange(0, j) + seq![m] + ms.subrange(j, ms.len() - 1) + seq![ms.last()]
            =~= ms.subrange(0, j) + seq![m] + ms.subrange(j, ms.len() as int));
    }
}

/// Inserting into a sorted list keeps it sorted.
pub proof fn lemma_insert_sorted_sorted(ms: Seq<MessageView>, m: MessageView)
    requires
        sorted_by_date(ms),
    ensures
        sorted_by_date(insert_sorted(ms, m)),
    decreases ms.len(),
{
    if ms.len() > 0 && date_num_of(ms.last().date) > date_num_of(m.date) {
        assert(sorted_by_date(ms.drop_last()));
        lemma_insert_sorted_sorted(ms.drop_last(), m);
        let r = insert_sorted(ms.drop_last(), m) + seq![ms.last()];
        lemma_insert_multiset(ms.drop_last(), m);
        assert forall|i: int, j: int|
            0 <= i < j < r.len() implies date_num_of(r[i].date) <= date_num_of(r[j].date) by {
            if j < r.len() - 1 {
                assert(r[i] == insert_sorted(ms.drop_last(), m)[i]);
                assert(r[j] == insert_sorted(ms.drop_last(), m)[j]);
            } else {
                assert(r[j] == ms.last());
                let inner = insert_sorted(ms.drop_last(), m);
                assert(r[i] == inner[i]);
                assert(inner.to_multiset().contains(inner[i])) by {
                    inner.to_multiset_ensures();
                }
                assert(ms.drop_last().to_multiset().insert(m).contains(inner[i]));
                if inner[i] == m {
                    assert(date_num_of(r[i].date) <= date_num_of(r[j].date));
                } else {
                    assert(ms.drop_last().to_multiset().contains(inner[i]));
                    assert(exists|k: int|
                        0 <= k < ms.drop_last().len() && ms.drop_last()[k] == inner[i]) by {
                        ms.drop_last().to_multiset_ensures();
                        assert(ms.drop_last().contains(inner[i]));
                    }
                    let k = choose|k: int|
                        0 <= k < ms.drop_last().len() && ms.drop_last()[k] == inner[i];
                    assert(ms[k] == inner[i]);
                    assert(date_num_of(ms[k].date) <= date_num_of(ms.last().date));
                }
            }
        }
    } else {
        let r = ms.push(m);
        assert forall|i: int, j: int|
            0 <= i < j < r.len() implies date_num_of(r[i].date) <= date_num_of(r[j].date) by {
            if j == r.len() - 1 {
                if ms.len() > 0 {
                    assert(date_num_of(ms[i].date) <= date_num_of(ms.last().date));
                }
            }
        }
    }
}

/// Insertion only adds the new message to the collection.
pub proof fn lemma_insert_multiset(ms: Seq<MessageView>, m: MessageView)
    ensures
        insert_sorted(ms, m).to_multiset() == ms.to_multiset().insert(m),
        insert_sorted(ms, m).len() == ms.len() + 1,
    decreases ms.len(),
{
    ms.to_multiset_ensures();
    insert_sorted(ms, m).to_multiset_ensures();
    if ms.len() > 0 && date_num_of(ms.last().date) > date_num_of(m.date) {
        lemma_insert_multiset(ms.drop_last(), m);
        let inner = insert_sorted(ms.drop_last(), m);
        inner.to_multiset_ensures();
        ms.drop_last().to_multiset_ensures();
        assert(insert_sorted(ms, m) == inner + seq![ms.last()]);
        assert(inner + seq![ms.last()] =~= inner.push(ms.last()));
        (inner + seq![ms.last()]).to_multiset_ensures();
        assert(inner.push(ms.last()).to_multiset() == inner.to_multiset().insert(ms.last()));
        assert(ms =~= ms.drop_last().push(ms.last()));
        assert(ms.drop_last().push(ms.last()).to_multiset() == ms.drop_last().to_multiset().insert(
            ms.last(),
        ));
        assert(inner.to_multiset().insert(ms.last()) =~= ms.to_multiset().insert(m)) by {
            assert(inner.to_multiset() == ms.drop_last().to_multiset().insert(m));
            assert(ms.to_multiset() == ms.drop_last().to_multiset().insert(ms.last()));
        }
    } else {
        ms.push(m).to_multiset_ensures();
    }
}

/// Sorting keeps the collection of messages.
pub proof fn lemma_sort_multiset(ms: Seq<MessageView>)
    ensures
        sort_by_date(ms).to_multiset() == ms.to_multiset(),
        sort_by_date(ms).len() == ms.len(),
        sorted_by_date(sort_by_date(ms)),
    decreases ms.len(),
{
    ms.to_multiset_ensures();
    if ms.len() == 0 {
        assert(sort_by_date(ms) =~= Seq::<MessageView>::empty());
        assert(Seq::<MessageView>::empty().to_multiset() =~= ms.to_multiset()) by {
            Seq::<MessageView>::empty().to_multiset_ensures();
        }
        assert(sorted_by_date(sort_by_date(ms)));
    } else {
        lemma_sort_multiset(ms.drop_last());
        lemma_insert_multiset(sort_by_date(ms.drop_last()), ms.last());
        lemma_insert_sorted_sorted(sort_by_date(ms.drop_last()), ms.last());
        ms.drop_last().to_multiset_ensures();
        assert(ms =~= ms.drop_last().push(ms.last()));
        assert(ms.drop_last().push(ms.last()).to_multiset() == ms.drop_last().to_multiset().insert(
            ms.last(),
        ));
        assert(sort_by_date(ms).to_multiset() =~= ms.to_multiset());
    }
}

/// Sort messages ascending by parsed date, stably.
pub fn sort_messages(msgs: Vec<Message>) -> (r: Vec<Message>)
    ensures
        msg_views(r@) == sort_by_date(msg_views(msgs@)),
{
    let mut out: Vec<Message> = Vec::new();
    let n = msgs.len();
    let mut i: usize = 0;
    proof {
        assert(msg_views(msgs@).subrange(0, 0) =~= Seq::<MessageView>::empty());
        assert(msg_views(out@) =~= Seq::<MessageView>::empty());
    }
    while i < n
        invariant
            0 <= i <= n,
            n == msgs.len(),
            msg_views(out@) == sort_by_date(msg_views(msgs@).subrange(0, i as int)),
        decreases n - i,
    {
        let m = msgs[i].duplicate();
        let k = parse_msg_date(m.date.as_str());
        let mut j: usize = out.len();
        while j > 0 && parse_msg_date(out[j - 1].date.as_str()) > k
            invariant
                0 <= j <= out.len(),
                forall|p: int|
                    j <= p < out@.len() ==> date_num_of(msg_views(out@)[p].date) > date_num_of(
                        m@.date,
                    ),
            decreases j,
        {
            j = j - 1;
        }
        let ghost old_out = msg_views(out@);
        out.insert(j, m);
        proof {
            lemma_insert_sorted_at(old_out, m@, j as int);
            assert(msg_views(out@) =~= old_out.subrange(0, j as int) + seq![m@] + old_out.subrange(
                j as int,
                old_out.len() as int,
            ));
            let pre = msg_views(msgs@).subrange(0, i as int);
            assert(pre.push(msg_views(msgs@)[i as int]) =~= msg_views(msgs@).subrange(
                0,
                i + 1 as int,
            ));
            assert(msg_views(out@) == insert_sorted(sort_by_date(pre), m@));
            assert(sort_by_date(pre.push(m@)) == insert_sorted(sort_by_date(pre), m@)) by {
                assert(pre.push(m@).drop_last() =~= pre);
            }
        }
        i = i + 1;
    }
    proof {
        assert(msg_views(msgs@).subrange(0, n as int) =~= msg_views(msgs@));
    }
    out
}

// ---------------------------------------------------------------------
// Slug-based file names
// ---------------------------------------------------------------------

/// A slug with the `.md` extension.
pub open spec fn md_name_of(s: Seq<char>) -> Seq<char> {
    s + seq!['.', 'm', 'd']
}

/// The n-th fallback slug: `slug-n`.
pub open spec fn slug_n(s: Seq<char>, n: int) -> Seq<char> {
    s + seq!['-'] + dec_digits(n)
}

proof fn lemma_dec_len(n: int)
    ensures
        dec_digits(n).len() >= 1,
    decreases n,
{
    if n >= 10 {
        lemma_dec_len(n / 10);
    }
}

proof fn lemma_dec_injective(a: int, b: int)
    requires
        a >= 0,
        b >= 0,
        dec_digits(a) == dec_digits(b),
    ensures
        a == b,
    decreases a + b,
{
    lemma_dec_len(a);
    lemma_dec_len(b);
    if a < 10 && b < 10 {
        assert(dec_digits(a)[0] == digit_char(a));
        assert(dec_digits(b)[0] == digit_char(b));
        assert(a == b);
    } else if a < 10 {
        lemma_dec_len(b / 10);
        assert(dec_digits(b).len() >= 2);
        assert(dec_digits(a).len() == 1);
    } else if b < 10 {
        lemma_dec_len(a / 10);
        assert(dec_digits(a).len() >= 2);
        assert(dec_digits(b).len() == 1);
    } else {
        assert(dec_digits(a) == dec_digits(a / 10) + seq![digit_char(a % 10)]);
        assert(dec_digits(b) == dec_digits(b / 10) + seq![digit_char(b % 10)]);
        assert(dec_digits(a).last() == digit_char(a % 10));
        assert(dec_digits(b).last() == digit_char(b % 10));
        assert(a % 10 == b % 10);
        assert(dec_digits(a).drop_last() =~= dec_digits(a / 10));
        assert(dec_digits(b).drop_last() =~= dec_digits(b / 10));
        assert(a / 10 + b / 10 < a + b) by (nonlinear_arith)
            requires
                a >= 10,
                b >= 10,
        ;
        lemma_dec_injective(a / 10, b / 10);
        assert(a == a / 10 * 10 + a % 10) by (nonlinear_arith);
        assert(b == b / 10 * 10 + b % 10) by (nonlinear_arith);
    }
}

proof fn lemma_candidate_injective(s: Seq<char>, n: int, m: int)
    requires
        n >= 2,
        m >= 2,
        md_name_of(slug_n(s, n)) == md_name_of(slug_n(s, m)),
    ensures
        n == m,
{
    let x = slug_n(s, n);
    let y = slug_n(s, m);
    assert(md_name_of(x) == md_name_of(y));
    assert(md_name_of(x).len() == x.len() + 3);
    assert(md_name_of(y).len() == y.len() + 3);
    assert(x.len() == y.len());
    assert(x =~= md_name_of(x).subrange(0, x.len() as int));
    assert(y =~= md_name_of(y).subrange(0, y.len() as int));
    assert(x == y);
    assert(dec_digits(n) =~= x.subrange(s.len() as int + 1, x.len() as int));
    assert(dec_digits(m) =~= y.subrange(s.len() as int + 1, y.len() as int));
    lemma_dec_injective(n, m);
}

proof fn lemma_free_candidate(names: Seq<Seq<char>>, slug: Seq<char>, lo: int)
    requires
        lo >= 2,
    ensures
        exists|n: int|
            lo <= n <= lo + names.len() && !str_in(names, md_name_of(#[trigger] slug_n(slug, n))),
    decreases names.len(),
{
    if !str_in(names, md_name_of(slug_n(slug, lo))) {
        assert(lo <= lo <= lo + names.len());
    } else {
        let i0 = choose|i: int| 0 <= i < names.len() && names[i] == md_name_of(slug_n(slug, lo));
        let names2 = names.remove(i0);
        assert(names2.len() == names.len() - 1);
        lemma_free_candidate(names2, slug, lo + 1);
        let n = choose|n: int|
            lo + 1 <= n <= lo + 1 + names2.len() && !str_in(
                names2,
                md_name_of(#[trigger] slug_n(slug, n)),
            );
        assert(!str_in(names, md_name_of(slug_n(slug, n)))) by {
            if str_in(names, md_name_of(slug_n(slug, n))) {
                let j = choose|j: int|
                    0 <= j < names.len() && names[j] == md_name_of(slug_n(slug, n));
                if j == i0 {
                    lemma_candidate_injective(slug, lo, n);
                } else if j < i0 {
                    assert(names2[j] == names[j]);
                    assert(str_in(names2, md_name_of(slug_n(slug, n))));
                } else {
                    assert(names2[j - 1] == names[j]);
                    assert(str_in(names2, md_name_of(slug_n(slug, n))));
                }
            }
        }
        assert(lo <= n <= lo + names.len());
    }
}

/// Whether some existing name equals the candidate.
fn name_taken(existing: &Vec<String>, cand: &Vec<char>) -> (r: bool)
    ensures
        r == str_in(strs(existing@), cand@),
{
    let n = existing.len();
    let mut i: usize = 0;
    while i < n
        invariant
            0 <= i <= n,
            n == existing.len(),
            forall|k: int| 0 <= k < i ==> strs(existing@)[k] != cand@,
        decreases n - i,
    {
        let ev = crate::strutil::str_chars(existing[i].as_str());
        if crate::strutil::chars_eq(&ev, cand) {
            assert(strs(existing@)[i as int] == cand@);
            return true;
        }
        i = i + 1;
    }
    false
}

/// The candidate file name `slug.md` or `slug-n.md` as characters.
fn candidate_chars(slugv: &Vec<char>, n: u64) -> (r: Vec<char>)
    requires
        n >= 2,
    ensures
        r@ == md_name_of(slug_n(slugv@, n as int)),
{
    let mut r: Vec<char> = Vec::new();
    let mut k: usize = 0;
    let sn = slugv.len();
    while k < sn
        invariant
            0 <= k <= sn,
            sn == slugv.len(),
            r@ == slugv@.subrange(0, k as int),
        decreases sn - k,
    {
        r.push(slugv[k]);
        assert(r@ =~= slugv@.subrange(0, k + 1 as int));
        k = k + 1;
    }
    proof {
        assert(slugv@.subrange(0, sn as int) =~= slugv@);
    }
    r.push('-');
    crate::strutil::push_dec(&mut r, n);
    r.push('.');
    r.push('m');
    r.push('d');
    proof {
        assert(r@ =~= md_name_of(slug_n(slugv@, n as int)));
    }
    r
}

/// A slug that collides with no existing file name: the bare slug if
/// `slug.md` is free, else `slug-n` for the smallest free `n` from 2 up.
pub fn unique_slug(existing: &Vec<String>, slug: &str) -> (r: String)
    requires
        existing@.len() + 2 < 0xffff_ffff_ffff_ffff,
    ensures
        !str_in(strs(existing@), md_name_of(slug@)) ==> r@ == slug@,
        str_in(strs(existing@), md_name_of(slug@)) ==> exists|n: int|
            2 <= n && r@ == #[trigger] slug_n(slug@, n) && !str_in(
                strs(existing@),
                md_name_of(slug_n(slug@, n)),
            ) && forall|m: int| 2 <= m < n ==> str_in(strs(existing@), md_name_of(slug_n(slug@, m))),
{
    let slugv = crate::strutil::str_chars(slug);
    let mut bare: Vec<char> = Vec::new();
    let mut k: usize = 0;
    let sn = slugv.len();
    while k < sn
        invariant
            0 <= k <= sn,
            sn == slugv.len(),
            bare@ == slugv@.subrange(0, k as int),
        decreases sn - k,
    {
        bare.push(slugv[k]);
        assert(bare@ =~= slugv@.subrange(0, k + 1 as int));
        k = k + 1;
    }
    proof {
        assert(slugv@.subrange(0, sn as int) =~= slugv@);
    }
    bare.push('.');
    bare.push('m');
    bare.push('d');
    proof {
        assert(bare@ =~= md_name_of(slug@));
    }
    if !name_taken(existing, &bare) {
        return slug.to_owned();
    }
    proof {
        lemma_free_candidate(strs(existing@), slug@, 2);
    }
    let mut n: u64 = 2;
    let mut cand = candidate_chars(&slugv, n);
    while name_taken(existing, &cand)
        invariant
            2 <= n,
            n <= strs(existing@).len() + 2,
            cand@ == md_name_of(slug_n(slug@, n as int)),
            slugv@ == slug@,
            existing@.len() + 2 < 0xffff_ffff_ffff_ffff,
            forall|m: int| 2 <= m < n ==> str_in(strs(existing@), md_name_of(slug_n(slug@, m))),
            exists|f: int|
                2 <= f <= 2 + strs(existing@).len() && !str_in(
                    strs(existing@),
                    md_name_of(#[trigger] slug_n(slug@, f)),
                ),
        decreases strs(existing@).len() + 2 - n,
    {
        proof {
            let f = choose|f: int|
                2 <= f <= 2 + strs(existing@).len() && !str_in(
                    strs(existing@),
                    md_name_of(#[trigger] slug_n(slug@, f)),
                );
            assert(f > n);
        }
        n = n + 1;
        cand = candidate_chars(&slugv, n);
    }
    let mut out: Vec<char> = Vec::new();
    let mut k2: usize = 0;
    while k2 < sn
        invariant
            0 <= k2 <= sn,
            sn == slugv.len(),
            out@ == slugv@.subrange(0, k2 as int),
        decreases sn - k2,
    {
        out.push(slugv[k2]);
        assert(out@ =~= slugv@.subrange(0, k2 + 1 as int));
        k2 = k2 + 1;
    }
    proof {
        assert(slugv@.subrange(0, sn as int) =~= slugv@);
    }
    out.push('-');
    crate::strutil::push_dec(&mut out, n);
    proof {
        assert(out@ =~= slug_n(slug@, n as int));
    }
    crate::strutil::chars_string(&out)
}

// ---------------------------------------------------------------------
// The merge itself
// ---------------------------------------------------------------------

/// A thread started from scratch for a key and a first subject.
pub open spec fn fresh_thread(key: Seq<char>, subject: Seq<char>) -> ThreadView {
    ThreadView {
        id: key,
        subject: subject,
        labels: Seq::empty(),
        accounts: Seq::empty(),
        messages: Seq::empty(),
        last_date: Seq::empty(),
    }
}

/// The thread a merge starts from: the decoded matching file, or a
/// fresh thread when there is none or it cannot be decoded.
pub open spec fn base_thread(
    entries: Seq<DirEntryView>,
    key: Seq<char>,
    subject: Seq<char>,
) -> ThreadView {
    match find_spec(entries, key) {
        Some(i) => match decode_spec(entries[i].text) {
            Some(tv) => tv,
            None => fresh_thread(key, subject),
        },
        None => fresh_thread(key, subject),
    }
}

/// Append a list entry unless it is empty or already present.
pub open spec fn add_entry(xs: Seq<Seq<char>>, x: Seq<char>) -> Seq<Seq<char>> {
    if x.len() == 0 || str_in(xs, x) {
        xs
    } else {
        xs.push(x)
    }
}

/// Whether the thread already holds a message with this sender and date.
pub open spec fn has_dup(ms: Seq<MessageView>, m: MessageView) -> bool {
    exists|j: int| 0 <= j < ms.len() && ms[j].from == m.from && ms[j].date == m.date
}

/// The thread after one merge: labels and accounts accumulated, and —
/// unless the message's `(from, date)` pair is already present — the
/// message inserted and the list re-sorted by parsed date, with
/// `last_date` following the last message.
pub open spec fn merged_thread(
    base: ThreadView,
    label: Seq<char>,
    account: Seq<char>,
    m: MessageView,
) -> ThreadView {
    let lb = add_entry(base.labels, label);
    let ac = add_entry(base.accounts, account);
    if has_dup(base.messages, m) {
        ThreadView {
            id: base.id,
            subject: base.subject,
            labels: lb,
            accounts: ac,
            messages: base.messages,
            last_date: base.last_date,
        }
    } else {
        let ms = sort_by_date(base.messages.push(m));
        ThreadView {
            id: base.id,
            subject: base.subject,
            labels: lb,
            accounts: ac,
            messages: ms,
            last_date: ms.last().date,
        }
    }
}

/// The file name a new thread gets, given the names already present.
pub open spec fn chosen_name_ok(names: Seq<Seq<char>>, slug: Seq<char>, chosen: Seq<char>) -> bool {
    if !str_in(names, md_name_of(slug)) {
        chosen == md_name_of(slug)
    } else {
        exists|n: int|
            2 <= n && chosen == md_name_of(#[trigger] slug_n(slug, n)) && !str_in(
                names,
                md_name_of(slug_n(slug, n)),
            ) && forall|m: int| 2 <= m < n ==> str_in(names, md_name_of(slug_n(slug, m)))
    }
}

/// The names of a directory snapshot.
pub open spec fn entry_names(entries: Seq<DirEntryView>) -> Seq<Seq<char>> {
    Seq::new(entries.len(), |i: int| entries[i].name)
}

/// What one merge writes back: the file to create or replace and its
/// new text.
pub struct MergeOutcome {
    pub file_name: String,
    pub thread: Thread,
    pub text: String,
}

/// Whether some existing message shares the sender and date.
fn has_dup_exec(msgs: &Vec<Message>, m: &Message) -> (r: bool)
    ensures
        r == has_dup(msg_views(msgs@), m@),
{
    let n = msgs.len();
    let mut i: usize = 0;
    while i < n
        invariant
            0 <= i <= n,
            n == msgs.len(),
            forall|k: int|
                0 <= k < i ==> !(msg_views(msgs@)[k].from == m@.from && msg_views(msgs@)[k].date
                    == m@.date),
        decreases n - i,
    {
        if crate::strutil::str_eq(msgs[i].from.as_str(), m.from.as_str()) && crate::strutil::str_eq(
            msgs[i].date.as_str(),
            m.date.as_str(),
        ) {
            assert(msg_views(msgs@)[i as int].from == m@.from);
            return true;
        }
        i = i + 1;
    }
    false
}

/// Merge one message into its thread file.
///
/// Finds the file whose `Thread ID` equals the key (or starts a fresh
/// thread), accumulates the label and account, drops the message if its
/// `(from, date)` pair is already present, otherwise inserts it in date
/// order, and returns the file name and the new Markdown text to write.
pub fn merge_message_to_file(
    files: &Vec<DirEntry>,
    label_name: &str,
    account_name: &str,
    message: &Message,
    thread_key: &str,
) -> (r: MergeOutcome)
    requires
        files@.len() + 2 < 0xffff_ffff_ffff_ffff,
    ensures
        r.thread@ == merged_thread(
            base_thread(entry_views(files@), thread_key@, message@.subject),
            label_name@,
            account_name@,
            message@,
        ),
        r.text@ == encode_spec(r.thread@),
        match find_spec(entry_views(files@), thread_key@) {
            Some(i) => r.file_name@ == entry_views(files@)[i].name,
            None => chosen_name_ok(
                entry_names(entry_views(files@)),
                crate::util::slug_spec(
                    crate::strutil::lower_of(
                        base_thread(entry_views(files@), thread_key@, message@.subject).subject,
                    ),
                ),
                r.file_name@,
            ),
        },
{
    let ghost evs = entry_views(files@);
    let ghost base = base_thread(evs, thread_key@, message@.subject);
    proof {
        lemma_find_spec_range(evs, thread_key@);
    }
    let found = find_thread_file(files, thread_key);
    proof {
        if found is Some {
            let i = found->0 as int;
            assert(evs[i] == files@[i]@);
        }
    }
    let base_t: Thread = match found {
        Some(i) => match crate::markdown::parse_thread_markdown(files[i].text.as_str()) {
            Some(t) => t,
            None => Thread {
                id: thread_key.to_owned(),
                subject: message.subject.clone(),
                labels: Vec::new(),
                accounts: Vec::new(),
                messages: Vec::new(),
                last_date: String::new(),
            },
        },
        None => Thread {
            id: thread_key.to_owned(),
            subject: message.subject.clone(),
            labels: Vec::new(),
            accounts: Vec::new(),
            messages: Vec::new(),
            last_date: String::new(),
        },
    };
    proof {
        assert(strs(Seq::<String>::empty()) =~= Seq::<Seq<char>>::empty());
        assert(msg_views(Seq::<Message>::empty()) =~= Seq::<MessageView>::empty());
        assert(base_t@ == base);
    }
    let Thread { id, subject, mut labels, mut accounts, messages, last_date } = base_t;

    if !label_name.is_empty() && !crate::types::contains_str(&labels, label_name) {
        let ghost old_labels = strs(labels@);
        labels.push(label_name.to_owned());
        proof {
            assert(strs(labels@) =~= old_labels.push(label_name@));
        }
    }
    proof {
        assert(strs(labels@) == add_entry(base.labels, label_name@));
    }
    if !account_name.is_empty() && !crate::types::contains_str(&accounts, account_name) {
        let ghost old_accounts = strs(accounts@);
        accounts.push(account_name.to_owned());
        proof {
            assert(strs(accounts@) =~= old_accounts.push(account_name@));
        }
    }
    proof {
        assert(strs(accounts@) == add_entry(base.accounts, account_name@));
    }

    let dup = has_dup_exec(&messages, message);
    if dup {
        proof {
            assert(found is Some);
        }
        let i = match found {
            Some(i) => i,
            None => 0,
        };
        let thread = Thread {
            id: id,
            subject: subject,
            labels: labels,
            accounts: accounts,
            messages: messages,
            last_date: last_date,
        };
        let text = crate::markdown::thread_to_markdown(&thread);
        MergeOutcome { file_name: files[i].name.clone(), thread: thread, text: text }
    } else {
        let mut msgs2 = messages;
        msgs2.push(message.duplicate());
        proof {
            assert(msg_views(msgs2@) =~= base.messages.push(message@));
        }
        let sorted = sort_messages(msgs2);
        proof {
            lemma_sort_multiset(base.messages.push(message@));
            base.messages.push(message@).to_multiset_ensures();
        }
        let new_last = sorted[sorted.len() - 1].date.clone();
        let thread = Thread {
            id: id,
            subject: subject,
            labels: labels,
            accounts: accounts,
            messages: sorted,
            last_date: new_last,
        };
        let text = crate::markdown::thread_to_markdown(&thread);
        let file_name: String = match found {
            Some(i) => files[i].name.clone(),
            None => {
                let mut names: Vec<String> = Vec::new();
                let nf = files.len();
                let mut k: usize = 0;
                while k < nf
                    invariant
                        0 <= k <= nf,
                        nf == files.len(),
                        strs(names@) == entry_names(evs).subrange(0, k as int),
                    decreases nf - k,
                {
                    names.push(files[k].name.clone());
                    proof {
                        assert(strs(names@) =~= entry_names(evs).subrange(0, k + 1 as int));
                    }
                    k = k + 1;
                }
                proof {
                    assert(entry_names(evs).subrange(0, nf as int) =~= entry_names(evs));
                }
                let slug = crate::util::slugify(thread.subject.as_str());
                let stem = unique_slug(&names, slug.as_str());
                let sv = crate::strutil::str_chars(stem.as_str());
                let mut namev = sv;
                namev.push('.');
                namev.push('m');
                namev.push('d');
                proof {
                    assert(namev@ =~= md_name_of(stem@));
                }
                crate::strutil::chars_string(&namev)
            },
        };
        MergeOutcome { file_name: file_name, thread: thread, text: text }
    }
}

// ---------------------------------------------------------------------
// Laws of the merge engine
// ---------------------------------------------------------------------

/// How many messages carry this sender and date.
pub open spec fn count_fd(ms: Seq<MessageView>, from: Seq<char>, date: Seq<char>) -> int
    decreases ms.len(),
{
    if ms.len() == 0 {
        0
    } else {
        count_fd(ms.drop_last(), from, date) + if ms.last().from == from && ms.last().date
            == date {
            1int
        } else {
            0int
        }
    }
}

proof fn lemma_count_fd_concat(a: Seq<MessageView>, b: Seq<MessageView>, f: Seq<char>, d: Seq<char>)
    ensures
        count_fd(a + b, f, d) == count_fd(a, f, d) + count_fd(b, f, d),
    decreases b.len(),
{
    if b.len() == 0 {
        assert(a + b =~= a);
    } else {
        lemma_count_fd_concat(a, b.drop_last(), f, d);
        assert((a + b).last() == b.last());
        assert((a + b).drop_last() =~= a + b.drop_last());
    }
}

proof fn lemma_insert_count_fd(ms: Seq<MessageView>, m: MessageView, f: Seq<char>, d: Seq<char>)
    ensures
        count_fd(insert_sorted(ms, m), f, d) == count_fd(ms, f, d) + if m.from == f && m.date
            == d {
            1int
        } else {
            0int
        },
    decreases ms.len(),
{
    if ms.len() > 0 && date_num_of(ms.last().date) > date_num_of(m.date) {
        lemma_insert_count_fd(ms.drop_last(), m, f, d);
        lemma_count_fd_concat(insert_sorted(ms.drop_last(), m), seq![ms.last()], f, d);
        assert(seq![ms.last()].drop_last() =~= Seq::<MessageView>::empty());
        assert(count_fd(Seq::<MessageView>::empty(), f, d) == 0);
        assert(count_fd(seq![ms.last()], f, d) == if ms.last().from == f && ms.last().date == d {
            1int
        } else {
            0int
        });
        assert(count_fd(ms, f, d) == count_fd(ms.drop_last(), f, d) + if ms.last().from == f
            && ms.last().date == d {
            1int
        } else {
            0int
        });
    } else {
        assert(ms.push(m).last() == m);
        assert(ms.push(m).drop_last() =~= ms);
    }
}

proof fn lemma_sort_count_fd(ms: Seq<MessageView>, f: Seq<char>, d: Seq<char>)
    ensures
        count_fd(sort_by_date(ms), f, d) == count_fd(ms, f, d),
    decreases ms.len(),
{
    if ms.len() > 0 {
        lemma_sort_count_fd(ms.drop_last(), f, d);
        lemma_insert_count_fd(sort_by_date(ms.drop_last()), ms.last(), f, d);
    }
}

proof fn lemma_has_dup_count(ms: Seq<MessageView>, m: MessageView)
    ensures
        has_dup(ms, m) <==> count_fd(ms, m.from, m.date) > 0,
    decreases ms.len(),
{
    if ms.len() > 0 {
        lemma_has_dup_count(ms.drop_last(), m);
        assert(count_fd(ms.drop_last(), m.from, m.date) >= 0) by {
            lemma_count_fd_nonneg(ms.drop_last(), m.from, m.date);
        }
        if has_dup(ms, m) {
            let j = choose|j: int|
                0 <= j < ms.len() && ms[j].from == m.from && ms[j].date == m.date;
            if j < ms.len() - 1 {
                assert(ms.drop_last()[j] == ms[j]);
                assert(has_dup(ms.drop_last(), m));
            }
        }
        if has_dup(ms.drop_last(), m) {
            let j = choose|j: int|
                0 <= j < ms.drop_last().len() && ms.drop_last()[j].from == m.from
                    && ms.drop_last()[j].date == m.date;
            assert(ms[j] == ms.drop_last()[j]);
        }
    }
}

proof fn lemma_count_fd_nonneg(ms: Seq<MessageView>, f: Seq<char>, d: Seq<char>)
    ensures
        count_fd(ms, f, d) >= 0,
    decreases ms.len(),
{
    if ms.len() > 0 {
        lemma_count_fd_nonneg(ms.drop_last(), f, d);
    }
}

/// Merging the same message into a thread twice inserts it only once:
/// the second merge leaves the message list unchanged, and a first
/// merge into a thread without the pair adds exactly one occurrence.
pub proof fn lemma_merge_dedup_idempotent(
    base: ThreadView,
    label: Seq<char>,
    account: Seq<char>,
    m: MessageView,
)
    ensures
        ({
            let once = merged_thread(base, label, account, m);
            let twice = merged_thread(once, label, account, m);
            &&& twice.messages == once.messages
            &&& !has_dup(base.messages, m) ==> count_fd(once.messages, m.from, m.date) == count_fd(
                base.messages,
                m.from,
                m.date,
            ) + 1
        }),
{
    let once = merged_thread(base, label, account, m);
    if has_dup(base.messages, m) {
        assert(once.messages == base.messages);
    } else {
        let pushed = base.messages.push(m);
        assert(once.messages == sort_by_date(pushed));
        lemma_sort_count_fd(pushed, m.from, m.date);
        assert(pushed.drop_last() =~= base.messages);
        assert(pushed.last() == m);
        assert(count_fd(pushed, m.from, m.date) == count_fd(base.messages, m.from, m.date) + 1);
        lemma_count_fd_nonneg(base.messages, m.from, m.date);
        lemma_has_dup_count(once.messages, m);
        assert(has_dup(once.messages, m));
    }
}

/// Two messages that share a date but not a sender both persist: after
/// merging both into a thread that held neither pair, the thread has
/// gained two messages.
pub proof fn lemma_merge_distinct_senders(
    base: ThreadView,
    label: Seq<char>,
    account: Seq<char>,
    m1: MessageView,
    m2: MessageView,
)
    requires
        m1.date == m2.date,
        m1.from != m2.from,
        !has_dup(base.messages, m1),
        !has_dup(base.messages, m2),
    ensures
        ({
            let t1 = merged_thread(base, label, account, m1);
            let t2 = merged_thread(t1, label, account, m2);
            t2.messages.len() == base.messages.len() + 2
        }),
{
    let t1 = merged_thread(base, label, account, m1);
    let pushed1 = base.messages.push(m1);
    lemma_sort_multiset(pushed1);
    assert(t1.messages == sort_by_date(pushed1));
    assert(t1.messages.len() == base.messages.len() + 1);
    lemma_sort_count_fd(pushed1, m2.from, m2.date);
    assert(pushed1.drop_last() =~= base.messages);
    lemma_has_dup_count(base.messages, m2);
    lemma_count_fd_nonneg(base.messages, m2.from, m2.date);
    assert(count_fd(pushed1, m2.from, m2.date) == 0);
    lemma_has_dup_count(t1.messages, m2);
    assert(!has_dup(t1.messages, m2));
    let pushed2 = t1.messages.push(m2);
    lemma_sort_multiset(pushed2);
}

/// Merging keeps the message list in ascending date order.
pub proof fn lemma_merge_chronological(
    base: ThreadView,
    label: Seq<char>,
    account: Seq<char>,
    m: MessageView,
)
    requires
        sorted_by_date(base.messages),
    ensures
        sorted_by_date(merged_thread(base, label, account, m).messages),
{
    if !has_dup(base.messages, m) {
        lemma_sort_multiset(base.messages.push(m));
    }
}

/// How many entries equal `x`.
pub open spec fn count_str(xs: Seq<Seq<char>>, x: Seq<char>) -> int
    decreases xs.len(),
{
    if xs.len() == 0 {
        0
    } else {
        count_str(xs.drop_last(), x) + if xs.last() == x {
            1int
        } else {
            0int
        }
    }
}

proof fn lemma_no_dup_count_str(xs: Seq<Seq<char>>, x: Seq<char>)
    requires
        crate::types::no_dup_strs(xs),
    ensures
        count_str(xs, x) == if str_in(xs, x) {
            1int
        } else {
            0int
        },
    decreases xs.len(),
{
    if xs.len() > 0 {
        assert(crate::types::no_dup_strs(xs.drop_last())) by {
            assert(forall|i: int| 0 <= i < xs.len() - 1 ==> xs.drop_last()[i] == xs[i]);
        }
        lemma_no_dup_count_str(xs.drop_last(), x);
        if str_in(xs, x) {
            let j = choose|j: int| 0 <= j < xs.len() && xs[j] == x;
            if xs.last() == x {
                assert(!str_in(xs.drop_last(), x)) by {
                    if str_in(xs.drop_last(), x) {
                        let k = choose|k: int|
                            0 <= k < xs.drop_last().len() && xs.drop_last()[k] == x;
                        assert(xs[k] == x);
                        assert(xs[k] == xs[xs.len() - 1]);
                    }
                }
            } else {
                assert(j < xs.len() - 1);
                assert(xs.drop_last()[j] == x);
                assert(str_in(xs.drop_last(), x));
            }
        } else {
            assert(!str_in(xs.drop_last(), x)) by {
                if str_in(xs.drop_last(), x) {
                    let k = choose|k: int| 0 <= k < xs.drop_last().len() && xs.drop_last()[k] == x;
                    assert(xs[k] == x);
                }
            }
        }
    }
}

/// Label and account accumulation never duplicates: adding an entry
/// twice equals adding it once, duplicates never arise, and a non-empty
/// entry ends up present exactly once.
pub proof fn lemma_entry_accumulation(xs: Seq<Seq<char>>, x: Seq<char>)
    requires
        crate::types::no_dup_strs(xs),
    ensures
        crate::types::no_dup_strs(add_entry(xs, x)),
        add_entry(add_entry(xs, x), x) == add_entry(xs, x),
        x.len() > 0 ==> count_str(add_entry(xs, x), x) == 1,
{
    if x.len() == 0 {
    } else if str_in(xs, x) {
        lemma_no_dup_count_str(xs, x);
    } else {
        let r = xs.push(x);
        assert(crate::types::no_dup_strs(r)) by {
            assert forall|i: int, j: int| 0 <= i < j < r.len() implies r[i] != r[j] by {
                if j == r.len() - 1 {
                    assert(r[i] == xs[i]);
                    assert(!str_in(xs, x));
                }
            }
        }
        assert(r[xs.len() as int] == x);
        assert(str_in(r, x));
        lemma_no_dup_count_str(r, x);
    }
}

/// An empty label or account entry is never recorded.
pub proof fn lemma_empty_entry_ignored(xs: Seq<Seq<char>>)
    ensures
        add_entry(xs, Seq::<char>::empty()) == xs,
{
}

/// The thread invariant: messages ascending by parsed date, the last
/// date following the last message, and no duplicate labels or
/// accounts.
pub open spec fn thread_wf(t: ThreadView) -> bool {
    &&& sorted_by_date(t.messages)
    &&& t.messages.len() > 0 ==> t.last_date == t.messages.last().date
    &&& crate::types::no_dup_strs(t.labels)
    &&& crate::types::no_dup_strs(t.accounts)
}

/// A fresh thread satisfies the invariant, and every merge preserves
/// it.
pub proof fn lemma_merge_preserves_invariant(
    base: ThreadView,
    label: Seq<char>,
    account: Seq<char>,
    m: MessageView,
)
    requires
        thread_wf(base),
    ensures
        thread_wf(merged_thread(base, label, account, m)),
        thread_wf(fresh_thread(base.id, base.subject)),
{
    lemma_merge_chronological(base, label, account, m);
    lemma_entry_accumulation(base.labels, label);
    lemma_entry_accumulation(base.accounts, account);
    if !has_dup(base.messages, m) {
        lemma_sort_multiset(base.messages.push(m));
    }
}

} // verus!

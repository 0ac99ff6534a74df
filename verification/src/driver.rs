//! Label sync driver decisions: fetch mode, search criteria, cursor
//! arithmetic, header extraction and MIME body selection.
//!
//! The surrounding application performs the IMAP calls and hands the
//! results here as plain values.

#![verifier::loop_isolation(false)]

use vstd::prelude::*;

use crate::strutil::{dec_digits, push_dec};
use crate::types::{LabelState, Message};

verus! {

broadcast use vstd::std_specs::vec::axiom_vec_index_decreases;

/// One MIME part of a parsed message: its content type, whether a
/// `Content-Disposition` header is present, its decoded body if it
/// could be read, and its sub-parts.
pub struct MimePart {
    pub mimetype: String,
    pub has_disposition: bool,
    pub body: Option<String>,
    pub subparts: Vec<MimePart>,
}

/// The `text/plain` content type.
pub open spec fn text_plain() -> Seq<char> {
    seq!['t', 'e', 'x', 't', '/', 'p', 'l', 'a', 'i', 'n']
}

/// Whether a part is a readable plain-text part without a disposition.
pub open spec fn plain_inline(p: MimePart) -> bool {
    p.mimetype@ == text_plain() && !p.has_disposition && p.body is Some
}

/// The body the driver extracts: a leaf's own body; otherwise the first
/// child that is plain inline text, or the first child whose own
/// extraction is non-empty, in depth-first order.
pub open spec fn extract_body_spec(p: MimePart) -> Seq<char>
    decreases p, 1int,
{
    if p.subparts@.len() == 0 {
        match p.body {
            Some(b) => b@,
            None => Seq::empty(),
        }
    } else {
        scan_parts(p, 0)
    }
}

/// Scan the children of `p` from position `i` on.
pub open spec fn scan_parts(p: MimePart, i: int) -> Seq<char>
    decreases p, 0int, p.subparts@.len() - i,
{
    if i < 0 || i >= p.subparts@.len() {
        Seq::empty()
    } else {
        let c = p.subparts@[i];
        if plain_inline(c) {
            c.body->0@
        } else {
            let nested = extract_body_spec(c);
            if nested.len() > 0 {
                nested
            } else {
                scan_parts(p, i + 1)
            }
        }
    }
}

/// Extract the message body to mirror into the thread file.
pub fn extract_body(p: &MimePart) -> (r: String)
    ensures
        r@ == extract_body_spec(*p),
    decreases *p, 1int,
{
    let n = p.subparts.len();
    if n == 0 {
        match &p.body {
            Some(b) => b.clone(),
            None => String::new(),
        }
    } else {
        let mut i: usize = 0;
        while i < n
            invariant
                0 <= i <= n,
                n == p.subparts@.len(),
                scan_parts(*p, 0) == scan_parts(*p, i as int),
            decreases n - i,
        {
            let c = &p.subparts[i];
            let is_plain = crate::strutil::str_eq(c.mimetype.as_str(), "text/plain");
            proof {
                reveal_strlit("text/plain");
                assert("text/plain"@ =~= text_plain());
            }
            if is_plain && !c.has_disposition {
                match &c.body {
                    Some(b) => {
                        proof {
                            assert(plain_inline(p.subparts@[i as int]));
                        }
                        return b.clone();
                    },
                    None => {},
                }
            }
            proof {
                assert(!plain_inline(p.subparts@[i as int]));
            }
            let nested = extract_body(c);
            if !nested.as_str().is_empty() {
                return nested;
            }
            i = i + 1;
        }
        String::new()
    }
}

/// Whether the next fetch must be a full one: requested, never synced,
/// or the folder's identity token changed.  A UIDVALIDITY change forces
/// full mode regardless of the stored cursor.
pub fn full_resync_needed(full: bool, prior: Option<LabelState>, uidvalidity: u32) -> (r: bool)
    ensures
        r == (full || prior is None || prior->0.uidvalidity != uidvalidity),
{
    match prior {
        None => true,
        Some(p) => full || p.uidvalidity != uidvalidity,
    }
}

/// The English month abbreviation used in protocol dates.
pub open spec fn month_abbrev(m: int) -> Seq<char> {
    if m == 1 {
        seq!['J', 'a', 'n']
    } else if m == 2 {
        seq!['F', 'e', 'b']
    } else if m == 3 {
        seq!['M', 'a', 'r']
    } else if m == 4 {
        seq!['A', 'p', 'r']
    } else if m == 5 {
        seq!['M', 'a', 'y']
    } else if m == 6 {
        seq!['J', 'u', 'n']
    } else if m == 7 {
        seq!['J', 'u', 'l']
    } else if m == 8 {
        seq!['A', 'u', 'g']
    } else if m == 9 {
        seq!['S', 'e', 'p']
    } else if m == 10 {
        seq!['O', 'c', 't']
    } else if m == 11 {
        seq!['N', 'o', 'v']
    } else {
        seq!['D', 'e', 'c']
    }
}

/// A day number as two digits, zero padded.
pub open spec fn two_digits(d: int) -> Seq<char> {
    if d < 10 {
        seq!['0'] + dec_digits(d)
    } else {
        dec_digits(d)
    }
}

/// A year as at least four digits, zero padded.
pub open spec fn four_digits(y: int) -> Seq<char> {
    if y < 10 {
        seq!['0', '0', '0'] + dec_digits(y)
    } else if y < 100 {
        seq!['0', '0'] + dec_digits(y)
    } else if y < 1000 {
        seq!['0'] + dec_digits(y)
    } else {
        dec_digits(y)
    }
}

/// The search criteria of a full fetch: `SINCE dd-Mon-yyyy`.
pub open spec fn since_criteria(y: int, m: int, d: int) -> Seq<char> {
    seq!['S', 'I', 'N', 'C', 'E', ' '] + two_digits(d) + seq!['-'] + month_abbrev(m) + seq!['-']
        + four_digits(y)
}

/// Format the full-mode search criteria for the cutoff date.
#[verifier::rlimit(80)]
pub fn since_search_criteria(year: u32, month: u32, day: u32) -> (r: String)
    requires
        1 <= month <= 12,
        1 <= day <= 31,
        year <= 9999,
    ensures
        r@ == since_criteria(year as int, month as int, day as int),
{
    let mut v: Vec<char> = Vec::new();
    v.push('S');
    v.push('I');
    v.push('N');
    v.push('C');
    v.push('E');
    v.push(' ');
    if day < 10 {
        v.push('0');
    }
    push_dec(&mut v, day as u64);
    v.push('-');
    let mn: [char; 3] = if month == 1 {
        ['J', 'a', 'n']
    } else if month == 2 {
        ['F', 'e', 'b']
    } else if month == 3 {
        ['M', 'a', 'r']
    } else if month == 4 {
        ['A', 'p', 'r']
    } else if month == 5 {
        ['M', 'a', 'y']
    } else if month == 6 {
        ['J', 'u', 'n']
    } else if month == 7 {
        ['J', 'u', 'l']
    } else if month == 8 {
        ['A', 'u', 'g']
    } else if month == 9 {
        ['S', 'e', 'p']
    } else if month == 10 {
        ['O', 'c', 't']
    } else if month == 11 {
        ['N', 'o', 'v']
    } else {
        ['D', 'e', 'c']
    };
    v.push(mn[0]);
    v.push(mn[1]);
    v.push(mn[2]);
    v.push('-');
    if year < 10 {
        v.push('0');
        v.push('0');
        v.push('0');
    } else if year < 100 {
        v.push('0');
        v.push('0');
    } else if year < 1000 {
        v.push('0');
    }
    push_dec(&mut v, year as u64);
    proof {
        assert(v@ =~= since_criteria(year as int, month as int, day as int));
    }
    crate::strutil::chars_string(&v)
}

/// The search criteria of an incremental fetch: every ordinal above the
/// stored cursor, `UID n:*`.
pub open spec fn uid_criteria(last_uid: int) -> Seq<char> {
    seq!['U', 'I', 'D', ' '] + dec_digits(last_uid + 1) + seq![':', '*']
}

/// Format the incremental-mode search criteria.
pub fn uid_search_criteria(last_uid: u32) -> (r: String)
    requires
        last_uid < 0xffff_ffff,
    ensures
        r@ == uid_criteria(last_uid as int),
{
    let mut v: Vec<char> = Vec::new();
    v.push('U');
    v.push('I');
    v.push('D');
    v.push(' ');
    push_dec(&mut v, (last_uid + 1) as u64);
    v.push(':');
    v.push('*');
    proof {
        assert(v@ =~= uid_criteria(last_uid as int));
    }
    crate::strutil::chars_string(&v)
}

/// The ordinals strictly above the cursor, in order.
pub open spec fn above_cursor(s: Seq<u32>, last: u32) -> Seq<u32>
    decreases s.len(),
{
    if s.len() == 0 {
        Seq::empty()
    } else {
        above_cursor(s.drop_last(), last) + if s.last() > last {
            seq![s.last()]
        } else {
            Seq::empty()
        }
    }
}

/// Keep only the ordinals strictly above the stored cursor: an
/// incremental search result may echo the cursor itself.
pub fn new_uids(uids: &Vec<u32>, last_uid: u32) -> (r: Vec<u32>)
    ensures
        r@ == above_cursor(uids@, last_uid),
{
    let mut r: Vec<u32> = Vec::new();
    let n = uids.len();
    let mut i: usize = 0;
    proof {
        assert(uids@.subrange(0, 0) =~= Seq::<u32>::empty());
        assert(above_cursor(Seq::<u32>::empty(), last_uid) =~= Seq::<u32>::empty());
    }
    while i < n
        invariant
            0 <= i <= n,
            n == uids.len(),
            r@ == above_cursor(uids@.subrange(0, i as int), last_uid),
        decreases n - i,
    {
        proof {
            assert(uids@.subrange(0, i + 1 as int).drop_last() =~= uids@.subrange(0, i as int));
            assert(uids@.subrange(0, i + 1 as int).last() == uids@[i as int]);
        }
        if uids[i] > last_uid {
            r.push(uids[i]);
            proof {
                assert(r@ =~= above_cursor(uids@.subrange(0, i + 1 as int), last_uid));
            }
        } else {
            proof {
                assert(r@ + Seq::<u32>::empty() =~= r@);
            }
        }
        i = i + 1;
    }
    proof {
        assert(uids@.subrange(0, n as int) =~= uids@);
    }
    r
}

/// The largest of the processed ordinals and a floor value.
pub open spec fn max_uid(s: Seq<u32>, floor: u32) -> u32
    decreases s.len(),
{
    if s.len() == 0 {
        floor
    } else {
        let rest = max_uid(s.drop_last(), floor);
        if s.last() > rest {
            s.last()
        } else {
            rest
        }
    }
}

/// The cursor stored after a label sync: the current folder identity
/// and the highest ordinal seen, never below the prior cursor.
pub fn advance_label_state(uidvalidity: u32, prior_last: u32, processed: &Vec<u32>) -> (r:
    LabelState)
    ensures
        r.uidvalidity == uidvalidity,
        r.last_uid == max_uid(processed@, prior_last),
{
    let mut last: u32 = prior_last;
    let n = processed.len();
    let mut i: usize = 0;
    proof {
        assert(processed@.subrange(0, 0) =~= Seq::<u32>::empty());
    }
    while i < n
        invariant
            0 <= i <= n,
            n == processed.len(),
            last == max_uid(processed@.subrange(0, i as int), prior_last),
        decreases n - i,
    {
        proof {
            assert(processed@.subrange(0, i + 1 as int).drop_last() =~= processed@.subrange(
                0,
                i as int,
            ));
            assert(processed@.subrange(0, i + 1 as int).last() == processed@[i as int]);
        }
        if processed[i] > last {
            last = processed[i];
        }
        i = i + 1;
    }
    proof {
        assert(processed@.subrange(0, n as int) =~= processed@);
    }
    LabelState { uidvalidity: uidvalidity, last_uid: last }
}

/// One raw message header.
pub struct Header {
    pub name: String,
    pub value: String,
}

/// ASCII-case-insensitive equality of two characters.
pub open spec fn eq_ascii_ci(a: char, b: char) -> bool {
    ||| a as u32 == b as u32
    ||| (a as u32 + 32 == b as u32 && 65 <= a as u32 <= 90)
    ||| (b as u32 + 32 == a as u32 && 65 <= b as u32 <= 90)
}

/// ASCII-case-insensitive equality of two character sequences, as
/// `eq_ignore_ascii_case` decides it.
pub open spec fn seq_eq_ci(a: Seq<char>, b: Seq<char>) -> bool {
    a.len() == b.len() && forall|k: int| 0 <= k < a.len() ==> eq_ascii_ci(a[k], b[k])
}

fn chars_eq_ci(a: &Vec<char>, b: &Vec<char>) -> (r: bool)
    ensures
        r == seq_eq_ci(a@, b@),
{
    if a.len() != b.len() {
        return false;
    }
    let n = a.len();
    let mut i: usize = 0;
    while i < n
        invariant
            0 <= i <= n,
            n == a.len() == b.len(),
            forall|k: int| 0 <= k < i ==> eq_ascii_ci(a@[k], b@[k]),
        decreases n - i,
    {
        let x = a[i] as u32;
        let y = b[i] as u32;
        if !(x == y || (65 <= x && x <= 90 && x + 32 == y) || (65 <= y && y <= 90 && y + 32 == x)) {
            return false;
        }
        i = i + 1;
    }
    true
}

/// The value of the first header whose name matches, compared ASCII
/// case insensitively.
pub open spec fn first_header(hs: Seq<Header>, name: Seq<char>) -> Option<Seq<char>>
    decreases hs.len(),
{
    if hs.len() == 0 {
        None
    } else if seq_eq_ci(hs[0].name@, name) {
        Some(hs[0].value@)
    } else {
        first_header(hs.drop_first(), name)
    }
}

/// Look a header up by name, case insensitively.
pub fn header_value(headers: &Vec<Header>, name: &str) -> (r: Option<String>)
    ensures
        match r {
            Some(v) => first_header(headers@, name@) == Some(v@),
            None => first_header(headers@, name@) is None,
        },
{
    let nv = crate::strutil::str_chars(name);
    let n = headers.len();
    let mut i: usize = 0;
    proof {
        assert(headers@.subrange(0, n as int) =~= headers@);
    }
    while i < n
        invariant
            0 <= i <= n,
            n == headers.len(),
            nv@ == name@,
            first_header(headers@, name@) == first_header(
                headers@.subrange(i as int, n as int),
                name@,
            ),
        decreases n - i,
    {
        proof {
            assert(headers@.subrange(i as int, n as int)[0] == headers@[i as int]);
            assert(headers@.subrange(i as int, n as int).drop_first() =~= headers@.subrange(
                i + 1,
                n as int,
            ));
        }
        let hv = crate::strutil::str_chars(headers[i].name.as_str());
        if chars_eq_ci(&hv, &nv) {
            return Some(headers[i].value.clone());
        }
        i = i + 1;
    }
    proof {
        assert(headers@.subrange(n as int, n as int) =~= Seq::<Header>::empty());
    }
    None
}

/// The `(no subject)` placeholder.
pub open spec fn no_subject() -> Seq<char> {
    seq!['(', 'n', 'o', ' ', 's', 'u', 'b', 'j', 'e', 'c', 't', ')']
}

/// The `Subject` header name.
pub open spec fn hdr_subject() -> Seq<char> {
    seq!['S', 'u', 'b', 'j', 'e', 'c', 't']
}

/// The `From` header name.
pub open spec fn hdr_from() -> Seq<char> {
    seq!['F', 'r', 'o', 'm']
}

/// The `Date` header name.
pub open spec fn hdr_date() -> Seq<char> {
    seq!['D', 'a', 't', 'e']
}

/// Assemble the message record for one fetched ordinal: subject, sender
/// and date from the headers (with their documented defaults), the
/// ordinal as identifier, and the thread key derived from the subject.
pub fn build_message(uid: u32, headers: &Vec<Header>, body: String) -> (m: Message)
    ensures
        m@.subject == match first_header(headers@, hdr_subject()) {
            Some(v) => v,
            None => no_subject(),
        },
        m@.from == match first_header(headers@, hdr_from()) {
            Some(v) => v,
            None => Seq::<char>::empty(),
        },
        m@.date == match first_header(headers@, hdr_date()) {
            Some(v) => v,
            None => Seq::<char>::empty(),
        },
        m@.id == dec_digits(uid as int),
        m@.thread_id == crate::markdown::thread_key_spec(m@.subject),
        m@.body == body@,
{
    proof {
        reveal_strlit("Subject");
        assert("Subject"@ =~= hdr_subject());
        reveal_strlit("From");
        assert("From"@ =~= hdr_from());
        reveal_strlit("Date");
        assert("Date"@ =~= hdr_date());
        reveal_strlit("(no subject)");
        assert("(no subject)"@ =~= no_subject());
    }
    let subject: String = match header_value(headers, "Subject") {
        Some(v) => v,
        None => "(no subject)".to_owned(),
    };
    let from: String = match header_value(headers, "From") {
        Some(v) => v,
        None => String::new(),
    };
    let date: String = match header_value(headers, "Date") {
        Some(v) => v,
        None => String::new(),
    };
    let idv = crate::strutil::dec_chars(uid as u64);
    let thread_id = crate::util::thread_key_from_subject(subject.as_str());
    Message {
        id: crate::strutil::chars_string(&idv),
        thread_id: thread_id,
        from: from,
        date: date,
        subject: subject,
        body: body,
    }
}

/// The label list an account syncs: its configured labels joined with
/// every label the route table introduces, in order, without repeats.
pub open spec fn merged_labels(xs: Seq<Seq<char>>) -> Seq<Seq<char>>
    decreases xs.len(),
{
    if xs.len() == 0 {
        Seq::empty()
    } else {
        let rest = merged_labels(xs.drop_last());
        if crate::types::str_in(rest, xs.last()) {
            rest
        } else {
            rest.push(xs.last())
        }
    }
}

/// Deduplicate a label list, keeping first occurrences in order.
pub fn plan_account_labels(labels: &Vec<String>) -> (r: Vec<String>)
    ensures
        crate::types::strs(r@) == merged_labels(crate::types::strs(labels@)),
        crate::types::no_dup_strs(crate::types::strs(r@)),
{
    let mut r: Vec<String> = Vec::new();
    let n = labels.len();
    let mut i: usize = 0;
    proof {
        assert(crate::types::strs(labels@).subrange(0, 0) =~= Seq::<Seq<char>>::empty());
        assert(crate::types::strs(r@) =~= Seq::<Seq<char>>::empty());
    }
    while i < n
        invariant
            0 <= i <= n,
            n == labels.len(),
            crate::types::strs(r@) == merged_labels(
                crate::types::strs(labels@).subrange(0, i as int),
            ),
            crate::types::no_dup_strs(crate::types::strs(r@)),
        decreases n - i,
    {
        proof {
            assert(crate::types::strs(labels@).subrange(0, i + 1 as int).drop_last()
                =~= crate::types::strs(labels@).subrange(0, i as int));
            assert(crate::types::strs(labels@).subrange(0, i + 1 as int).last()
                == crate::types::strs(labels@)[i as int]);
        }
        let ghost old_strs = crate::types::strs(r@);
        if !crate::types::contains_str(&r, labels[i].as_str()) {
            r.push(labels[i].clone());
            proof {
                assert(crate::types::strs(r@) =~= old_strs.push(
                    crate::types::strs(labels@)[i as int],
                ));
                assert forall|a: int, b: int|
                    0 <= a < b < crate::types::strs(r@).len() implies crate::types::strs(r@)[a]
                    != crate::types::strs(r@)[b] by {
                    if b == crate::types::strs(r@).len() - 1 {
                        assert(crate::types::strs(r@)[a] == old_strs[a]);
                        assert(!crate::types::str_in(old_strs, crate::types::strs(r@)[b]));
                    }
                }
            }
        }
        i = i + 1;
    }
    proof {
        assert(crate::types::strs(labels@).subrange(0, n as int) =~= crate::types::strs(labels@));
    }
    r
}

} // verus!

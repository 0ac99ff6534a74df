//! Manifest generator: a summary index of every thread file in the
//! primary conversation directory, with matched contact names.

#![verifier::loop_isolation(false)]

use vstd::prelude::*;

use crate::markdown::decode_spec;
use crate::merge::{entry_views, is_md_name, DirEntry, DirEntryView};
use crate::strutil::{lex_le, lower_of};
use crate::types::{str_in, strs, Contact, MessageView, ThreadView};

verus! {

/// One contact under its configured name.
pub struct NamedContact {
    pub name: String,
    pub contact: Contact,
}

/// One manifest row: the thread file's stem and the summary fields.
pub struct ManifestEntry {
    pub stem: String,
    pub subject: String,
    pub thread_id: String,
    pub labels: Vec<String>,
    pub accounts: Vec<String>,
    pub last_updated: String,
    pub contacts: Vec<String>,
}

/// The mathematical value of a [`ManifestEntry`].
pub ghost struct ManifestEntryView {
    pub stem: Seq<char>,
    pub subject: Seq<char>,
    pub thread_id: Seq<char>,
    pub labels: Seq<Seq<char>>,
    pub accounts: Seq<Seq<char>>,
    pub last_updated: Seq<char>,
    pub contacts: Seq<Seq<char>>,
}

impl View for ManifestEntry {
    type V = ManifestEntryView;

    open spec fn view(&self) -> ManifestEntryView {
        ManifestEntryView {
            stem: self.stem@,
            subject: self.subject@,
            thread_id: self.thread_id@,
            labels: strs(self.labels@),
            accounts: strs(self.accounts@),
            last_updated: self.last_updated@,
            contacts: strs(self.contacts@),
        }
    }
}

/// The view sequence of a manifest row vector.
pub open spec fn manifest_views(v: Seq<ManifestEntry>) -> Seq<ManifestEntryView> {
    Seq::new(v.len(), |i: int| v[i]@)
}

/// The first `>` of a sequence, or -1.
pub open spec fn first_gt(s: Seq<char>) -> int
    decreases s.len(),
{
    if s.len() == 0 {
        -1
    } else if s[0] == '>' {
        0
    } else {
        let r = first_gt(s.drop_first());
        if r == -1 {
            -1
        } else {
            r + 1
        }
    }
}

/// The first bracketed address of a sender field: the text between the
/// first `<` that is followed by a non-empty run of other characters
/// and a closing `>`.
pub open spec fn email_of(s: Seq<char>) -> Option<Seq<char>>
    decreases s.len(),
{
    if s.len() == 0 {
        None
    } else if s[0] == '<' {
        let g = first_gt(s.drop_first());
        if g >= 1 {
            Some(s.subrange(1, 1 + g))
        } else {
            email_of(s.drop_first())
        }
    } else {
        email_of(s.drop_first())
    }
}

/// The contact lookup table: each contact's addresses, lower-cased, map
/// to the contact's name; later entries override earlier ones.
pub open spec fn add_emails(
    m: Map<Seq<char>, Seq<char>>,
    name: Seq<char>,
    emails: Seq<Seq<char>>,
) -> Map<Seq<char>, Seq<char>>
    decreases emails.len(),
{
    if emails.len() == 0 {
        m
    } else {
        add_emails(m, name, emails.drop_last()).insert(lower_of(emails.last()), name)
    }
}

/// The whole email table of a contact list.
pub open spec fn email_table(cs: Seq<NamedContact>) -> Map<Seq<char>, Seq<char>>
    decreases cs.len(),
{
    if cs.len() == 0 {
        Map::empty()
    } else {
        add_emails(
            email_table(cs.drop_last()),
            cs.last().name@,
            strs(cs.last().contact.emails@),
        )
    }
}

/// The contact names a thread's messages match, in order of first
/// appearance, without repeats.
pub open spec fn thread_contacts(
    msgs: Seq<MessageView>,
    table: Map<Seq<char>, Seq<char>>,
) -> Seq<Seq<char>>
    decreases msgs.len(),
{
    if msgs.len() == 0 {
        Seq::empty()
    } else {
        let prev = thread_contacts(msgs.drop_last(), table);
        match email_of(msgs.last().from) {
            Some(e) => if table.contains_key(lower_of(e)) && !str_in(prev, table[lower_of(e)]) {
                prev.push(table[lower_of(e)])
            } else {
                prev
            },
            None => prev,
        }
    }
}

/// A file name's stem: the name without its `.md` extension.
pub open spec fn stem_of(name: Seq<char>) -> Seq<char> {
    name.subrange(0, name.len() - 3)
}

/// The manifest row of one decoded thread.
pub open spec fn mk_entry(
    stem: Seq<char>,
    tv: ThreadView,
    contacts: Seq<Seq<char>>,
) -> ManifestEntryView {
    ManifestEntryView {
        stem: stem,
        subject: tv.subject,
        thread_id: tv.id,
        labels: tv.labels,
        accounts: tv.accounts,
        last_updated: tv.last_date,
        contacts: contacts,
    }
}

/// The manifest rows in directory order: one per decodable `.md` file.
pub open spec fn unsorted_entries(
    files: Seq<DirEntryView>,
    table: Map<Seq<char>, Seq<char>>,
) -> Seq<ManifestEntryView>
    decreases files.len(),
{
    if files.len() == 0 {
        Seq::empty()
    } else {
        let prev = unsorted_entries(files.drop_last(), table);
        let f = files.last();
        if is_md_name(f.name) {
            match decode_spec(f.text) {
                Some(tv) => prev.push(
                    mk_entry(stem_of(f.name), tv, thread_contacts(tv.messages, table)),
                ),
                None => prev,
            }
        } else {
            prev
        }
    }
}

/// Rows in ascending stem order.
pub open spec fn sorted_by_stem(es: Seq<ManifestEntryView>) -> bool {
    forall|i: int, j: int| 0 <= i < j < es.len() ==> lex_le(es[i].stem, es[j].stem)
}

/// Stable insertion by stem.
pub open spec fn insert_by_stem(
    es: Seq<ManifestEntryView>,
    e: ManifestEntryView,
) -> Seq<ManifestEntryView>
    decreases es.len(),
{
    if es.len() > 0 && !lex_le(es.last().stem, e.stem) {
        insert_by_stem(es.drop_last(), e) + seq![es.last()]
    } else {
        es.push(e)
    }
}

/// The rows sorted by stem, stably.
pub open spec fn sort_by_stem(es: Seq<ManifestEntryView>) -> Seq<ManifestEntryView>
    decreases es.len(),
{
    if es.len() == 0 {
        Seq::empty()
    } else {
        insert_by_stem(sort_by_stem(es.drop_last()), es.last())
    }
}

proof fn lemma_insert_by_stem_at(es: Seq<ManifestEntryView>, e: ManifestEntryView, j: int)
    requires
        0 <= j <= es.len(),
        forall|i: int| j <= i < es.len() ==> !lex_le(es[i].stem, e.stem),
        j > 0 ==> lex_le(es[j - 1].stem, e.stem),
    ensures
        insert_by_stem(es, e) == es.subrange(0, j) + seq![e] + es.subrange(j, es.len() as int),
    decreases es.len(),
{
    if j == es.len() {
        assert(insert_by_stem(es, e) == es.push(e));
        assert(es.push(e) =~= es.subrange(0, j) + seq![e] + es.subrange(j, es.len() as int));
    } else {
        lemma_insert_by_stem_at(es.drop_last(), e, j);
        assert(es.drop_last().subrange(0, j) =~= es.subrange(0, j));
        assert(es.drop_last().subrange(j, es.drop_last().len() as int) =~= es.subrange(
            j,
            es.len() - 1,
        ));
        assert(es.subrange(0, j) + seq![e] + es.subrange(j, es.len() - 1) + seq![es.last()]
            =~= es.subrange(0, j) + seq![e] + es.subrange(j, es.len() as int));
    }
}

/// Insertion by stem keeps the rows sorted.
proof fn lemma_insert_by_stem_sorted(es: Seq<ManifestEntryView>, e: ManifestEntryView)
    requires
        sorted_by_stem(es),
    ensures
        sorted_by_stem(insert_by_stem(es, e)),
        insert_by_stem(es, e).len() == es.len() + 1,
        insert_by_stem(es, e).to_multiset() == es.to_multiset().insert(e),
    decreases es.len(),
{
    es.to_multiset_ensures();
    insert_by_stem(es, e).to_multiset_ensures();
    if es.len() > 0 && !lex_le(es.last().stem, e.stem) {
        assert(sorted_by_stem(es.drop_last()));
        lemma_insert_by_stem_sorted(es.drop_last(), e);
        let inner = insert_by_stem(es.drop_last(), e);
        inner.to_multiset_ensures();
        es.drop_last().to_multiset_ensures();
        let r = inner + seq![es.last()];
        assert(r =~= inner.push(es.last()));
        assert(inner.push(es.last()).to_multiset() == inner.to_multiset().insert(es.last()));
        assert(es =~= es.drop_last().push(es.last()));
        assert(es.drop_last().push(es.last()).to_multiset() == es.drop_last().to_multiset().insert(
            es.last(),
        ));
        assert(r.to_multiset() =~= es.to_multiset().insert(e));
        assert forall|i: int, j: int|
            0 <= i < j < r.len() implies lex_le(r[i].stem, r[j].stem) by {
            if j < r.len() - 1 {
                assert(r[i] == inner[i] && r[j] == inner[j]);
            } else {
                assert(r[j] == es.last());
                assert(r[i] == inner[i]);
                assert(inner.to_multiset().contains(inner[i]));
                assert(es.drop_last().to_multiset().insert(e).contains(inner[i]));
                if inner[i] == e {
                    crate::strutil::lemma_lex_le_total(es.last().stem, e.stem);
                } else {
                    assert(es.drop_last().to_multiset().contains(inner[i]));
                    assert(es.drop_last().contains(inner[i]));
                    let k = choose|k: int|
                        0 <= k < es.drop_last().len() && es.drop_last()[k] == inner[i];
                    assert(es[k] == inner[i]);
                    assert(lex_le(es[k].stem, es.last().stem));
                }
            }
        }
    } else {
        let r = es.push(e);
        r.to_multiset_ensures();
        assert forall|i: int, j: int|
            0 <= i < j < r.len() implies lex_le(r[i].stem, r[j].stem) by {
            if j == r.len() - 1 {
                if es.len() > 0 {
                    assert(lex_le(es.last().stem, e.stem));
                    if i < es.len() - 1 {
                        assert(lex_le(es[i].stem, es.last().stem));
                        crate::strutil::lemma_lex_le_trans(es[i].stem, es.last().stem, e.stem);
                    }
                }
            }
        }
    }
}

/// Sorting by stem yields a sorted permutation.
pub proof fn lemma_sort_by_stem_sorted(es: Seq<ManifestEntryView>)
    ensures
        sorted_by_stem(sort_by_stem(es)),
        sort_by_stem(es).len() == es.len(),
        sort_by_stem(es).to_multiset() == es.to_multiset(),
    decreases es.len(),
{
    es.to_multiset_ensures();
    if es.len() == 0 {
        assert(sort_by_stem(es) =~= Seq::<ManifestEntryView>::empty());
        assert(Seq::<ManifestEntryView>::empty().to_multiset() =~= es.to_multiset()) by {
            Seq::<ManifestEntryView>::empty().to_multiset_ensures();
        }
    } else {
        lemma_sort_by_stem_sorted(es.drop_last());
        lemma_insert_by_stem_sorted(sort_by_stem(es.drop_last()), es.last());
        es.drop_last().to_multiset_ensures();
        assert(es =~= es.drop_last().push(es.last()));
        assert(es.drop_last().push(es.last()).to_multiset() == es.drop_last().to_multiset().insert(
            es.last(),
        ));
        assert(sort_by_stem(es).to_multiset() =~= es.to_multiset());
    }
}

/// One email-to-name pair of the executable lookup table.
struct EmailPair {
    email: String,
    name: String,
}

/// The map a pair list stands for, later pairs overriding earlier.
spec fn pairs_map(s: Seq<EmailPair>) -> Map<Seq<char>, Seq<char>>
    decreases s.len(),
{
    if s.len() == 0 {
        Map::empty()
    } else {
        pairs_map(s.drop_last()).insert(s.last().email@, s.last().name@)
    }
}

proof fn lemma_pairs_map_at(s: Seq<EmailPair>, j: int)
    requires
        0 <= j < s.len(),
        forall|k: int| j < k < s.len() ==> s[k].email@ != s[j].email@,
    ensures
        pairs_map(s).contains_key(s[j].email@),
        pairs_map(s)[s[j].email@] == s[j].name@,
    decreases s.len(),
{
    if j == s.len() - 1 {
    } else {
        assert(forall|k: int| 0 <= k < s.len() - 1 ==> s.drop_last()[k] == s[k]);
        lemma_pairs_map_at(s.drop_last(), j);
        assert(s.last().email@ != s[j].email@);
    }
}

proof fn lemma_pairs_map_absent(s: Seq<EmailPair>, key: Seq<char>)
    requires
        forall|k: int| 0 <= k < s.len() ==> s[k].email@ != key,
    ensures
        !pairs_map(s).contains_key(key),
    decreases s.len(),
{
    if s.len() > 0 {
        assert(forall|k: int| 0 <= k < s.len() - 1 ==> s.drop_last()[k] == s[k]);
        lemma_pairs_map_absent(s.drop_last(), key);
    }
}

/// Look a lower-cased address up, later pairs winning.
fn pairs_lookup(pairs: &Vec<EmailPair>, key: &Vec<char>) -> (r: Option<String>)
    ensures
        match r {
            Some(v) => pairs_map(pairs@).contains_key(key@) && pairs_map(pairs@)[key@] == v@,
            None => !pairs_map(pairs@).contains_key(key@),
        },
{
    let n = pairs.len();
    let mut i: usize = n;
    while i > 0
        invariant
            0 <= i <= n,
            n == pairs.len(),
            forall|k: int| i <= k < n ==> pairs@[k].email@ != key@,
        decreases i,
    {
        i = i - 1;
        let ev = crate::strutil::str_chars(pairs[i].email.as_str());
        if crate::strutil::chars_eq(&ev, key) {
            proof {
                lemma_pairs_map_at(pairs@, i as int);
            }
            return Some(pairs[i].name.clone());
        }
    }
    proof {
        lemma_pairs_map_absent(pairs@, key@);
    }
    None
}

/// The first bracketed address of a sender field.
fn email_of_str(from: &str) -> (r: Option<String>)
    ensures
        match r {
            Some(v) => email_of(from@) == Some(v@),
            None => email_of(from@) is None,
        },
{
    let v = crate::strutil::str_chars(from);
    let n = v.len();
    let mut i: usize = 0;
    let ghost s = from@;
    proof {
        assert(s.subrange(0, n as int) =~= s);
    }
    while i < n
        invariant
            0 <= i <= n,
            n == v.len(),
            v@ == s,
            email_of(s) == email_of(s.subrange(i as int, n as int)),
        decreases n - i,
    {
        proof {
            assert(s.subrange(i as int, n as int)[0] == s[i as int]);
            assert(s.subrange(i as int, n as int).drop_first() =~= s.subrange(i + 1, n as int));
        }
        if v[i] == '<' {
            // find the first `>` after the bracket
            let mut j: usize = i + 1;
            while j < n && v[j] != '>'
                invariant
                    i + 1 <= j <= n,
                    n == v.len(),
                    v@ == s,
                    forall|k: int| i + 1 <= k < j ==> s[k] != '>',
                decreases n - j,
            {
                j = j + 1;
            }
            let ghost tail = s.subrange(i + 1, n as int);
            if j < n {
                proof {
                    lemma_first_gt_at(tail, j - i - 1);
                }
                if j > i + 1 {
                    let content = crate::markdown::slice_chars(&v, i + 1, j);
                    proof {
                        assert(content@ =~= s.subrange(i as int, n as int).subrange(
                            1,
                            1 + (j - i - 1),
                        ));
                    }
                    return Some(crate::strutil::chars_string(&content));
                }
            } else {
                proof {
                    lemma_first_gt_none(tail);
                }
            }
        }
        i = i + 1;
    }
    proof {
        assert(s.subrange(n as int, n as int) =~= Seq::<char>::empty());
    }
    None
}

proof fn lemma_first_gt_at(s: Seq<char>, j: int)
    requires
        0 <= j < s.len(),
        s[j] == '>',
        forall|k: int| 0 <= k < j ==> s[k] != '>',
    ensures
        first_gt(s) == j,
    decreases j,
{
    if j > 0 {
        lemma_first_gt_at(s.drop_first(), j - 1);
    }
}

proof fn lemma_first_gt_none(s: Seq<char>)
    requires
        forall|k: int| 0 <= k < s.len() ==> s[k] != '>',
    ensures
        first_gt(s) == -1,
    decreases s.len(),
{
    if s.len() > 0 {
        lemma_first_gt_none(s.drop_first());
    }
}

/// Derive the manifest rows from the conversation files and the
/// contact list: one row per decodable `.md` file, carrying the
/// thread's summary fields and the contact names its senders match, the
/// rows sorted by file stem.
pub fn manifest_entries(files: &Vec<DirEntry>, contacts: &Vec<NamedContact>) -> (r: Vec<
    ManifestEntry,
>)
    ensures
        manifest_views(r@) == sort_by_stem(
            unsorted_entries(entry_views(files@), email_table(contacts@)),
        ),
        sorted_by_stem(manifest_views(r@)),
{
    let ghost table = email_table(contacts@);
    // flatten the contact list into lower-cased email pairs
    let mut pairs: Vec<EmailPair> = Vec::new();
    let cn = contacts.len();
    let mut ci: usize = 0;
    proof {
        assert(contacts@.subrange(0, 0) =~= Seq::<NamedContact>::empty());
        assert(pairs_map(pairs@) =~= email_table(contacts@.subrange(0, 0)));
    }
    while ci < cn
        invariant
            0 <= ci <= cn,
            cn == contacts.len(),
            pairs_map(pairs@) == email_table(contacts@.subrange(0, ci as int)),
        decreases cn - ci,
    {
        proof {
            assert(contacts@.subrange(0, ci + 1 as int).drop_last() =~= contacts@.subrange(
                0,
                ci as int,
            ));
            assert(contacts@.subrange(0, ci + 1 as int).last() == contacts@[ci as int]);
        }
        let en = contacts[ci].contact.emails.len();
        let mut ei: usize = 0;
        proof {
            assert(strs(contacts@[ci as int].contact.emails@).subrange(0, 0)
                =~= Seq::<Seq<char>>::empty());
        }
        while ei < en
            invariant
                0 <= ei <= en,
                0 <= ci < cn,
                cn == contacts.len(),
                en == contacts@[ci as int].contact.emails@.len(),
                pairs_map(pairs@) == add_emails(
                    email_table(contacts@.subrange(0, ci as int)),
                    contacts@[ci as int].name@,
                    strs(contacts@[ci as int].contact.emails@).subrange(0, ei as int),
                ),
            decreases en - ei,
        {
            proof {
                assert(strs(contacts@[ci as int].contact.emails@).subrange(
                    0,
                    ei + 1 as int,
                ).drop_last() =~= strs(contacts@[ci as int].contact.emails@).subrange(
                    0,
                    ei as int,
                ));
                assert(strs(contacts@[ci as int].contact.emails@).subrange(
                    0,
                    ei + 1 as int,
                ).last() == strs(contacts@[ci as int].contact.emails@)[ei as int]);
            }
            let ghost old_pairs = pairs@;
            let low = crate::strutil::lowercase(contacts[ci].contact.emails[ei].as_str());
            pairs.push(
                EmailPair { email: low, name: contacts[ci].name.clone() },
            );
            proof {
                assert(pairs@.drop_last() =~= old_pairs);
            }
            ei = ei + 1;
        }
        proof {
            assert(strs(contacts@[ci as int].contact.emails@).subrange(0, en as int) =~= strs(
                contacts@[ci as int].contact.emails@,
            ));
        }
        ci = ci + 1;
    }
    proof {
        assert(contacts@.subrange(0, cn as int) =~= contacts@);
    }

    // one unsorted row per decodable thread file
    let mut rows: Vec<ManifestEntry> = Vec::new();
    let fn_ = files.len();
    let mut fi: usize = 0;
    proof {
        assert(entry_views(files@).subrange(0, 0) =~= Seq::<DirEntryView>::empty());
        assert(manifest_views(rows@) =~= Seq::<ManifestEntryView>::empty());
        assert(manifest_views(rows@) =~= unsorted_entries(
            entry_views(files@).subrange(0, 0),
            table,
        ));
    }
    while fi < fn_
        invariant
            0 <= fi <= fn_,
            fn_ == files.len(),
            pairs_map(pairs@) == table,
            manifest_views(rows@) == unsorted_entries(
                entry_views(files@).subrange(0, fi as int),
                table,
            ),
        decreases fn_ - fi,
    {
        proof {
            assert(entry_views(files@).subrange(0, fi + 1 as int).drop_last() =~= entry_views(
                files@,
            ).subrange(0, fi as int));
            assert(entry_views(files@).subrange(0, fi + 1 as int).last() == entry_views(files@)[
                fi as int]);
            assert(entry_views(files@)[fi as int] == files@[fi as int]@);
        }
        let ghost old_rows = manifest_views(rows@);
        if crate::merge::is_md_name_str(files[fi].name.as_str()) {
            match crate::markdown::parse_thread_markdown(files[fi].text.as_str()) {
                Some(t) => {
                    // contact names matched by the thread's senders
                    let mut cnames: Vec<String> = Vec::new();
                    let mn = t.messages.len();
                    let mut mi: usize = 0;
                    proof {
                        assert(t@.messages.subrange(0, 0) =~= Seq::<MessageView>::empty());
                        assert(strs(cnames@) =~= thread_contacts(
                            t@.messages.subrange(0, 0),
                            table,
                        ));
                    }
                    while mi < mn
                        invariant
                            0 <= mi <= mn,
                            mn == t.messages.len(),
                            pairs_map(pairs@) == table,
                            strs(cnames@) == thread_contacts(
                                t@.messages.subrange(0, mi as int),
                                table,
                            ),
                        decreases mn - mi,
                    {
                        proof {
                            assert(t@.messages.subrange(0, mi + 1 as int).drop_last()
                                =~= t@.messages.subrange(0, mi as int));
                            assert(t@.messages.subrange(0, mi + 1 as int).last() == t@.messages[
                                mi as int]);
                        }
                        let ghost old_cnames = strs(cnames@);
                        match email_of_str(t.messages[mi].from.as_str()) {
                            Some(addr) => {
                                let low = crate::strutil::lowercase(addr.as_str());
                                let lv = crate::strutil::str_chars(low.as_str());
                                match pairs_lookup(&pairs, &lv) {
                                    Some(cname) => {
                                        if !crate::types::contains_str(&cnames, cname.as_str()) {
                                            cnames.push(cname);
                                            proof {
                                                assert(strs(cnames@) =~= old_cnames.push(
                                                    table[lower_of(email_of(
                                                        t@.messages[mi as int].from,
                                                    )->0)],
                                                ));
                                            }
                                        }
                                    },
                                    None => {},
                                }
                            },
                            None => {},
                        }
                        mi = mi + 1;
                    }
                    proof {
                        assert(t@.messages.subrange(0, mn as int) =~= t@.messages);
                    }
                    // the stem: the name without `.md`
                    let namev = crate::strutil::str_chars(files[fi].name.as_str());
                    let stemv = crate::markdown::slice_chars(&namev, 0, namev.len() - 3);
                    let row = ManifestEntry {
                        stem: crate::strutil::chars_string(&stemv),
                        subject: t.subject,
                        thread_id: t.id,
                        labels: t.labels,
                        accounts: t.accounts,
                        last_updated: t.last_date,
                        contacts: cnames,
                    };
                    proof {
                        assert(row@ == mk_entry(
                            stem_of(files@[fi as int]@.name),
                            decode_spec(files@[fi as int]@.text)->0,
                            thread_contacts(decode_spec(files@[fi as int]@.text)->0.messages, table),
                        ));
                    }
                    rows.push(row);
                    proof {
                        assert(manifest_views(rows@) =~= old_rows.push(row@));
                    }
                },
                None => {},
            }
        }
        fi = fi + 1;
    }
    proof {
        assert(entry_views(files@).subrange(0, fn_ as int) =~= entry_views(files@));
    }

    // sort the rows by stem
    let mut out: Vec<ManifestEntry> = Vec::new();
    let rn = rows.len();
    let ghost unsorted = manifest_views(rows@);
    let mut ri: usize = 0;
    proof {
        assert(unsorted.subrange(0, 0) =~= Seq::<ManifestEntryView>::empty());
        assert(manifest_views(out@) =~= sort_by_stem(unsorted.subrange(0, 0)));
    }
    while ri < rn
        invariant
            0 <= ri <= rn,
            rn == rows.len(),
            manifest_views(rows@) == unsorted,
            manifest_views(out@) == sort_by_stem(unsorted.subrange(0, ri as int)),
        decreases rn - ri,
    {
        let e = ManifestEntry {
            stem: rows[ri].stem.clone(),
            subject: rows[ri].subject.clone(),
            thread_id: rows[ri].thread_id.clone(),
            labels: clone_strings(&rows[ri].labels),
            accounts: clone_strings(&rows[ri].accounts),
            last_updated: rows[ri].last_updated.clone(),
            contacts: clone_strings(&rows[ri].contacts),
        };
        proof {
            assert(e@ == unsorted[ri as int]);
        }
        let ev = crate::strutil::str_chars(e.stem.as_str());
        let mut j: usize = out.len();
        while j > 0 && stem_above(&out, j - 1, &ev)
            invariant
                0 <= j <= out.len(),
                ev@ == e@.stem,
                forall|p: int|
                    j <= p < out@.len() ==> !lex_le(manifest_views(out@)[p].stem, e@.stem),
            decreases j,
        {
            j = j - 1;
        }
        let ghost old_out = manifest_views(out@);
        out.insert(j, e);
        proof {
            lemma_insert_by_stem_at(old_out, e@, j as int);
            assert(manifest_views(out@) =~= old_out.subrange(0, j as int) + seq![e@]
                + old_out.subrange(j as int, old_out.len() as int));
            assert(unsorted.subrange(0, ri + 1 as int).drop_last() =~= unsorted.subrange(
                0,
                ri as int,
            ));
            assert(unsorted.subrange(0, ri + 1 as int).last() == unsorted[ri as int]);
            assert(manifest_views(out@) == insert_by_stem(
                sort_by_stem(unsorted.subrange(0, ri as int)),
                e@,
            ));
        }
        ri = ri + 1;
    }
    proof {
        assert(unsorted.subrange(0, rn as int) =~= unsorted);
        lemma_sort_by_stem_sorted(unsorted);
    }
    out
}

/// Whether the row at `j` has a stem above the given one.
fn stem_above(out: &Vec<ManifestEntry>, j: usize, ev: &Vec<char>) -> (r: bool)
    requires
        j < out@.len(),
    ensures
        r == !lex_le(manifest_views(out@)[j as int].stem, ev@),
{
    let jv = crate::strutil::str_chars(out[j].stem.as_str());
    !crate::strutil::chars_le(&jv, ev)
}

/// A field-for-field copy of a string list.
fn clone_strings(v: &Vec<String>) -> (r: Vec<String>)
    ensures
        strs(r@) == strs(v@),
{
    let mut r: Vec<String> = Vec::new();
    let n = v.len();
    let mut i: usize = 0;
    while i < n
        invariant
            0 <= i <= n,
            n == v.len(),
            strs(r@) == strs(v@).subrange(0, i as int),
        decreases n - i,
    {
        r.push(v[i].clone());
        proof {
            assert(strs(r@) =~= strs(v@).subrange(0, i + 1 as int));
        }
        i = i + 1;
    }
    proof {
        assert(strs(v@).subrange(0, n as int) =~= strs(v@));
    }
    r
}

} // verus!

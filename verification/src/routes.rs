//! Label router: which destination directories a label's messages fan
//! out to, and which copies a routing pass over existing files makes.

#![verifier::loop_isolation(false)]

use vstd::prelude::*;

use crate::types::{strs, RouteRule};

verus! {

/// One row of the computed route table.
pub struct Route {
    pub label: String,
    pub dirs: Vec<String>,
}

/// The index a route list stands for: label to destination directories.
pub open spec fn routes_map(s: Seq<Route>) -> Map<Seq<char>, Seq<Seq<char>>>
    decreases s.len(),
{
    if s.len() == 0 {
        Map::empty()
    } else {
        routes_map(s.drop_last()).insert(s.last().label@, strs(s.last().dirs@))
    }
}

/// Unique labels, so the list stands for a map.
pub open spec fn routes_wf(s: Seq<Route>) -> bool {
    forall|i: int, j: int| 0 <= i < j < s.len() ==> s[i].label@ != s[j].label@
}

/// The index of the first `:` of a key, or -1 for a bare label key.
pub open spec fn colon_at(key: Seq<char>) -> int
    decreases key.len(),
{
    if key.len() == 0 {
        -1
    } else if key[0] == ':' {
        0
    } else {
        let r = colon_at(key.drop_first());
        if r == -1 {
            -1
        } else {
            r + 1
        }
    }
}

/// The label a rule applies to for this account: a bare key applies as
/// itself; an `account:label` key applies only when the account matches
/// or no account is given.
pub open spec fn rule_label(key: Seq<char>, account: Seq<char>) -> Option<Seq<char>> {
    let c = colon_at(key);
    if c == -1 {
        Some(key)
    } else if account.len() == 0 || key.subrange(0, c) == account {
        Some(key.subrange(c + 1, key.len() as int))
    } else {
        None
    }
}

/// A mailbox path resolved to its conversations directory beneath the
/// data directory.
pub open spec fn dest_dir(data_dir: Seq<char>, mailbox: Seq<char>) -> Seq<char> {
    data_dir + seq!['/'] + mailbox + seq![
        '/',
        'c',
        'o',
        'n',
        'v',
        'e',
        'r',
        's',
        'a',
        't',
        'i',
        'o',
        'n',
        's',
    ]
}

/// The destination directories of one rule.
pub open spec fn dest_dirs(mailboxes: Seq<Seq<char>>, data_dir: Seq<char>) -> Seq<Seq<char>> {
    Seq::new(mailboxes.len(), |i: int| dest_dir(data_dir, mailboxes[i]))
}

/// The route table the rules build up, rule by rule: each applicable
/// rule appends its destinations to its label's row.
pub open spec fn routes_fold(
    rules: Seq<RouteRule>,
    account: Seq<char>,
    data_dir: Seq<char>,
) -> Map<Seq<char>, Seq<Seq<char>>>
    decreases rules.len(),
{
    if rules.len() == 0 {
        Map::empty()
    } else {
        let prev = routes_fold(rules.drop_last(), account, data_dir);
        match rule_label(rules.last().key@, account) {
            Some(l) => prev.insert(
                l,
                (if prev.contains_key(l) {
                    prev[l]
                } else {
                    Seq::empty()
                }) + dest_dirs(strs(rules.last().mailboxes@), data_dir),
            ),
            None => prev,
        }
    }
}

proof fn lemma_routes_map_key(s: Seq<Route>, l: Seq<char>)
    requires
        routes_wf(s),
    ensures
        routes_map(s).contains_key(l) <==> exists|i: int| 0 <= i < s.len() && s[i].label@ == l,
        forall|i: int|
            0 <= i < s.len() && s[i].label@ == l ==> routes_map(s).contains_key(l)
                && routes_map(s)[l] == strs(s[i].dirs@),
    decreases s.len(),
{
    if s.len() > 0 {
        assert(routes_wf(s.drop_last())) by {
            assert(forall|i: int| 0 <= i < s.len() - 1 ==> s.drop_last()[i] == s[i]);
        }
        lemma_routes_map_key(s.drop_last(), l);
        assert(forall|i: int| 0 <= i < s.len() - 1 ==> s.drop_last()[i] == s[i]);
    }
}

proof fn lemma_routes_map_update(s: Seq<Route>, i: int, e: Route)
    requires
        routes_wf(s),
        0 <= i < s.len(),
        e.label@ == s[i].label@,
    ensures
        routes_map(s.update(i, e)) == routes_map(s).insert(e.label@, strs(e.dirs@)),
    decreases s.len(),
{
    let t = s.update(i, e);
    if i == s.len() - 1 {
        assert(t.drop_last() =~= s.drop_last());
        assert(t.last() == e);
        assert(routes_map(t) =~= routes_map(s).insert(e.label@, strs(e.dirs@)));
    } else {
        assert(routes_wf(s.drop_last())) by {
            assert(forall|k: int| 0 <= k < s.len() - 1 ==> s.drop_last()[k] == s[k]);
        }
        lemma_routes_map_update(s.drop_last(), i, e);
        assert(t.drop_last() =~= s.drop_last().update(i, e));
        assert(t.last() == s.last());
        assert(s[i].label@ != s.last().label@);
        assert(routes_map(t) =~= routes_map(s).insert(e.label@, strs(e.dirs@)));
    }
}

/// The first `:` of a character vector, or none.
fn find_colon(v: &Vec<char>) -> (r: Option<usize>)
    ensures
        match r {
            Some(i) => colon_at(v@) == i as int && i < v@.len(),
            None => colon_at(v@) == -1,
        },
{
    let n = v.len();
    let mut i: usize = 0;
    while i < n
        invariant
            0 <= i <= n,
            n == v.len(),
            forall|k: int| 0 <= k < i ==> v@[k] != ':',
        decreases n - i,
    {
        if v[i] == ':' {
            proof {
                lemma_colon_at_first(v@, i as int);
            }
            return Some(i);
        }
        i = i + 1;
    }
    proof {
        lemma_colon_at_none(v@);
    }
    None
}

proof fn lemma_colon_at_first(s: Seq<char>, i: int)
    requires
        0 <= i < s.len(),
        s[i] == ':',
        forall|k: int| 0 <= k < i ==> s[k] != ':',
    ensures
        colon_at(s) == i,
    decreases i,
{
    if i > 0 {
        lemma_colon_at_first(s.drop_first(), i - 1);
    }
}

proof fn lemma_colon_at_none(s: Seq<char>)
    requires
        forall|k: int| 0 <= k < s.len() ==> s[k] != ':',
    ensures
        colon_at(s) == -1,
    decreases s.len(),
{
    if s.len() > 0 {
        lemma_colon_at_none(s.drop_first());
    }
}

/// Build the route table for one account from the configured rules.
///
/// Each rule's key is a bare label, applying to every account, or
/// `account:label`, applying when the account matches or none is given;
/// its mailboxes become `conversations` directories beneath the data
/// directory, and rules for the same label accumulate.
pub fn build_label_routes(routing: &Vec<RouteRule>, account_name: &str, data_dir: &str) -> (r: Vec<
    Route,
>)
    ensures
        routes_wf(r@),
        routes_map(r@) == routes_fold(routing@, account_name@, data_dir@),
{
    let mut r: Vec<Route> = Vec::new();
    let n = routing.len();
    let mut i: usize = 0;
    proof {
        assert(routing@.subrange(0, 0) =~= Seq::<RouteRule>::empty());
        assert(routes_map(r@) =~= routes_fold(
            routing@.subrange(0, 0),
            account_name@,
            data_dir@,
        ));
    }
    while i < n
        invariant
            0 <= i <= n,
            n == routing.len(),
            routes_wf(r@),
            routes_map(r@) == routes_fold(routing@.subrange(0, i as int), account_name@, data_dir@),
        decreases n - i,
    {
        proof {
            assert(routing@.subrange(0, i + 1 as int).drop_last() =~= routing@.subrange(
                0,
                i as int,
            ));
            assert(routing@.subrange(0, i + 1 as int).last() == routing@[i as int]);
        }
        let rule = &routing[i];
        let kv = crate::strutil::str_chars(rule.key.as_str());
        let label: Option<String> = match find_colon(&kv) {
            None => Some(rule.key.clone()),
            Some(c) => {
                let acct_part = crate::markdown::slice_chars(&kv, 0, c);
                let label_part = crate::markdown::slice_chars(&kv, c + 1, kv.len());
                let applies = account_name.is_empty() || crate::strutil::chars_eq(
                    &acct_part,
                    &crate::strutil::str_chars(account_name),
                );
                if applies {
                    Some(crate::strutil::chars_string(&label_part))
                } else {
                    None
                }
            },
        };
        match label {
            None => {
                proof {
                    assert(rule_label(routing@[i as int].key@, account_name@) is None);
                }
            },
            Some(l) => {
                proof {
                    assert(rule_label(routing@[i as int].key@, account_name@) == Some(l@));
                }
                // the destination directories of this rule
                let mut ds: Vec<String> = Vec::new();
                let nm = rule.mailboxes.len();
                let mut k: usize = 0;
                proof {
                    assert(strs(ds@) =~= dest_dirs(
                        strs(routing@[i as int].mailboxes@),
                        data_dir@,
                    ).subrange(0, 0));
                }
                while k < nm
                    invariant
                        0 <= k <= nm,
                        0 <= i < n,
                        n == routing.len(),
                        nm == routing@[i as int].mailboxes@.len(),
                        strs(ds@) == dest_dirs(
                            strs(routing@[i as int].mailboxes@),
                            data_dir@,
                        ).subrange(0, k as int),
                    decreases nm - k,
                {
                    let mut dv = crate::strutil::str_chars(data_dir);
                    dv.push('/');
                    let mb = crate::strutil::str_chars(routing[i].mailboxes[k].as_str());
                    let mut p: usize = 0;
                    let mbn = mb.len();
                    while p < mbn
                        invariant
                            0 <= p <= mbn,
                            mbn == mb@.len(),
                            dv@ == data_dir@ + seq!['/'] + mb@.subrange(0, p as int),
                        decreases mbn - p,
                    {
                        dv.push(mb[p]);
                        proof {
                            assert(data_dir@ + seq!['/'] + mb@.subrange(0, p as int) + seq![
                                mb@[p as int],
                            ] =~= data_dir@ + seq!['/'] + mb@.subrange(0, p + 1 as int));
                        }
                        p = p + 1;
                    }
                    proof {
                        assert(mb@.subrange(0, mbn as int) =~= mb@);
                    }
                    dv.push('/');
                    dv.push('c');
                    dv.push('o');
                    dv.push('n');
                    dv.push('v');
                    dv.push('e');
                    dv.push('r');
                    dv.push('s');
                    dv.push('a');
                    dv.push('t');
                    dv.push('i');
                    dv.push('o');
                    dv.push('n');
                    dv.push('s');
                    let ghost old_ds = strs(ds@);
                    ds.push(crate::strutil::chars_string(&dv));
                    proof {
                        assert(dv@ =~= dest_dir(data_dir@, strs(routing@[i as int].mailboxes@)[
                            k as int]));
                        assert(strs(ds@) =~= old_ds.push(dv@));
                        assert(strs(ds@) =~= dest_dirs(
                            strs(routing@[i as int].mailboxes@),
                            data_dir@,
                        ).subrange(0, k + 1 as int));
                    }
                    k = k + 1;
                }
                proof {
                    assert(dest_dirs(strs(routing@[i as int].mailboxes@), data_dir@).subrange(
                        0,
                        nm as int,
                    ) =~= dest_dirs(strs(routing@[i as int].mailboxes@), data_dir@));
                }
                // find or create the row for this label
                proof {
                    lemma_routes_map_key(r@, l@);
                }
                let rn = r.len();
                let mut j: usize = 0;
                let mut found = false;
                while j < rn && !found
                    invariant
                        0 <= j <= rn,
                        rn == r.len(),
                        !found ==> forall|q: int| 0 <= q < j ==> r@[q].label@ != l@,
                        found ==> j < rn && r@[j as int].label@ == l@,
                        routes_wf(r@),
                        r@.len() == rn,
                        routes_map(r@) == routes_fold(
                            routing@.subrange(0, i as int),
                            account_name@,
                            data_dir@,
                        ),
                    decreases rn - j + (if found { 0int } else { 1int }),
                {
                    if crate::strutil::str_eq(r[j].label.as_str(), l.as_str()) {
                        found = true;
                    } else {
                        j = j + 1;
                    }
                }
                if found {
                    let ghost old_rows = r@;
                    let ghost old_dirs = strs(r@[j as int].dirs@);
                    let mut q: usize = 0;
                    let dn = ds.len();
                    while q < dn
                        invariant
                            0 <= q <= dn,
                            0 <= j < r@.len(),
                            r@.len() == old_rows.len(),
                            dn == ds.len(),
                            r@[j as int].label@ == l@,
                            strs(r@[j as int].dirs@) == old_dirs + strs(ds@).subrange(0, q as int),
                            forall|w: int|
                                0 <= w < r@.len() && w != j ==> r@[w] == old_rows[w],
                        decreases dn - q,
                    {
                        let d = ds[q].clone();
                        let ghost before = strs(r@[j as int].dirs@);
                        r[j].dirs.push(d);
                        proof {
                            assert(strs(r@[j as int].dirs@) =~= before.push(strs(ds@)[q as int]));
                            assert(old_dirs + strs(ds@).subrange(0, q as int) + seq![
                                strs(ds@)[q as int],
                            ] =~= old_dirs + strs(ds@).subrange(0, q + 1 as int));
                        }
                        q = q + 1;
                    }
                    proof {
                        assert(strs(ds@).subrange(0, dn as int) =~= strs(ds@));
                        assert(r@ =~= old_rows.update(j as int, r@[j as int]));
                        lemma_routes_map_update(old_rows, j as int, r@[j as int]);
                        assert(routes_wf(r@)) by {
                            assert(forall|a: int, b: int|
                                0 <= a < b < r@.len() ==> r@[a].label@ == old_rows[a].label@
                                    && r@[b].label@ == old_rows[b].label@);
                        }
                        assert(routes_map(r@) =~= routes_fold(
                            routing@.subrange(0, i + 1 as int),
                            account_name@,
                            data_dir@,
                        ));
                    }
                } else {
                    let ghost old_rows = r@;
                    r.push(Route { label: l, dirs: ds });
                    proof {
                        assert(r@.drop_last() =~= old_rows);
                        assert(routes_wf(r@)) by {
                            assert forall|a: int, b: int|
                                0 <= a < b < r@.len() implies r@[a].label@ != r@[b].label@ by {
                                if b == r@.len() - 1 {
                                    assert(r@[a] == old_rows[a]);
                                }
                            }
                        }
                        assert(Seq::<Seq<char>>::empty() + strs(r@.last().dirs@) =~= strs(
                            r@.last().dirs@,
                        ));
                        assert(routes_map(r@) =~= routes_fold(
                            routing@.subrange(0, i + 1 as int),
                            account_name@,
                            data_dir@,
                        ));
                    }
                }
            },
        }
        i = i + 1;
    }
    proof {
        assert(routing@.subrange(0, n as int) =~= routing@);
    }
    r
}

/// One planned copy of a routing pass over existing files.
pub struct CopyPlan {
    pub file_name: String,
    pub dest_dir: String,
}

/// The mathematical value of a [`CopyPlan`].
pub ghost struct CopyPlanView {
    pub file_name: Seq<char>,
    pub dest_dir: Seq<char>,
}

impl View for CopyPlan {
    type V = CopyPlanView;

    open spec fn view(&self) -> CopyPlanView {
        CopyPlanView { file_name: self.file_name@, dest_dir: self.dest_dir@ }
    }
}

/// The view sequence of a copy plan vector.
pub open spec fn copy_views(v: Seq<CopyPlan>) -> Seq<CopyPlanView> {
    Seq::new(v.len(), |i: int| v[i]@)
}

/// One copy of the file into each destination directory.
pub open spec fn copies_to_dirs(name: Seq<char>, dirs: Seq<Seq<char>>) -> Seq<CopyPlanView> {
    Seq::new(dirs.len(), |i: int| CopyPlanView { file_name: name, dest_dir: dirs[i] })
}

/// The copies one file's labels demand, in label order.
pub open spec fn copies_for_labels(
    name: Seq<char>,
    labels: Seq<Seq<char>>,
    table: Map<Seq<char>, Seq<Seq<char>>>,
) -> Seq<CopyPlanView>
    decreases labels.len(),
{
    if labels.len() == 0 {
        Seq::empty()
    } else {
        copies_for_labels(name, labels.drop_last(), table) + if table.contains_key(
            labels.last(),
        ) {
            copies_to_dirs(name, table[labels.last()])
        } else {
            Seq::empty()
        }
    }
}

/// All copies a routing pass over the directory makes: for each
/// decodable thread file, one copy into every directory its labels
/// route to.
pub open spec fn copies_spec(
    files: Seq<crate::merge::DirEntryView>,
    table: Map<Seq<char>, Seq<Seq<char>>>,
) -> Seq<CopyPlanView>
    decreases files.len(),
{
    if files.len() == 0 {
        Seq::empty()
    } else {
        copies_spec(files.drop_last(), table) + if crate::merge::is_md_name(files.last().name) {
            match crate::markdown::decode_spec(files.last().text) {
                Some(tv) => copies_for_labels(files.last().name, tv.labels, table),
                None => Seq::empty(),
            }
        } else {
            Seq::empty()
        }
    }
}

/// Plan the copies of a routing pass over existing conversation files.
pub fn planned_copies(files: &Vec<crate::merge::DirEntry>, routes: &Vec<Route>) -> (r: Vec<
    CopyPlan,
>)
    requires
        routes_wf(routes@),
    ensures
        copy_views(r@) == copies_spec(
            crate::merge::entry_views(files@),
            routes_map(routes@),
        ),
{
    let ghost table = routes_map(routes@);
    let ghost evs = crate::merge::entry_views(files@);
    let mut r: Vec<CopyPlan> = Vec::new();
    let n = files.len();
    let mut i: usize = 0;
    proof {
        assert(evs.subrange(0, 0) =~= Seq::<crate::merge::DirEntryView>::empty());
        assert(copy_views(r@) =~= copies_spec(evs.subrange(0, 0), table));
    }
    while i < n
        invariant
            0 <= i <= n,
            n == files.len(),
            routes_wf(routes@),
            table == routes_map(routes@),
            evs == crate::merge::entry_views(files@),
            copy_views(r@) == copies_spec(evs.subrange(0, i as int), table),
        decreases n - i,
    {
        proof {
            assert(evs.subrange(0, i + 1 as int).drop_last() =~= evs.subrange(0, i as int));
            assert(evs.subrange(0, i + 1 as int).last() == evs[i as int]);
            assert(evs[i as int] == files@[i as int]@);
        }
        let ghost before = copy_views(r@);
        if crate::merge::is_md_name_str(files[i].name.as_str()) {
            match crate::markdown::parse_thread_markdown(files[i].text.as_str()) {
                Some(thread) => {
                    let nl = thread.labels.len();
                    let mut li: usize = 0;
                    proof {
                        assert(thread@.labels.subrange(0, 0) =~= Seq::<Seq<char>>::empty());
                        assert(copies_for_labels(
                            evs[i as int].name,
                            thread@.labels.subrange(0, 0),
                            table,
                        ) =~= Seq::<CopyPlanView>::empty());
                        assert(before + Seq::<CopyPlanView>::empty() =~= before);
                    }
                    while li < nl
                        invariant
                            0 <= li <= nl,
                            0 <= i < n,
                            n == files.len(),
                            nl == thread.labels.len(),
                            routes_wf(routes@),
                            table == routes_map(routes@),
                            evs == crate::merge::entry_views(files@),
                            copy_views(r@) == before + copies_for_labels(
                                evs[i as int].name,
                                thread@.labels.subrange(0, li as int),
                                table,
                            ),
                        decreases nl - li,
                    {
                        proof {
                            assert(thread@.labels.subrange(0, li + 1 as int).drop_last()
                                =~= thread@.labels.subrange(0, li as int));
                            assert(thread@.labels.subrange(0, li + 1 as int).last()
                                == thread@.labels[li as int]);
                            lemma_routes_map_key(routes@, thread@.labels[li as int]);
                        }
                        let label = &thread.labels[li];
                        let rn = routes.len();
                        let mut ri: usize = 0;
                        let mut row: Option<usize> = None;
                        while ri < rn && row.is_none()
                            invariant
                                0 <= ri <= rn,
                                rn == routes.len(),
                                row is None ==> forall|q: int|
                                    0 <= q < ri ==> routes@[q].label@ != thread@.labels[li as int],
                                row is Some ==> row->0 < rn && routes@[
                                    row->0 as int].label@ == thread@.labels[li as int],
                            decreases rn - ri + (if row is Some { 0int } else { 1int }),
                        {
                            if crate::strutil::str_eq(
                                routes[ri].label.as_str(),
                                label.as_str(),
                            ) {
                                row = Some(ri);
                            } else {
                                ri = ri + 1;
                            }
                        }
                        let ghost mid = copy_views(r@);
                        match row {
                            Some(idx) => {
                                let dn = routes[idx].dirs.len();
                                let mut di: usize = 0;
                                proof {
                                    assert(mid + copies_to_dirs(
                                        evs[i as int].name,
                                        table[thread@.labels[li as int]],
                                    ).subrange(0, 0) =~= mid);
                                }
                                while di < dn
                                    invariant
                                        0 <= di <= dn,
                                        0 <= i < n,
                                        n == files.len(),
                                        0 <= idx < routes.len(),
                                        dn == routes@[idx as int].dirs@.len(),
                                        routes_wf(routes@),
                                        table == routes_map(routes@),
                                        evs == crate::merge::entry_views(files@),
                                        routes@[idx as int].label@ == thread@.labels[li as int],
                                        table.contains_key(thread@.labels[li as int]),
                                        table[thread@.labels[li as int]] == strs(
                                            routes@[idx as int].dirs@,
                                        ),
                                        copy_views(r@) == mid + copies_to_dirs(
                                            evs[i as int].name,
                                            table[thread@.labels[li as int]],
                                        ).subrange(0, di as int),
                                    decreases dn - di,
                                {
                                    let ghost step = copy_views(r@);
                                    r.push(
                                        CopyPlan {
                                            file_name: files[i].name.clone(),
                                            dest_dir: routes[idx].dirs[di].clone(),
                                        },
                                    );
                                    proof {
                                        assert(copy_views(r@) =~= step.push(
                                            CopyPlanView {
                                                file_name: evs[i as int].name,
                                                dest_dir: table[thread@.labels[li as int]][
                                                    di as int],
                                            },
                                        ));
                                        assert(mid + copies_to_dirs(
                                            evs[i as int].name,
                                            table[thread@.labels[li as int]],
                                        ).subrange(0, di as int) + seq![
                                            copies_to_dirs(
                                                evs[i as int].name,
                                                table[thread@.labels[li as int]],
                                            )[di as int],
                                        ] =~= mid + copies_to_dirs(
                                            evs[i as int].name,
                                            table[thread@.labels[li as int]],
                                        ).subrange(0, di + 1 as int));
                                    }
                                    di = di + 1;
                                }
                                proof {
                                    assert(copies_to_dirs(
                                        evs[i as int].name,
                                        table[thread@.labels[li as int]],
                                    ).subrange(0, dn as int) =~= copies_to_dirs(
                                        evs[i as int].name,
                                        table[thread@.labels[li as int]],
                                    ));
                                    assert(copy_views(r@) =~= before + copies_for_labels(
                                        evs[i as int].name,
                                        thread@.labels.subrange(0, li + 1 as int),
                                        table,
                                    ));
                                }
                            },
                            None => {
                                proof {
                                    assert(!table.contains_key(thread@.labels[li as int]));
                                    assert(mid + Seq::<CopyPlanView>::empty() =~= mid);
                                    assert(copy_views(r@) =~= before + copies_for_labels(
                                        evs[i as int].name,
                                        thread@.labels.subrange(0, li + 1 as int),
                                        table,
                                    ));
                                }
                            },
                        }
                        li = li + 1;
                    }
                    proof {
                        assert(thread@.labels.subrange(0, nl as int) =~= thread@.labels);
                        assert(copy_views(r@) =~= copies_spec(
                            evs.subrange(0, i + 1 as int),
                            table,
                        ));
                    }
                },
                None => {
                    proof {
                        assert(before + Seq::<CopyPlanView>::empty() =~= before);
                    }
                },
            }
        } else {
            proof {
                assert(before + Seq::<CopyPlanView>::empty() =~= before);
            }
        }
        i = i + 1;
    }
    proof {
        assert(evs.subrange(0, n as int) =~= evs);
    }
    r
}

} // verus!

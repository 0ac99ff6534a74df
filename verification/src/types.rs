//! Core data model: messages, threads, sync cursors and configuration
//! records.

#![verifier::loop_isolation(false)]

use vstd::prelude::*;

verus! {

/// One fetched mail message.  Immutable once built.
#[derive(Clone, Debug)]
pub struct Message {
    pub id: String,
    pub thread_id: String,
    pub from: String,
    pub date: String,
    pub subject: String,
    pub body: String,
}

/// The mathematical value of a [`Message`].
pub ghost struct MessageView {
    pub id: Seq<char>,
    pub thread_id: Seq<char>,
    pub from: Seq<char>,
    pub date: Seq<char>,
    pub subject: Seq<char>,
    pub body: Seq<char>,
}

impl View for Message {
    type V = MessageView;

    open spec fn view(&self) -> MessageView {
        MessageView {
            id: self.id@,
            thread_id: self.thread_id@,
            from: self.from@,
            date: self.date@,
            subject: self.subject@,
            body: self.body@,
        }
    }
}

impl Message {
    /// A field-for-field copy whose value the verifier knows.
    pub fn duplicate(&self) -> (r: Message)
        ensures
            r@ == self@,
    {
        Message {
            id: self.id.clone(),
            thread_id: self.thread_id.clone(),
            from: self.from.clone(),
            date: self.date.clone(),
            subject: self.subject.clone(),
            body: self.body.clone(),
        }
    }
}

/// The view sequence of a vector of strings.
pub open spec fn strs(v: Seq<String>) -> Seq<Seq<char>> {
    Seq::new(v.len(), |i: int| v[i]@)
}

/// The view sequence of a vector of messages.
pub open spec fn msg_views(v: Seq<Message>) -> Seq<MessageView> {
    Seq::new(v.len(), |i: int| v[i]@)
}

/// Membership of a character sequence in a sequence of them.
pub open spec fn str_in(xs: Seq<Seq<char>>, x: Seq<char>) -> bool {
    exists|i: int| 0 <= i < xs.len() && xs[i] == x
}

/// No element occurs twice.
pub open spec fn no_dup_strs(xs: Seq<Seq<char>>) -> bool {
    forall|i: int, j: int| 0 <= i < j < xs.len() ==> xs[i] != xs[j]
}

/// Whether some string in `v` views to `x`.
pub fn contains_str(v: &Vec<String>, x: &str) -> (r: bool)
    ensures
        r == str_in(strs(v@), x@),
{
    let n = v.len();
    let mut i: usize = 0;
    while i < n
        invariant
            0 <= i <= n,
            n == v.len(),
            forall|k: int| 0 <= k < i ==> strs(v@)[k] != x@,
        decreases n - i,
    {
        if crate::strutil::str_eq(v[i].as_str(), x) {
            assert(strs(v@)[i as int] == x@);
            return true;
        }
        i = i + 1;
    }
    false
}

/// One conversation thread, as stored in a Markdown file.
#[derive(Clone, Debug)]
pub struct Thread {
    pub id: String,
    pub subject: String,
    pub labels: Vec<String>,
    pub accounts: Vec<String>,
    pub messages: Vec<Message>,
    pub last_date: String,
}

/// The mathematical value of a [`Thread`].
pub ghost struct ThreadView {
    pub id: Seq<char>,
    pub subject: Seq<char>,
    pub labels: Seq<Seq<char>>,
    pub accounts: Seq<Seq<char>>,
    pub messages: Seq<MessageView>,
    pub last_date: Seq<char>,
}

impl View for Thread {
    type V = ThreadView;

    open spec fn view(&self) -> ThreadView {
        ThreadView {
            id: self.id@,
            subject: self.subject@,
            labels: strs(self.labels@),
            accounts: strs(self.accounts@),
            messages: msg_views(self.messages@),
            last_date: self.last_date@,
        }
    }
}

impl Default for Thread {
    /// An empty thread: every field blank.
    fn default() -> (r: Thread)
        ensures
            r@.id == Seq::<char>::empty(),
            r@.subject == Seq::<char>::empty(),
            r@.labels == Seq::<Seq<char>>::empty(),
            r@.accounts == Seq::<Seq<char>>::empty(),
            r@.messages == Seq::<MessageView>::empty(),
            r@.last_date == Seq::<char>::empty(),
    {
        let r = Thread {
            id: String::new(),
            subject: String::new(),
            labels: Vec::new(),
            accounts: Vec::new(),
            messages: Vec::new(),
            last_date: String::new(),
        };
        proof {
            assert(r@.labels =~= Seq::<Seq<char>>::empty());
            assert(r@.accounts =~= Seq::<Seq<char>>::empty());
            assert(r@.messages =~= Seq::<MessageView>::empty());
        }
        r
    }
}

/// The per-(account, label) sync cursor: the folder identity token and the
/// highest message ordinal already mirrored.
#[derive(Clone, Copy, Debug, PartialEq, Eq, Structural)]
pub struct LabelState {
    pub uidvalidity: u32,
    pub last_uid: u32,
}

/// One named cursor inside an account's state.
#[derive(Clone, Debug)]
pub struct LabelEntry {
    pub name: String,
    pub state: LabelState,
}

/// Per-account sync state: one cursor per label, keys unique.
#[derive(Clone, Debug)]
pub struct AccountSyncState {
    pub labels: Vec<LabelEntry>,
}

/// The map a sequence of label entries stands for.
pub open spec fn label_map(s: Seq<LabelEntry>) -> Map<Seq<char>, LabelState>
    decreases s.len(),
{
    if s.len() == 0 {
        Map::empty()
    } else {
        label_map(s.drop_last()).insert(s.last().name@, s.last().state)
    }
}

/// Unique label names.
pub open spec fn label_entries_wf(s: Seq<LabelEntry>) -> bool {
    forall|i: int, j: int| 0 <= i < j < s.len() ==> s[i].name@ != s[j].name@
}

proof fn lemma_label_map(s: Seq<LabelEntry>, name: Seq<char>)
    requires
        label_entries_wf(s),
    ensures
        label_map(s).contains_key(name) <==> exists|i: int|
            0 <= i < s.len() && s[i].name@ == name,
        forall|i: int|
            0 <= i < s.len() && s[i].name@ == name ==> label_map(s).contains_key(name)
                && label_map(s)[name] == s[i].state,
    decreases s.len(),
{
    if s.len() > 0 {
        assert(label_entries_wf(s.drop_last()));
        lemma_label_map(s.drop_last(), name);
        assert(forall|i: int|
            0 <= i < s.len() - 1 ==> s.drop_last()[i] == s[i]);
    }
}

impl View for AccountSyncState {
    type V = Map<Seq<char>, LabelState>;

    open spec fn view(&self) -> Map<Seq<char>, LabelState> {
        label_map(self.labels@)
    }
}

impl AccountSyncState {
    /// Unique label names, so the entry list stands for a map.
    pub open spec fn wf(&self) -> bool {
        label_entries_wf(self.labels@)
    }

    /// A fresh state with no cursors.
    pub fn new() -> (r: AccountSyncState)
        ensures
            r.wf(),
            r@ == Map::<Seq<char>, LabelState>::empty(),
    {
        let r = AccountSyncState { labels: Vec::new() };
        proof {
            assert(r@ =~= Map::<Seq<char>, LabelState>::empty());
        }
        r
    }

    /// The stored cursor for `name`, if any.
    pub fn get(&self, name: &str) -> (r: Option<LabelState>)
        requires
            self.wf(),
        ensures
            r == if self@.contains_key(name@) {
                Some(self@[name@])
            } else {
                None::<LabelState>
            },
    {
        proof {
            lemma_label_map(self.labels@, name@);
        }
        let n = self.labels.len();
        let mut i: usize = 0;
        while i < n
            invariant
                0 <= i <= n,
                n == self.labels.len(),
                forall|k: int| 0 <= k < i ==> self.labels@[k].name@ != name@,
            decreases n - i,
        {
            if crate::strutil::str_eq(self.labels[i].name.as_str(), name) {
                return Some(self.labels[i].state);
            }
            i = i + 1;
        }
        None
    }

    /// Store the cursor for `name`, replacing any prior one.
    pub fn set(&mut self, name: &str, st: LabelState)
        requires
            old(self).wf(),
        ensures
            final(self).wf(),
            final(self)@ == old(self)@.insert(name@, st),
    {
        proof {
            lemma_label_map(self.labels@, name@);
        }
        let n = self.labels.len();
        let mut i: usize = 0;
        while i < n
            invariant
                0 <= i <= n,
                n == self.labels.len(),
                self.labels@ == old(self).labels@,
                forall|k: int| 0 <= k < i ==> self.labels@[k].name@ != name@,
            decreases n - i,
        {
            if crate::strutil::str_eq(self.labels[i].name.as_str(), name) {
                let ghost old_entries = self.labels@;
                let ghost idx = i as int;
                self.labels[i].state = st;
                proof {
                    let new_entries = self.labels@;
                    assert(new_entries =~= old_entries.update(
                        idx,
                        LabelEntry { name: old_entries[idx].name, state: st },
                    ));
                    lemma_label_map_update(old_entries, idx, st);
                    assert(final(self)@ =~= old(self)@.insert(name@, st));
                }
                return ;
            }
            i = i + 1;
        }
        let ghost old_entries = self.labels@;
        self.labels.push(LabelEntry { name: name.to_owned(), state: st });
        proof {
            assert(self.labels@.drop_last() =~= old_entries);
            assert(final(self)@ =~= old(self)@.insert(name@, st));
        }
    }
}

proof fn lemma_label_map_update(s: Seq<LabelEntry>, i: int, st: LabelState)
    requires
        label_entries_wf(s),
        0 <= i < s.len(),
    ensures
        label_map(s.update(i, LabelEntry { name: s[i].name, state: st })) == label_map(s).insert(
            s[i].name@,
            st,
        ),
    decreases s.len(),
{
    let t = s.update(i, LabelEntry { name: s[i].name, state: st });
    if i == s.len() - 1 {
        assert(t.drop_last() =~= s.drop_last());
        assert(t.last() == LabelEntry { name: s[i].name, state: st });
        assert(label_map(t) =~= label_map(s).insert(s[i].name@, st));
    } else {
        assert(label_entries_wf(s.drop_last()));
        lemma_label_map_update(s.drop_last(), i, st);
        assert(t.drop_last() =~= s.drop_last().update(
            i,
            LabelEntry { name: s[i].name, state: st },
        ));
        assert(t.last() == s.last());
        // the updated key differs from the last entry's key
        assert(s[i].name@ != s.last().name@);
        assert(label_map(t) =~= label_map(s).insert(s[i].name@, st));
    }
}

/// One named account state inside the whole sync state.
#[derive(Clone, Debug)]
pub struct AccountEntry {
    pub name: String,
    pub state: AccountSyncState,
}

/// The whole persisted sync state: per account, per label cursors.
#[derive(Clone, Debug)]
pub struct SyncState {
    pub accounts: Vec<AccountEntry>,
}

/// The map a sequence of account entries stands for.
pub open spec fn account_map(s: Seq<AccountEntry>) -> Map<Seq<char>, Map<Seq<char>, LabelState>>
    decreases s.len(),
{
    if s.len() == 0 {
        Map::empty()
    } else {
        account_map(s.drop_last()).insert(s.last().name@, s.last().state@)
    }
}

/// Unique account names, and each account state well formed.
pub open spec fn account_entries_wf(s: Seq<AccountEntry>) -> bool {
    &&& forall|i: int, j: int| 0 <= i < j < s.len() ==> s[i].name@ != s[j].name@
    &&& forall|i: int| 0 <= i < s.len() ==> (#[trigger] s[i].state).wf()
}

proof fn lemma_account_map(s: Seq<AccountEntry>, name: Seq<char>)
    requires
        account_entries_wf(s),
    ensures
        account_map(s).contains_key(name) <==> exists|i: int|
            0 <= i < s.len() && s[i].name@ == name,
        forall|i: int|
            0 <= i < s.len() && s[i].name@ == name ==> account_map(s).contains_key(name)
                && account_map(s)[name] == s[i].state@,
    decreases s.len(),
{
    if s.len() > 0 {
        assert(account_entries_wf(s.drop_last()));
        lemma_account_map(s.drop_last(), name);
        assert(forall|i: int|
            0 <= i < s.len() - 1 ==> s.drop_last()[i] == s[i]);
    }
}

impl View for SyncState {
    type V = Map<Seq<char>, Map<Seq<char>, LabelState>>;

    open spec fn view(&self) -> Map<Seq<char>, Map<Seq<char>, LabelState>> {
        account_map(self.accounts@)
    }
}

impl SyncState {
    /// Unique account names, each with a well-formed label table.
    pub open spec fn wf(&self) -> bool {
        account_entries_wf(self.accounts@)
    }

    /// The empty state: no prior sync recorded anywhere.
    pub fn new() -> (r: SyncState)
        ensures
            r.wf(),
            r@ == Map::<Seq<char>, Map<Seq<char>, LabelState>>::empty(),
    {
        let r = SyncState { accounts: Vec::new() };
        proof {
            assert(r@ =~= Map::<Seq<char>, Map<Seq<char>, LabelState>>::empty());
        }
        r
    }

    /// The stored cursor for `(account, label)`, if any.
    pub fn label_state(&self, account: &str, label: &str) -> (r: Option<LabelState>)
        requires
            self.wf(),
        ensures
            r == if self@.contains_key(account@) && self@[account@].contains_key(label@) {
                Some(self@[account@][label@])
            } else {
                None::<LabelState>
            },
    {
        proof {
            lemma_account_map(self.accounts@, account@);
        }
        let n = self.accounts.len();
        let mut i: usize = 0;
        while i < n
            invariant
                0 <= i <= n,
                n == self.accounts.len(),
                forall|k: int| 0 <= k < i ==> self.accounts@[k].name@ != account@,
            decreases n - i,
        {
            if crate::strutil::str_eq(self.accounts[i].name.as_str(), account) {
                return self.accounts[i].state.get(label);
            }
            i = i + 1;
        }
        None
    }

    /// Store the cursor for `(account, label)`, creating the account entry
    /// when absent.
    pub fn set_label_state(&mut self, account: &str, label: &str, st: LabelState)
        requires
            old(self).wf(),
        ensures
            final(self).wf(),
            final(self)@ == old(self)@.insert(
                account@,
                if old(self)@.contains_key(account@) {
                    old(self)@[account@].insert(label@, st)
                } else {
                    Map::<Seq<char>, LabelState>::empty().insert(label@, st)
                },
            ),
    {
        proof {
            lemma_account_map(self.accounts@, account@);
        }
        let n = self.accounts.len();
        let mut i: usize = 0;
        while i < n
            invariant
                0 <= i <= n,
                n == self.accounts.len(),
                self.accounts@ == old(self).accounts@,
                forall|k: int| 0 <= k < i ==> self.accounts@[k].name@ != account@,
            decreases n - i,
        {
            if crate::strutil::str_eq(self.accounts[i].name.as_str(), account) {
                let ghost old_entries = self.accounts@;
                let ghost idx = i as int;
                self.accounts[i].state.set(label, st);
                proof {
                    let new_entries = self.accounts@;
                    assert(new_entries =~= old_entries.update(idx, new_entries[idx]));
                    assert(new_entries[idx].name@ == account@);
                    assert(new_entries[idx].state@ == old_entries[idx].state@.insert(label@, st));
                    lemma_account_map_update(old_entries, idx, new_entries[idx]);
                    assert(final(self)@ =~= old(self)@.insert(
                        account@,
                        old(self)@[account@].insert(label@, st),
                    ));
                }
                return ;
            }
            i = i + 1;
        }
        let mut fresh = AccountSyncState::new();
        fresh.set(label, st);
        let ghost old_entries = self.accounts@;
        self.accounts.push(AccountEntry { name: account.to_owned(), state: fresh });
        proof {
            assert(self.accounts@.drop_last() =~= old_entries);
            assert(fresh@ =~= Map::<Seq<char>, LabelState>::empty().insert(label@, st));
            assert(final(self)@ =~= old(self)@.insert(
                account@,
                Map::<Seq<char>, LabelState>::empty().insert(label@, st),
            ));
        }
    }
}

proof fn lemma_account_map_update(s: Seq<AccountEntry>, i: int, e: AccountEntry)
    requires
        account_entries_wf(s),
        0 <= i < s.len(),
        e.name@ == s[i].name@,
    ensures
        account_map(s.update(i, e)) == account_map(s).insert(e.name@, e.state@),
    decreases s.len(),
{
    let t = s.update(i, e);
    if i == s.len() - 1 {
        assert(t.drop_last() =~= s.drop_last());
        assert(t.last() == e);
        assert(account_map(t) =~= account_map(s).insert(e.name@, e.state@));
    } else {
        assert(account_entries_wf(s.drop_last()));
        lemma_account_map_update(s.drop_last(), i, e);
        assert(t.drop_last() =~= s.drop_last().update(i, e));
        assert(t.last() == s.last());
        assert(s[i].name@ != s.last().name@);
        assert(account_map(t) =~= account_map(s).insert(e.name@, e.state@));
    }
}

/// Fixed IMAP/SMTP settings a provider preset supplies.
#[derive(Clone, Debug)]
pub struct AccountDefaults {
    pub imap_host: String,
    pub imap_port: u16,
    pub imap_starttls: bool,
    pub smtp_host: String,
    pub smtp_port: u16,
    pub drafts_folder: String,
}

/// One configured mail account.
#[derive(Clone, Debug)]
pub struct Account {
    pub provider: String,
    pub user: String,
    pub password: String,
    pub password_cmd: String,
    pub labels: Vec<String>,
    pub imap_host: String,
    pub imap_port: u16,
    pub imap_starttls: bool,
    pub smtp_host: String,
    pub smtp_port: u16,
    pub drafts_folder: String,
    pub sync_days: u32,
    pub default: bool,
}

/// The owner section of the configuration.
#[derive(Clone, Debug)]
pub struct OwnerConfig {
    pub github_user: String,
    pub name: String,
}

/// The polling daemon's settings.
#[derive(Clone, Copy, Debug)]
pub struct WatchConfig {
    pub poll_interval: u64,
    pub notify: bool,
}

impl Default for WatchConfig {
    /// Poll every five minutes, without desktop notification.
    fn default() -> (r: WatchConfig)
        ensures
            r.poll_interval == 300,
            !r.notify,
    {
        WatchConfig { poll_interval: 300, notify: false }
    }
}

/// One contact: addresses and labels bound to a display name.
#[derive(Clone, Debug)]
pub struct Contact {
    pub emails: Vec<String>,
    pub labels: Vec<String>,
    pub account: String,
}

/// Per-collaborator permissions of one shared mailbox.
#[derive(Clone, Debug)]
pub struct MailboxPermissions {
    pub write: Vec<String>,
    pub read: Vec<String>,
    pub sync: bool,
    pub send: bool,
}

/// One named permission set of a shared mailbox.
#[derive(Clone, Debug)]
pub struct NamedPermissions {
    pub name: String,
    pub permissions: MailboxPermissions,
}

/// One shared mailbox's settings.
#[derive(Clone, Debug)]
pub struct MailboxConfig {
    pub auto_send: bool,
    pub permissions: Vec<NamedPermissions>,
}

/// One account under its configured name.
#[derive(Clone, Debug)]
pub struct NamedAccount {
    pub name: String,
    pub account: Account,
}

/// One named mailbox configuration.
#[derive(Clone, Debug)]
pub struct NamedMailbox {
    pub name: String,
    pub mailbox: MailboxConfig,
}

/// One routing rule: a label key (bare, or `account:label`) and the
/// mailboxes whose conversation directories its messages fan out to.
#[derive(Clone, Debug)]
pub struct RouteRule {
    pub key: String,
    pub mailboxes: Vec<String>,
}

/// The unified configuration file's content.
#[derive(Clone, Debug)]
pub struct CorkyConfig {
    pub owner: Option<OwnerConfig>,
    pub accounts: Vec<NamedAccount>,
    pub routing: Vec<RouteRule>,
    pub mailboxes: Vec<NamedMailbox>,
    pub watch: Option<WatchConfig>,
}

} // verus!

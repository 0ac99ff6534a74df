//! Account selection and provider presets.

#![verifier::loop_isolation(false)]

use vstd::prelude::*;

use crate::strutil::{lower_of, lowercase, str_eq};
use crate::types::{Account, AccountDefaults, NamedAccount};

verus! {

/// One provider preset under its name.
pub struct PresetEntry {
    pub name: String,
    pub defaults: AccountDefaults,
}

/// The built-in provider presets, in a fixed order.
pub fn provider_presets() -> (r: Vec<PresetEntry>)
    ensures
        r@.len() == 2,
        r@[0].name@ == "gmail"@,
        r@[0].defaults.imap_host@ == "imap.gmail.com"@,
        r@[0].defaults.imap_port == 993,
        !r@[0].defaults.imap_starttls,
        r@[0].defaults.smtp_host@ == "smtp.gmail.com"@,
        r@[0].defaults.smtp_port == 465,
        r@[0].defaults.drafts_folder@ == "[Gmail]/Drafts"@,
        r@[1].name@ == "protonmail-bridge"@,
        r@[1].defaults.imap_host@ == "127.0.0.1"@,
        r@[1].defaults.imap_port == 1143,
        r@[1].defaults.imap_starttls,
        r@[1].defaults.smtp_host@ == "127.0.0.1"@,
        r@[1].defaults.smtp_port == 1025,
        r@[1].defaults.drafts_folder@ == "Drafts"@,
{
    let mut r: Vec<PresetEntry> = Vec::new();
    r.push(
        PresetEntry {
            name: "gmail".to_owned(),
            defaults: AccountDefaults {
                imap_host: "imap.gmail.com".to_owned(),
                imap_port: 993,
                imap_starttls: false,
                smtp_host: "smtp.gmail.com".to_owned(),
                smtp_port: 465,
                drafts_folder: "[Gmail]/Drafts".to_owned(),
            },
        },
    );
    r.push(
        PresetEntry {
            name: "protonmail-bridge".to_owned(),
            defaults: AccountDefaults {
                imap_host: "127.0.0.1".to_owned(),
                imap_port: 1143,
                imap_starttls: true,
                smtp_host: "127.0.0.1".to_owned(),
                smtp_port: 1025,
                drafts_folder: "Drafts".to_owned(),
            },
        },
    );
    r
}

impl Default for Account {
    /// A bare IMAP account with the standard ports and folders.
    fn default() -> (r: Account)
        ensures
            r.provider@ == "imap"@,
            r.user@ == Seq::<char>::empty(),
            r.password@ == Seq::<char>::empty(),
            r.password_cmd@ == Seq::<char>::empty(),
            r.labels@.len() == 0,
            r.imap_host@ == Seq::<char>::empty(),
            r.imap_port == 993,
            !r.imap_starttls,
            r.smtp_host@ == Seq::<char>::empty(),
            r.smtp_port == 465,
            r.drafts_folder@ == "Drafts"@,
            r.sync_days == 3650,
            !r.default,
    {
        Account {
            provider: "imap".to_owned(),
            user: String::new(),
            password: String::new(),
            password_cmd: String::new(),
            labels: Vec::new(),
            imap_host: String::new(),
            imap_port: 993,
            imap_starttls: false,
            smtp_host: String::new(),
            smtp_port: 465,
            drafts_folder: "Drafts".to_owned(),
            sync_days: 3650,
            default: false,
        }
    }
}

/// Fill preset defaults into an account: a preset value applies only
/// where the account still carries the built-in default, so explicit
/// settings always win.
pub fn apply_preset(account: &mut Account)
    ensures
        final(account).provider == old(account).provider,
        final(account).user == old(account).user,
        final(account).password == old(account).password,
        final(account).password_cmd == old(account).password_cmd,
        final(account).labels == old(account).labels,
        final(account).sync_days == old(account).sync_days,
        final(account).default == old(account).default,
        old(account).provider@ != "gmail"@ && old(account).provider@ != "protonmail-bridge"@
            ==> *final(account) == *old(account),
        old(account).provider@ == "gmail"@ ==> {
            &&& final(account).imap_host@ == if old(account).imap_host@.len() == 0 {
                "imap.gmail.com"@
            } else {
                old(account).imap_host@
            }
            &&& final(account).imap_port == old(account).imap_port
            &&& final(account).imap_starttls == old(account).imap_starttls
            &&& final(account).smtp_host@ == if old(account).smtp_host@.len() == 0 {
                "smtp.gmail.com"@
            } else {
                old(account).smtp_host@
            }
            &&& final(account).smtp_port == old(account).smtp_port
            &&& final(account).drafts_folder@ == if old(account).drafts_folder@ == "Drafts"@ {
                "[Gmail]/Drafts"@
            } else {
                old(account).drafts_folder@
            }
        },
        old(account).provider@ == "protonmail-bridge"@ ==> {
            &&& final(account).imap_host@ == if old(account).imap_host@.len() == 0 {
                "127.0.0.1"@
            } else {
                old(account).imap_host@
            }
            &&& final(account).imap_port == if old(account).imap_port == 993 {
                1143u16
            } else {
                old(account).imap_port
            }
            &&& final(account).imap_starttls
            &&& final(account).smtp_host@ == if old(account).smtp_host@.len() == 0 {
                "127.0.0.1"@
            } else {
                old(account).smtp_host@
            }
            &&& final(account).smtp_port == if old(account).smtp_port == 465 {
                1025u16
            } else {
                old(account).smtp_port
            }
            &&& final(account).drafts_folder == old(account).drafts_folder
        },
{
    proof {
        reveal_strlit("gmail");
        reveal_strlit("protonmail-bridge");
        assert("gmail"@.len() != "protonmail-bridge"@.len());
    }
    let is_gmail = str_eq(account.provider.as_str(), "gmail");
    let is_proton = str_eq(account.provider.as_str(), "protonmail-bridge");
    if is_gmail {
        if account.imap_host.as_str().is_empty() {
            account.imap_host = "imap.gmail.com".to_owned();
        }
        if account.smtp_host.as_str().is_empty() {
            account.smtp_host = "smtp.gmail.com".to_owned();
        }
        if str_eq(account.drafts_folder.as_str(), "Drafts") {
            account.drafts_folder = "[Gmail]/Drafts".to_owned();
        }
    } else if is_proton {
        if account.imap_host.as_str().is_empty() {
            account.imap_host = "127.0.0.1".to_owned();
        }
        if account.imap_port == 993 {
            account.imap_port = 1143;
        }
        account.imap_starttls = true;
        if account.smtp_host.as_str().is_empty() {
            account.smtp_host = "127.0.0.1".to_owned();
        }
        if account.smtp_port == 465 {
            account.smtp_port = 1025;
        }
    }
}

/// The first account flagged as default, if any.
pub open spec fn first_default(s: Seq<NamedAccount>) -> Option<int>
    decreases s.len(),
{
    if s.len() == 0 {
        None
    } else if s[0].account.default {
        Some(0)
    } else {
        match first_default(s.drop_first()) {
            Some(i) => Some(i + 1),
            None => None,
        }
    }
}

/// Pick the default account: the first flagged one, else the first
/// account; none only when no account is configured.
pub fn get_default_account(accounts: &Vec<NamedAccount>) -> (r: Option<usize>)
    ensures
        match r {
            Some(i) => i < accounts@.len() && match first_default(accounts@) {
                Some(j) => i as int == j,
                None => i == 0,
            },
            None => accounts@.len() == 0,
        },
{
    let n = accounts.len();
    let mut i: usize = 0;
    while i < n
        invariant
            0 <= i <= n,
            n == accounts.len(),
            forall|k: int| 0 <= k < i ==> !accounts@[k].account.default,
        decreases n - i,
    {
        if accounts[i].account.default {
            proof {
                lemma_first_default_at(accounts@, i as int);
            }
            return Some(i);
        }
        i = i + 1;
    }
    proof {
        if accounts@.len() > 0 {
            lemma_first_default_none(accounts@);
        }
    }
    if n > 0 {
        Some(0)
    } else {
        None
    }
}

proof fn lemma_first_default_at(s: Seq<NamedAccount>, i: int)
    requires
        0 <= i < s.len(),
        s[i].account.default,
        forall|k: int| 0 <= k < i ==> !s[k].account.default,
    ensures
        first_default(s) == Some(i),
    decreases i,
{
    if i > 0 {
        lemma_first_default_at(s.drop_first(), i - 1);
    }
}

proof fn lemma_first_default_none(s: Seq<NamedAccount>)
    requires
        forall|k: int| 0 <= k < s.len() ==> !s[k].account.default,
    ensures
        first_default(s) is None,
    decreases s.len(),
{
    if s.len() > 0 {
        lemma_first_default_none(s.drop_first());
    }
}

/// The first account whose address matches, compared lower-cased.
pub open spec fn first_for_email(s: Seq<NamedAccount>, email: Seq<char>) -> Option<int>
    decreases s.len(),
{
    if s.len() == 0 {
        None
    } else if lower_of(s[0].account.user@) == lower_of(email) {
        Some(0)
    } else {
        match first_for_email(s.drop_first(), email) {
            Some(i) => Some(i + 1),
            None => None,
        }
    }
}

/// Find the account that owns an address, matching case insensitively.
pub fn get_account_for_email(accounts: &Vec<NamedAccount>, email_addr: &str) -> (r: Option<usize>)
    ensures
        match r {
            Some(i) => first_for_email(accounts@, email_addr@) == Some(i as int) && i < accounts@.len(),
            None => first_for_email(accounts@, email_addr@) is None,
        },
{
    let target = lowercase(email_addr);
    let n = accounts.len();
    let mut i: usize = 0;
    while i < n
        invariant
            0 <= i <= n,
            n == accounts.len(),
            target@ == lower_of(email_addr@),
            forall|k: int|
                0 <= k < i ==> lower_of(accounts@[k].account.user@) != lower_of(email_addr@),
        decreases n - i,
    {
        let low = lowercase(accounts[i].account.user.as_str());
        if str_eq(low.as_str(), target.as_str()) {
            proof {
                lemma_first_for_email_at(accounts@, email_addr@, i as int);
            }
            return Some(i);
        }
        i = i + 1;
    }
    proof {
        lemma_first_for_email_none(accounts@, email_addr@);
    }
    None
}

proof fn lemma_first_for_email_at(s: Seq<NamedAccount>, email: Seq<char>, i: int)
    requires
        0 <= i < s.len(),
        lower_of(s[i].account.user@) == lower_of(email),
        forall|k: int| 0 <= k < i ==> lower_of(s[k].account.user@) != lower_of(email),
    ensures
        first_for_email(s, email) == Some(i),
    decreases i,
{
    if i > 0 {
        lemma_first_for_email_at(s.drop_first(), email, i - 1);
    }
}

proof fn lemma_first_for_email_none(s: Seq<NamedAccount>, email: Seq<char>)
    requires
        forall|k: int| 0 <= k < s.len() ==> lower_of(s[k].account.user@) != lower_of(email),
    ensures
        first_for_email(s, email) is None,
    decreases s.len(),
{
    if s.len() > 0 {
        lemma_first_for_email_none(s.drop_first(), email);
    }
}

} // verus!

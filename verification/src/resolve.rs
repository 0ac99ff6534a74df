//! Path derivation for the data and configuration directories.
//!
//! The surrounding application decides where the data directory itself
//! lives (working directory, environment, or platform defaults); every
//! path beneath it is derived here.

#![verifier::loop_isolation(false)]

use vstd::prelude::*;

use crate::strutil::{lower_of, lowercase, str_chars};

verus! {

/// A slash-joined path: `dir/name`.
pub open spec fn path_join(dir: Seq<char>, name: Seq<char>) -> Seq<char> {
    dir + seq!['/'] + name
}

/// Join a directory and one name with a slash.
fn join_path(dir: &str, name: &str) -> (r: String)
    ensures
        r@ == path_join(dir@, name@),
{
    let mut v = str_chars(dir);
    v.push('/');
    let nv = str_chars(name);
    let n = nv.len();
    let mut i: usize = 0;
    while i < n
        invariant
            0 <= i <= n,
            n == nv.len(),
            v@ == dir@ + seq!['/'] + nv@.subrange(0, i as int),
        decreases n - i,
    {
        v.push(nv[i]);
        proof {
            assert(dir@ + seq!['/'] + nv@.subrange(0, i as int) + seq![nv@[i as int]] =~= dir@
                + seq!['/'] + nv@.subrange(0, i + 1 as int));
        }
        i = i + 1;
    }
    proof {
        assert(nv@.subrange(0, n as int) =~= nv@);
        assert(v@ =~= path_join(dir@, name@));
    }
    crate::strutil::chars_string(&v)
}

/// The configuration directory: it coincides with the data directory.
pub fn config_dir(data_dir: &str) -> (r: String)
    ensures
        r@ == data_dir@,
{
    data_dir.to_owned()
}

/// The primary conversation directory.
pub fn conversations_dir(data_dir: &str) -> (r: String)
    ensures
        r@ == path_join(data_dir@, "conversations"@),
{
    join_path(data_dir, "conversations")
}

/// The drafts directory.
pub fn drafts_dir(data_dir: &str) -> (r: String)
    ensures
        r@ == path_join(data_dir@, "drafts"@),
{
    join_path(data_dir, "drafts")
}

/// The contacts directory.
pub fn contacts_dir(data_dir: &str) -> (r: String)
    ensures
        r@ == path_join(data_dir@, "contacts"@),
{
    join_path(data_dir, "contacts")
}

/// A named mailbox's directory, the name lower-cased.
pub fn mailbox_dir(data_dir: &str, name: &str) -> (r: String)
    ensures
        r@ == path_join(path_join(data_dir@, "mailboxes"@), lower_of(name@)),
{
    let m = join_path(data_dir, "mailboxes");
    let low = lowercase(name);
    join_path(m.as_str(), low.as_str())
}

/// A collaborator's outbound directory.
pub fn collab_to_dir(data_dir: &str, gh_user: &str) -> (r: String)
    ensures
        r@ == path_join(path_join(path_join(data_dir@, "collabs"@), lower_of(gh_user@)), "to"@),
{
    let c = join_path(data_dir, "collabs");
    let low = lowercase(gh_user);
    let u = join_path(c.as_str(), low.as_str());
    join_path(u.as_str(), "to")
}

/// A collaborator's inbound directory.
pub fn collab_from_dir(data_dir: &str, gh_user: &str) -> (r: String)
    ensures
        r@ == path_join(path_join(path_join(data_dir@, "collabs"@), lower_of(gh_user@)), "from"@),
{
    let c = join_path(data_dir, "collabs");
    let low = lowercase(gh_user);
    let u = join_path(c.as_str(), low.as_str());
    join_path(u.as_str(), "from")
}

/// The persisted sync cursor file.
pub fn sync_state_file(data_dir: &str) -> (r: String)
    ensures
        r@ == path_join(data_dir@, ".sync-state.json"@),
{
    join_path(data_dir, ".sync-state.json")
}

/// The manifest file, beside the conversation directory.
pub fn manifest_file(data_dir: &str) -> (r: String)
    ensures
        r@ == path_join(data_dir@, "manifest.toml"@),
{
    join_path(data_dir, "manifest.toml")
}

/// The unified configuration file: the dot-file when it exists, else
/// the plain name when that exists, else the dot-file for creation.
pub fn corrkit_toml(config: &str, dotfile_exists: bool, plain_exists: bool) -> (r: String)
    ensures
        dotfile_exists ==> r@ == path_join(config@, ".corrkit.toml"@),
        !dotfile_exists && plain_exists ==> r@ == path_join(config@, "corrkit.toml"@),
        !dotfile_exists && !plain_exists ==> r@ == path_join(config@, ".corrkit.toml"@),
{
    if dotfile_exists {
        join_path(config, ".corrkit.toml")
    } else if plain_exists {
        join_path(config, "corrkit.toml")
    } else {
        join_path(config, ".corrkit.toml")
    }
}

/// The account configuration file.
pub fn accounts_toml(config: &str) -> (r: String)
    ensures
        r@ == path_join(config@, "accounts.toml"@),
{
    join_path(config, "accounts.toml")
}

/// The collaborator list file.
pub fn collaborators_toml(config: &str) -> (r: String)
    ensures
        r@ == path_join(config@, "collaborators.toml"@),
{
    join_path(config, "collaborators.toml")
}

/// The contact list file.
pub fn contacts_toml(config: &str) -> (r: String)
    ensures
        r@ == path_join(config@, "contacts.toml"@),
{
    join_path(config, "contacts.toml")
}

/// The writing-voice notes file.
pub fn voice_md(config: &str) -> (r: String)
    ensures
        r@ == path_join(config@, "voice.md"@),
{
    join_path(config, "voice.md")
}

/// The stored credential file.
pub fn credentials_json(config: &str) -> (r: String)
    ensures
        r@ == path_join(config@, "credentials.json"@),
{
    join_path(config, "credentials.json")
}

/// The application-level configuration file beneath the platform
/// configuration directory.
pub fn app_config_path(app_config_dir: &str) -> (r: String)
    ensures
        r@ == path_join(app_config_dir@, "config.toml"@),
{
    join_path(app_config_dir, "config.toml")
}

/// Whether a path opens with the home shorthand `~/`.
pub open spec fn tilde_prefixed(p: Seq<char>) -> bool {
    p.len() >= 2 && p[0] == '~' && p[1] == '/'
}

/// Expand a leading `~` to the home directory: `~/rest` becomes
/// `home/rest`, a bare `~` becomes the home directory, anything else is
/// returned unchanged.
pub fn expand_tilde(path: &str, home: &str) -> (r: String)
    ensures
        tilde_prefixed(path@) ==> r@ == home@ + path@.subrange(1, path@.len() as int),
        path@ =~= seq!['~'] ==> r@ == home@,
        !tilde_prefixed(path@) && path@ != seq!['~'] ==> r@ == path@,
{
    let pv = str_chars(path);
    let n = pv.len();
    if n >= 2 && pv[0] == '~' && pv[1] == '/' {
        let mut v = str_chars(home);
        let mut i: usize = 1;
        while i < n
            invariant
                1 <= i <= n,
                n == pv.len(),
                v@ == home@ + pv@.subrange(1, i as int),
            decreases n - i,
        {
            v.push(pv[i]);
            proof {
                assert(home@ + pv@.subrange(1, i as int) + seq![pv@[i as int]] =~= home@
                    + pv@.subrange(1, i + 1 as int));
            }
            i = i + 1;
        }
        crate::strutil::chars_string(&v)
    } else if n == 1 && pv[0] == '~' {
        proof {
            assert(path@ =~= seq!['~']);
        }
        home.to_owned()
    } else {
        proof {
            if n == 1 {
                assert(path@[0] != '~');
                assert(path@ != seq!['~']);
            } else {
                assert(path@.len() != 1);
                assert(path@ != seq!['~']);
            }
        }
        path.to_owned()
    }
}

} // verus!

//! Subject-line derived identifiers: file slugs and thread keys.

#![verifier::loop_isolation(false)]

use vstd::prelude::*;

use crate::strutil::{
    chars_string, is_slug_alnum, is_slug_alnum_char, is_wsp, lower_of, lowercase, str_chars,
    trim_back_c, trim_chars, trim_front, trim_front_c, trim_spec,
};

verus! {

/// Collapse every maximal run of non-alphanumeric characters to a single
/// hyphen.  `pending` says whether such a run is already open.
pub open spec fn slug_collapse(s: Seq<char>, pending: bool) -> Seq<char>
    decreases s.len(),
{
    if s.len() == 0 {
        Seq::empty()
    } else if is_slug_alnum(s[0]) {
        seq![s[0]] + slug_collapse(s.drop_first(), false)
    } else if pending {
        slug_collapse(s.drop_first(), true)
    } else {
        seq!['-'] + slug_collapse(s.drop_first(), true)
    }
}

/// The `untitled` fallback slug.
pub open spec fn untitled_chars() -> Seq<char> {
    seq!['u', 'n', 't', 'i', 't', 'l', 'e', 'd']
}

/// The slug of an already lower-cased subject: non-alphanumeric runs
/// become one hyphen each, hyphens are trimmed from the ends, the result
/// is cut to sixty characters, and an empty result becomes `untitled`.
pub open spec fn slug_spec(low: Seq<char>) -> Seq<char> {
    let t = trim_back_c(trim_front_c(slug_collapse(low, false), '-'), '-');
    let cut = if t.len() > 60 {
        t.subrange(0, 60)
    } else {
        t
    };
    if cut.len() == 0 {
        untitled_chars()
    } else {
        cut
    }
}

/// Generate a file-name slug from free text.
///
/// Lower-cases, replaces runs of other characters with single hyphens,
/// trims hyphens from the ends, truncates to sixty characters and falls
/// back to `untitled` when nothing is left.
pub fn slugify(text: &str) -> (r: String)
    ensures
        r@ == slug_spec(lower_of(text@)),
{
    let low = lowercase(text);
    let lv = str_chars(low.as_str());
    let n = lv.len();
    let mut collapsed: Vec<char> = Vec::new();
    let mut pending = false;
    let mut i: usize = 0;
    proof {
        assert(lv@.subrange(0, n as int) =~= lv@);
    }
    while i < n
        invariant
            0 <= i <= n,
            n == lv.len(),
            slug_collapse(lv@, false) == collapsed@ + slug_collapse(
                lv@.subrange(i as int, n as int),
                pending,
            ),
        decreases n - i,
    {
        proof {
            assert(lv@.subrange(i as int, n as int).drop_first() =~= lv@.subrange(
                i + 1,
                n as int,
            ));
        }
        let c = lv[i];
        if is_slug_alnum_char(c) {
            collapsed.push(c);
            pending = false;
        } else if !pending {
            collapsed.push('-');
            pending = true;
        }
        i = i + 1;
    }
    proof {
        assert(lv@.subrange(n as int, n as int) =~= Seq::<char>::empty());
        assert(collapsed@ + Seq::<char>::empty() =~= collapsed@);
    }
    let trimmed = crate::strutil::trim_char(&collapsed, '-');
    let cut = if trimmed.len() > 60 {
        let mut c: Vec<char> = Vec::new();
        let mut k: usize = 0;
        while k < 60
            invariant
                0 <= k <= 60,
                trimmed@.len() > 60,
                c@ == trimmed@.subrange(0, k as int),
            decreases 60 - k,
        {
            c.push(trimmed[k]);
            assert(c@ =~= trimmed@.subrange(0, k + 1 as int));
            k = k + 1;
        }
        c
    } else {
        trimmed
    };
    if cut.len() == 0 {
        let r = untitled_string();
        r
    } else {
        chars_string(&cut)
    }
}

/// The string `untitled`.
fn untitled_string() -> (r: String)
    ensures
        r@ == untitled_chars(),
{
    let mut r = String::new();
    crate::strutil::push_char(&mut r, 'u');
    crate::strutil::push_char(&mut r, 'n');
    crate::strutil::push_char(&mut r, 't');
    crate::strutil::push_char(&mut r, 'i');
    crate::strutil::push_char(&mut r, 't');
    crate::strutil::push_char(&mut r, 'l');
    crate::strutil::push_char(&mut r, 'e');
    crate::strutil::push_char(&mut r, 'd');
    proof {
        assert(r@ =~= untitled_chars());
    }
    r
}

/// Case-insensitive match of one character against a lower-case ASCII
/// letter.
pub open spec fn eq_ci(c: char, low: char) -> bool {
    c == low || c as u32 + 32 == low as u32
}

fn eq_ci_char(c: char, low: char) -> (r: bool)
    ensures
        r == eq_ci(c, low),
{
    c == low || c as u32 + 32 == low as u32
}

/// Whether `t` opens with a reply prefix `re:`, compared case
/// insensitively.
pub open spec fn has_re_prefix(t: Seq<char>) -> bool {
    t.len() >= 3 && eq_ci(t[0], 'r') && eq_ci(t[1], 'e') && t[2] == ':'
}

/// Whether `t` opens with a forward prefix `fwd:`.
pub open spec fn has_fwd_prefix(t: Seq<char>) -> bool {
    t.len() >= 4 && eq_ci(t[0], 'f') && eq_ci(t[1], 'w') && eq_ci(t[2], 'd') && t[3] == ':'
}

/// Whether `t` opens with a forward prefix `fw:`.
pub open spec fn has_fw_prefix(t: Seq<char>) -> bool {
    t.len() >= 3 && eq_ci(t[0], 'f') && eq_ci(t[1], 'w') && t[2] == ':'
}

/// Strip at most one leading reply or forward prefix, together with the
/// whitespace that follows it.
pub open spec fn strip_reply_prefix(t: Seq<char>) -> Seq<char> {
    if has_re_prefix(t) {
        trim_front(t.subrange(3, t.len() as int))
    } else if has_fwd_prefix(t) {
        trim_front(t.subrange(4, t.len() as int))
    } else if has_fw_prefix(t) {
        trim_front(t.subrange(3, t.len() as int))
    } else {
        t
    }
}

/// The thread key of a subject line: the trimmed, lower-cased subject
/// with at most one `Re:` / `Fwd:` / `Fw:` prefix removed.  This key is
/// the sole correlation identifier between messages and thread files.
pub fn thread_key_from_subject(subject: &str) -> (r: String)
    ensures
        r@ == strip_reply_prefix(lower_of(trim_spec(subject@))),
{
    let sv = str_chars(subject);
    let tv = trim_chars(&sv);
    let ts = chars_string(&tv);
    let low = lowercase(ts.as_str());
    let t = str_chars(low.as_str());
    let n = t.len();
    let stripped: Vec<char> = if n >= 3 && eq_ci_char(t[0], 'r') && eq_ci_char(t[1], 'e') && t[2]
        == ':' {
        drop_and_trim_front(&t, 3)
    } else if n >= 4 && eq_ci_char(t[0], 'f') && eq_ci_char(t[1], 'w') && eq_ci_char(t[2], 'd')
        && t[3] == ':' {
        drop_and_trim_front(&t, 4)
    } else if n >= 3 && eq_ci_char(t[0], 'f') && eq_ci_char(t[1], 'w') && t[2] == ':' {
        drop_and_trim_front(&t, 3)
    } else {
        t
    };
    chars_string(&stripped)
}

/// The characters from position `k` on, with leading whitespace removed.
fn drop_and_trim_front(v: &Vec<char>, k: usize) -> (r: Vec<char>)
    requires
        k <= v@.len(),
    ensures
        r@ == trim_front(v@.subrange(k as int, v@.len() as int)),
{
    let n = v.len();
    let mut i: usize = k;
    while i < n && crate::strutil::is_wsp_char(v[i])
        invariant
            k <= i <= n,
            n == v.len(),
            forall|j: int| k <= j < i ==> is_wsp(v@[j]),
        decreases n - i,
    {
        i = i + 1;
    }
    let mut r: Vec<char> = Vec::new();
    let mut j: usize = i;
    while j < n
        invariant
            i <= j <= n,
            n == v.len(),
            r@ == v@.subrange(i as int, j as int),
        decreases n - j,
    {
        r.push(v[j]);
        assert(r@ =~= v@.subrange(i as int, j + 1 as int));
        j = j + 1;
    }
    proof {
        let t = v@.subrange(k as int, n as int);
        crate::strutil::lemma_trim_front_index(t, i - k);
        assert(t.subrange(i - k, t.len() as int) =~= v@.subrange(i as int, n as int));
    }
    r
}

} // verus!

//! Character and string primitives shared by the whole library.
//!
//! Everything here is specified over `Seq<char>` views; executable code
//! reads characters through vstd's `get_char` and builds strings one
//! character at a time.

use vstd::prelude::*;
use vstd::string::StrSliceExecFns;

verus! {

/// A whitespace character, following the Unicode `White_Space` property
/// (the set that `char::is_whitespace` documents).
pub open spec fn is_wsp(c: char) -> bool {
    ||| c == ' '
    ||| c == '\t'
    ||| c == '\n'
    ||| c == '\r'
    ||| c == '\u{0B}'
    ||| c == '\u{0C}'
    ||| c == '\u{85}'
    ||| c == '\u{A0}'
    ||| c == '\u{1680}'
    ||| (0x2000 <= c as u32 && c as u32 <= 0x200A)
    ||| c == '\u{2028}'
    ||| c == '\u{2029}'
    ||| c == '\u{202F}'
    ||| c == '\u{205F}'
    ||| c == '\u{3000}'
}

/// Executable test for [`is_wsp`].
pub fn is_wsp_char(c: char) -> (r: bool)
    ensures
        r == is_wsp(c),
{
    let u = c as u32;
    u == 0x20 || u == 0x09 || u == 0x0A || u == 0x0D || u == 0x0B || u == 0x0C || u == 0x85
        || u == 0xA0 || u == 0x1680 || (0x2000 <= u && u <= 0x200A) || u == 0x2028 || u == 0x2029
        || u == 0x202F || u == 0x205F || u == 0x3000
}

/// The sequence with leading whitespace removed.
pub open spec fn trim_front(s: Seq<char>) -> Seq<char>
    decreases s.len(),
{
    if s.len() > 0 && is_wsp(s[0]) {
        trim_front(s.drop_first())
    } else {
        s
    }
}

/// The sequence with trailing whitespace removed.
pub open spec fn trim_back(s: Seq<char>) -> Seq<char>
    decreases s.len(),
{
    if s.len() > 0 && is_wsp(s[s.len() - 1]) {
        trim_back(s.drop_last())
    } else {
        s
    }
}

/// The sequence with whitespace removed from both ends, as `str::trim`
/// leaves it.
pub open spec fn trim_spec(s: Seq<char>) -> Seq<char> {
    trim_back(trim_front(s))
}

pub proof fn lemma_trim_front_index(s: Seq<char>, i: int)
    requires
        0 <= i <= s.len(),
        forall|k: int| 0 <= k < i ==> is_wsp(s[k]),
        i < s.len() ==> !is_wsp(s[i]),
    ensures
        trim_front(s) == s.subrange(i, s.len() as int),
    decreases i,
{
    if i == 0 {
        assert(trim_front(s) =~= s.subrange(0, s.len() as int));
    } else {
        lemma_trim_front_index(s.drop_first(), i - 1);
        assert(s.drop_first().subrange(i - 1, s.drop_first().len() as int) =~= s.subrange(
            i,
            s.len() as int,
        ));
    }
}

proof fn lemma_trim_back_index(s: Seq<char>, j: int)
    requires
        0 <= j <= s.len(),
        forall|k: int| j <= k < s.len() ==> is_wsp(s[k]),
        j > 0 ==> !is_wsp(s[j - 1]),
    ensures
        trim_back(s) == s.subrange(0, j),
    decreases s.len(),
{
    if j == s.len() {
        assert(trim_back(s) =~= s.subrange(0, j));
    } else {
        lemma_trim_back_index(s.drop_last(), j);
        assert(s.drop_last().subrange(0, j) =~= s.subrange(0, j));
    }
}

/// Trim whitespace from both ends of a character sequence.
pub fn trim_chars(v: &Vec<char>) -> (r: Vec<char>)
    ensures
        r@ == trim_spec(v@),
{
    let n = v.len();
    let mut i: usize = 0;
    while i < n && is_wsp_char(v[i])
        invariant
            0 <= i <= n,
            n == v.len(),
            forall|k: int| 0 <= k < i ==> is_wsp(v@[k]),
        decreases n - i,
    {
        i = i + 1;
    }
    let mut j: usize = n;
    while j > i && is_wsp_char(v[j - 1])
        invariant
            i <= j <= n,
            n == v.len(),
            forall|k: int| j <= k < n ==> is_wsp(v@[k]),
        decreases j,
    {
        j = j - 1;
    }
    let mut r: Vec<char> = Vec::new();
    let mut k: usize = i;
    while k < j
        invariant
            i <= k <= j <= n,
            n == v.len(),
            r@ == v@.subrange(i as int, k as int),
        decreases j - k,
    {
        r.push(v[k]);
        assert(r@ =~= v@.subrange(i as int, k + 1 as int));
        k = k + 1;
    }
    proof {
        lemma_trim_front_index(v@, i as int);
        let t = v@.subrange(i as int, v@.len() as int);
        if j == i {
            lemma_trim_back_index(t, 0);
        } else {
            lemma_trim_back_index(t, j - i);
        }
        assert(t.subrange(0, j - i) =~= v@.subrange(i as int, j as int));
    }
    r
}

/// Splitting a character sequence at every occurrence of `c`, as
/// `str::split` does: the result always has at least one part, and
/// separators at the ends produce empty parts.
pub open spec fn split_ch(s: Seq<char>, c: char) -> Seq<Seq<char>>
    decreases s.len(),
{
    if s.len() == 0 {
        seq![s]
    } else {
        let rest = split_ch(s.drop_first(), c);
        if s[0] == c {
            seq![Seq::<char>::empty()] + rest
        } else {
            seq![seq![s[0]] + rest[0]] + rest.drop_first()
        }
    }
}

/// Joining parts with a single separator character, as `[...].join` does.
pub open spec fn join_ch(parts: Seq<Seq<char>>, c: char) -> Seq<char>
    decreases parts.len(),
{
    if parts.len() == 0 {
        Seq::empty()
    } else if parts.len() == 1 {
        parts[0]
    } else {
        parts[0] + seq![c] + join_ch(parts.drop_first(), c)
    }
}

pub broadcast proof fn lemma_split_ch_len(s: Seq<char>, c: char)
    ensures
        (#[trigger] split_ch(s, c)).len() >= 1,
    decreases s.len(),
{
    if s.len() > 0 {
        lemma_split_ch_len(s.drop_first(), c);
    }
}

/// A sequence free of the separator splits into itself alone.
pub proof fn lemma_split_ch_no_sep(s: Seq<char>, c: char)
    requires
        forall|k: int| 0 <= k < s.len() ==> s[k] != c,
    ensures
        split_ch(s, c) == seq![s],
    decreases s.len(),
{
    if s.len() == 0 {
        assert(split_ch(s, c) =~= seq![s]);
    } else {
        lemma_split_ch_no_sep(s.drop_first(), c);
        assert(split_ch(s, c)[0] =~= s);
        assert(split_ch(s, c) =~= seq![s]);
    }
}

/// Splitting distributes over a separator between two halves.
pub proof fn lemma_split_ch_append(x: Seq<char>, y: Seq<char>, c: char)
    ensures
        split_ch(x + seq![c] + y, c) == split_ch(x, c) + split_ch(y, c),
    decreases x.len(),
{
    lemma_split_ch_len(y, c);
    let s = x + seq![c] + y;
    if x.len() == 0 {
        assert(s =~= seq![c] + y);
        assert(s[0] == c);
        assert(s.drop_first() =~= y);
        assert(split_ch(s, c) =~= seq![Seq::<char>::empty()] + split_ch(y, c));
        assert(x =~= Seq::<char>::empty());
        assert(split_ch(x, c) =~~= seq![Seq::<char>::empty()]);
    } else {
        lemma_split_ch_append(x.drop_first(), y, c);
        lemma_split_ch_len(x.drop_first(), c);
        assert(s.drop_first() =~= x.drop_first() + seq![c] + y);
        if x[0] == c {
            assert(s[0] == c);
            assert(split_ch(s, c) =~= seq![Seq::<char>::empty()] + split_ch(s.drop_first(), c));
            assert(split_ch(x, c) =~= seq![Seq::<char>::empty()] + split_ch(x.drop_first(), c));
            assert(split_ch(s, c) =~= split_ch(x, c) + split_ch(y, c));
        } else {
            let rest = split_ch(s.drop_first(), c);
            let xrest = split_ch(x.drop_first(), c);
            assert(rest =~= xrest + split_ch(y, c));
            assert(rest[0] == xrest[0]);
            assert(split_ch(s, c)[0] =~= split_ch(x, c)[0]);
            assert(split_ch(s, c).drop_first() =~= rest.drop_first());
            assert(split_ch(x, c).drop_first() =~= xrest.drop_first());
            assert(rest.drop_first() =~= xrest.drop_first() + split_ch(y, c));
            assert(split_ch(s, c) =~= split_ch(x, c) + split_ch(y, c));
        }
    }
}

/// Appending one character extends the last part, or opens a new empty
/// part when the character is the separator.
pub proof fn lemma_split_ch_push(s: Seq<char>, a: char, c: char)
    ensures
        a == c ==> split_ch(s + seq![a], c) == split_ch(s, c) + seq![Seq::<char>::empty()],
        a != c ==> split_ch(s + seq![a], c) == split_ch(s, c).drop_last() + seq![
            split_ch(s, c).last() + seq![a],
        ],
    decreases s.len(),
{
    lemma_split_ch_len(s, c);
    if a == c {
        lemma_split_ch_append(s, Seq::empty(), c);
        assert(s + seq![c] + Seq::<char>::empty() =~= s + seq![a]);
        assert(split_ch(Seq::<char>::empty(), c) =~= seq![Seq::<char>::empty()]);
    } else {
        let t = s + seq![a];
        if s.len() == 0 {
            assert(t =~= seq![a]);
            assert(t.drop_first() =~= Seq::<char>::empty());
            assert(split_ch(Seq::<char>::empty(), c) =~~= seq![Seq::<char>::empty()]);
            assert(split_ch(t, c)[0] =~= seq![a]);
            assert(split_ch(t, c) =~~= seq![seq![a]]);
            assert(split_ch(s, c).last() + seq![a] =~= seq![a]);
            assert(split_ch(s, c).drop_last() + seq![split_ch(s, c).last() + seq![a]] =~= seq![
                seq![a],
            ]);
        } else {
            lemma_split_ch_push(s.drop_first(), a, c);
            lemma_split_ch_len(s.drop_first(), c);
            assert(t.drop_first() =~= s.drop_first() + seq![a]);
            let rest = split_ch(s.drop_first(), c);
            let trest = split_ch(t.drop_first(), c);
            assert(trest =~= rest.drop_last() + seq![rest.last() + seq![a]]);
            if s[0] == c {
                assert(split_ch(s, c) =~= seq![Seq::<char>::empty()] + rest);
                assert(split_ch(t, c) =~= seq![Seq::<char>::empty()] + trest);
                assert(split_ch(s, c).last() == rest.last());
                assert(split_ch(t, c) =~= split_ch(s, c).drop_last() + seq![
                    split_ch(s, c).last() + seq![a],
                ]);
            } else {
                assert(split_ch(s, c) =~= seq![seq![s[0]] + rest[0]] + rest.drop_first());
                assert(split_ch(t, c) =~= seq![seq![t[0]] + trest[0]] + trest.drop_first());
                if rest.len() == 1 {
                    assert(trest =~~= seq![rest[0] + seq![a]]);
                    assert(split_ch(t, c) =~~= seq![seq![s[0]] + rest[0] + seq![a]]);
                    assert(split_ch(s, c).last() =~= seq![s[0]] + rest[0]);
                    assert(split_ch(t, c) =~~= split_ch(s, c).drop_last() + seq![
                        split_ch(s, c).last() + seq![a],
                    ]);
                } else {
                    assert(trest[0] == rest[0]);
                    assert(split_ch(t, c)[0] =~= split_ch(s, c)[0]);
                    assert(trest.drop_first() =~= rest.drop_first().drop_last() + seq![
                        rest.last() + seq![a],
                    ]);
                    assert(split_ch(s, c).last() == rest.last());
                    assert(split_ch(t, c) =~= split_ch(s, c).drop_last() + seq![
                        split_ch(s, c).last() + seq![a],
                    ]);
                }
            }
        }
    }
}

/// The view sequence of a vector of character vectors.
pub open spec fn views(v: Seq<Vec<char>>) -> Seq<Seq<char>> {
    Seq::new(v.len(), |i: int| v[i]@)
}

/// Split a character vector at every occurrence of `c`.
pub fn split_chars(v: &Vec<char>, c: char) -> (r: Vec<Vec<char>>)
    ensures
        views(r@) == split_ch(v@, c),
{
    let mut out: Vec<Vec<char>> = Vec::new();
    let mut cur: Vec<char> = Vec::new();
    let n = v.len();
    let mut i: usize = 0;
    proof {
        assert(v@.subrange(0, 0) =~= Seq::<char>::empty());
        assert(split_ch(Seq::<char>::empty(), c) =~= seq![Seq::<char>::empty()]);
        assert(views(out@) + seq![cur@] =~= split_ch(v@.subrange(0, 0), c));
    }
    while i < n
        invariant
            0 <= i <= n,
            n == v.len(),
            views(out@) + seq![cur@] == split_ch(v@.subrange(0, i as int), c),
        decreases n - i,
    {
        let ch = v[i];
        proof {
            lemma_split_ch_push(v@.subrange(0, i as int), v@[i as int], c);
            assert(v@.subrange(0, i as int) + seq![v@[i as int]] =~= v@.subrange(0, i + 1 as int));
            lemma_split_ch_len(v@.subrange(0, i as int), c);
        }
        if ch == c {
            out.push(cur);
            cur = Vec::new();
            proof {
                assert(views(out@) + seq![cur@] =~= split_ch(v@.subrange(0, i + 1 as int), c));
            }
        } else {
            cur.push(ch);
            proof {
                let prev = split_ch(v@.subrange(0, i as int), c);
                assert(prev.last() + seq![v@[i as int]] == cur@);
                assert(views(out@) + seq![cur@] =~= prev.drop_last() + seq![
                    prev.last() + seq![v@[i as int]],
                ]);
            }
        }
        i = i + 1;
    }
    proof {
        assert(v@.subrange(0, n as int) =~= v@);
    }
    out.push(cur);
    proof {
        assert(views(out@) =~= views(out@.drop_last()) + seq![cur@]);
    }
    out
}

/// Joining after appending one more part.
pub proof fn lemma_join_ch_push(parts: Seq<Seq<char>>, p: Seq<char>, c: char)
    ensures
        parts.len() == 0 ==> join_ch(parts + seq![p], c) == p,
        parts.len() > 0 ==> join_ch(parts + seq![p], c) == join_ch(parts, c) + seq![c] + p,
    decreases parts.len(),
{
    let w = parts + seq![p];
    if parts.len() == 0 {
        assert(w =~= seq![p]);
    } else if parts.len() == 1 {
        assert(w.drop_first() =~= seq![p]);
        assert(join_ch(w, c) == w[0] + seq![c] + join_ch(w.drop_first(), c));
    } else {
        lemma_join_ch_push(parts.drop_first(), p, c);
        assert(w.drop_first() =~= parts.drop_first() + seq![p]);
        assert(join_ch(w, c) =~= join_ch(parts, c) + seq![c] + p);
    }
}

/// Join character vectors with a single separator character.
pub fn join_chars(parts: &Vec<Vec<char>>, c: char) -> (r: Vec<char>)
    ensures
        r@ == join_ch(views(parts@), c),
{
    let mut r: Vec<char> = Vec::new();
    let n = parts.len();
    let mut i: usize = 0;
    proof {
        assert(views(parts@).subrange(0, 0) =~= Seq::<Seq<char>>::empty());
    }
    while i < n
        invariant
            0 <= i <= n,
            n == parts.len(),
            r@ == join_ch(views(parts@).subrange(0, i as int), c),
        decreases n - i,
    {
        if i > 0 {
            r.push(c);
        }
        let mut k: usize = 0;
        let m = parts[i].len();
        while k < m
            invariant
                0 <= k <= m,
                n == parts.len(),
                0 <= i < n,
                m == parts@[i as int]@.len(),
                i > 0 ==> r@ == join_ch(views(parts@).subrange(0, i as int), c) + seq![c]
                    + parts@[i as int]@.subrange(0, k as int),
                i == 0 ==> r@ == parts@[i as int]@.subrange(0, k as int),
            decreases m - k,
        {
            r.push(parts[i][k]);
            proof {
                assert(parts@[i as int]@.subrange(0, k as int) + seq![parts@[i as int]@[k as int]]
                    =~= parts@[i as int]@.subrange(0, k + 1 as int));
            }
            k = k + 1;
        }
        proof {
            lemma_join_ch_push(views(parts@).subrange(0, i as int), parts@[i as int]@, c);
            assert(views(parts@).subrange(0, i as int) + seq![parts@[i as int]@] =~= views(
                parts@,
            ).subrange(0, i + 1 as int));
            assert(parts@[i as int]@.subrange(0, m as int) =~= parts@[i as int]@);
        }
        i = i + 1;
    }
    proof {
        assert(views(parts@).subrange(0, n as int) =~= views(parts@));
    }
    r
}

/// The decimal digit character for `d`.
pub open spec fn digit_char(d: int) -> char {
    if d == 0 {
        '0'
    } else if d == 1 {
        '1'
    } else if d == 2 {
        '2'
    } else if d == 3 {
        '3'
    } else if d == 4 {
        '4'
    } else if d == 5 {
        '5'
    } else if d == 6 {
        '6'
    } else if d == 7 {
        '7'
    } else if d == 8 {
        '8'
    } else {
        '9'
    }
}

/// The decimal digit sequence of a non-negative integer, most significant
/// digit first, without leading zeros (except for zero itself).
pub open spec fn dec_digits(n: int) -> Seq<char>
    decreases n,
{
    if n < 10 {
        seq![digit_char(n)]
    } else {
        dec_digits(n / 10) + seq![digit_char(n % 10)]
    }
}

fn digit_of(d: u64) -> (c: char)
    requires
        d < 10,
    ensures
        c == digit_char(d as int),
{
    if d == 0 {
        '0'
    } else if d == 1 {
        '1'
    } else if d == 2 {
        '2'
    } else if d == 3 {
        '3'
    } else if d == 4 {
        '4'
    } else if d == 5 {
        '5'
    } else if d == 6 {
        '6'
    } else if d == 7 {
        '7'
    } else if d == 8 {
        '8'
    } else {
        '9'
    }
}

/// Append the decimal digits of `n` to `out`.
pub fn push_dec(out: &mut Vec<char>, n: u64)
    ensures
        final(out)@ == old(out)@ + dec_digits(n as int),
    decreases n,
{
    if n < 10 {
        out.push(digit_of(n));
    } else {
        assert(n / 10 < n && n / 10 >= 1) by (nonlinear_arith)
            requires
                n >= 10,
        ;
        push_dec(out, n / 10);
        out.push(digit_of(n % 10));
        proof {
            assert(old(out)@ + dec_digits(n as int / 10) + seq![digit_char(n as int % 10)]
                =~= old(out)@ + dec_digits(n as int));
        }
    }
}

/// The decimal digits of `n` as a character vector.
pub fn dec_chars(n: u64) -> (r: Vec<char>)
    ensures
        r@ == dec_digits(n as int),
{
    let mut r: Vec<char> = Vec::new();
    push_dec(&mut r, n);
    proof {
        assert(r@ =~= dec_digits(n as int));
    }
    r
}

/// Relies on `String::push`: appends exactly the one character to the
/// string's end.
#[verifier::external_body]
pub fn push_char(s: &mut String, c: char)
    ensures
        final(s)@ == old(s)@.push(c),
{
    s.push(c)
}

/// The characters of a string slice, as a vector.
pub fn str_chars(s: &str) -> (r: Vec<char>)
    ensures
        r@ == s@,
{
    let n = s.unicode_len();
    let mut r: Vec<char> = Vec::new();
    let mut i: usize = 0;
    while i < n
        invariant
            0 <= i <= n,
            n == s@.len(),
            r@ == s@.subrange(0, i as int),
        decreases n - i,
    {
        r.push(s.get_char(i));
        proof {
            assert(r@ =~= s@.subrange(0, i + 1 as int));
        }
        i = i + 1;
    }
    proof {
        assert(s@.subrange(0, n as int) =~= s@);
    }
    r
}

/// A `String` holding exactly the given characters.
pub fn chars_string(v: &Vec<char>) -> (r: String)
    ensures
        r@ == v@,
{
    let mut r = String::new();
    let n = v.len();
    let mut i: usize = 0;
    while i < n
        invariant
            0 <= i <= n,
            n == v.len(),
            r@ == v@.subrange(0, i as int),
        decreases n - i,
    {
        push_char(&mut r, v[i]);
        proof {
            assert(r@ =~= v@.subrange(0, i + 1 as int));
        }
        i = i + 1;
    }
    proof {
        assert(v@.subrange(0, n as int) =~= v@);
    }
    r
}

/// Character-vector equality decides view equality.
pub fn chars_eq(a: &Vec<char>, b: &Vec<char>) -> (r: bool)
    ensures
        r == (a@ == b@),
{
    if a.len() != b.len() {
        return false;
    }
    let n = a.len();
    let mut i: usize = 0;
    while i < n
        invariant
            0 <= i <= n,
            n == a.len() == b.len(),
            forall|k: int| 0 <= k < i ==> a@[k] == b@[k],
        decreases n - i,
    {
        if a[i] != b[i] {
            return false;
        }
        i = i + 1;
    }
    proof {
        assert(a@ =~= b@);
    }
    true
}

/// String equality decides view equality.
pub fn str_eq(a: &str, b: &str) -> (r: bool)
    ensures
        r == (a@ == b@),
{
    let av = str_chars(a);
    let bv = str_chars(b);
    chars_eq(&av, &bv)
}

/// What `str::to_lowercase` returns for a given character sequence: the
/// result depends on the characters alone.
pub uninterp spec fn lower_of(s: Seq<char>) -> Seq<char>;

/// Relies on `str::to_lowercase`: Unicode lowercasing, a function of the
/// input characters alone.
#[verifier::external_body]
pub fn lowercase(s: &str) -> (r: String)
    ensures
        r@ == lower_of(s@),
{
    s.to_lowercase()
}

/// The sequence with leading copies of `c` removed.
pub open spec fn trim_front_c(s: Seq<char>, c: char) -> Seq<char>
    decreases s.len(),
{
    if s.len() > 0 && s[0] == c {
        trim_front_c(s.drop_first(), c)
    } else {
        s
    }
}

/// The sequence with trailing copies of `c` removed.
pub open spec fn trim_back_c(s: Seq<char>, c: char) -> Seq<char>
    decreases s.len(),
{
    if s.len() > 0 && s[s.len() - 1] == c {
        trim_back_c(s.drop_last(), c)
    } else {
        s
    }
}

proof fn lemma_trim_front_c_index(s: Seq<char>, c: char, i: int)
    requires
        0 <= i <= s.len(),
        forall|k: int| 0 <= k < i ==> s[k] == c,
        i < s.len() ==> s[i] != c,
    ensures
        trim_front_c(s, c) == s.subrange(i, s.len() as int),
    decreases i,
{
    if i == 0 {
        assert(trim_front_c(s, c) =~= s.subrange(0, s.len() as int));
    } else {
        lemma_trim_front_c_index(s.drop_first(), c, i - 1);
        assert(s.drop_first().subrange(i - 1, s.drop_first().len() as int) =~= s.subrange(
            i,
            s.len() as int,
        ));
    }
}

proof fn lemma_trim_back_c_index(s: Seq<char>, c: char, j: int)
    requires
        0 <= j <= s.len(),
        forall|k: int| j <= k < s.len() ==> s[k] == c,
        j > 0 ==> s[j - 1] != c,
    ensures
        trim_back_c(s, c) == s.subrange(0, j),
    decreases s.len(),
{
    if j == s.len() {
        assert(trim_back_c(s, c) =~= s.subrange(0, j));
    } else {
        lemma_trim_back_c_index(s.drop_last(), c, j);
        assert(s.drop_last().subrange(0, j) =~= s.subrange(0, j));
    }
}

/// Trim copies of one character from both ends, as `str::trim_matches`
/// does for a single-character pattern.
pub fn trim_char(v: &Vec<char>, c: char) -> (r: Vec<char>)
    ensures
        r@ == trim_back_c(trim_front_c(v@, c), c),
{
    let n = v.len();
    let mut i: usize = 0;
    while i < n && v[i] == c
        invariant
            0 <= i <= n,
            n == v.len(),
            forall|k: int| 0 <= k < i ==> v@[k] == c,
        decreases n - i,
    {
        i = i + 1;
    }
    let mut j: usize = n;
    while j > i && v[j - 1] == c
        invariant
            i <= j <= n,
            n == v.len(),
            forall|k: int| j <= k < n ==> v@[k] == c,
        decreases j,
    {
        j = j - 1;
    }
    let mut r: Vec<char> = Vec::new();
    let mut k: usize = i;
    while k < j
        invariant
            i <= k <= j <= n,
            n == v.len(),
            r@ == v@.subrange(i as int, k as int),
        decreases j - k,
    {
        r.push(v[k]);
        assert(r@ =~= v@.subrange(i as int, k + 1 as int));
        k = k + 1;
    }
    proof {
        lemma_trim_front_c_index(v@, c, i as int);
        let t = v@.subrange(i as int, v@.len() as int);
        if j == i {
            lemma_trim_back_c_index(t, c, 0);
        } else {
            lemma_trim_back_c_index(t, c, j - i);
        }
        assert(t.subrange(0, j - i) =~= v@.subrange(i as int, j as int));
    }
    r
}

/// A lower-case ASCII letter or an ASCII digit: the characters a slug may
/// keep.
pub open spec fn is_slug_alnum(c: char) -> bool {
    (97 <= c as u32 && c as u32 <= 122) || (48 <= c as u32 && c as u32 <= 57)
}

/// Executable test for [`is_slug_alnum`].
pub fn is_slug_alnum_char(c: char) -> (r: bool)
    ensures
        r == is_slug_alnum(c),
{
    let u = c as u32;
    (97 <= u && u <= 122) || (48 <= u && u <= 57)
}

/// Every character is whitespace.
pub open spec fn all_wsp(s: Seq<char>) -> bool {
    forall|k: int| 0 <= k < s.len() ==> is_wsp(s[k])
}

/// Front and back trimming never lengthen a sequence.
pub proof fn lemma_trim_len(s: Seq<char>)
    ensures
        trim_front(s).len() <= s.len(),
        trim_back(s).len() <= s.len(),
    decreases s.len(),
{
    if s.len() > 0 {
        lemma_trim_len(s.drop_first());
        lemma_trim_len(s.drop_last());
    }
}

/// A sequence equal to its own trim neither starts nor ends with
/// whitespace.
pub proof fn lemma_self_trimmed_ends(s: Seq<char>)
    requires
        trim_spec(s) == s,
        s.len() > 0,
    ensures
        !is_wsp(s[0]),
        !is_wsp(s[s.len() - 1]),
{
    if is_wsp(s[0]) {
        lemma_trim_len(s.drop_first());
        lemma_trim_len(trim_front(s.drop_first()));
        assert(trim_front(s) == trim_front(s.drop_first()));
        assert(trim_spec(s).len() <= s.len() - 1);
    }
    assert(trim_front(s) == s);
    if is_wsp(s[s.len() - 1]) {
        lemma_trim_len(s.drop_last());
        assert(trim_back(s) == trim_back(s.drop_last()));
        assert(trim_spec(s).len() <= s.len() - 1);
    }
}

/// A sequence that neither starts nor ends with whitespace is its own
/// trim.
pub proof fn lemma_trim_noop(s: Seq<char>)
    requires
        s.len() == 0 || (!is_wsp(s[0]) && !is_wsp(s[s.len() - 1])),
    ensures
        trim_spec(s) == s,
{
    assert(trim_front(s) == s);
    assert(trim_back(s) == s);
}

/// How front trimming acts on a concatenation.
pub proof fn lemma_trim_front_concat(a: Seq<char>, b: Seq<char>)
    ensures
        all_wsp(a) ==> trim_front(a + b) == trim_front(b),
        !all_wsp(a) ==> trim_front(a + b) == trim_front(a) + b,
    decreases a.len(),
{
    if a.len() == 0 {
        assert(a + b =~= b);
    } else if is_wsp(a[0]) {
        lemma_trim_front_concat(a.drop_first(), b);
        assert((a + b).drop_first() =~= a.drop_first() + b);
        if all_wsp(a) {
            assert(all_wsp(a.drop_first()));
        } else {
            assert(!all_wsp(a.drop_first())) by {
                let k = choose|k: int| 0 <= k < a.len() && !is_wsp(a[k]);
                assert(a.drop_first()[k - 1] == a[k]);
            }
            assert(trim_front(a + b) == trim_front(a.drop_first()) + b);
            assert(trim_front(a) == trim_front(a.drop_first()));
        }
    } else {
        assert(trim_front(a + b) =~= a + b);
        assert(trim_front(a) == a);
        assert(!all_wsp(a));
    }
}

/// How back trimming acts on a concatenation.
pub proof fn lemma_trim_back_concat(a: Seq<char>, b: Seq<char>)
    ensures
        all_wsp(b) ==> trim_back(a + b) == trim_back(a),
        !all_wsp(b) ==> trim_back(a + b) == a + trim_back(b),
    decreases b.len(),
{
    if b.len() == 0 {
        assert(a + b =~= a);
    } else if is_wsp(b[b.len() - 1]) {
        lemma_trim_back_concat(a, b.drop_last());
        assert((a + b).drop_last() =~= a + b.drop_last());
        assert((a + b)[(a + b).len() - 1] == b[b.len() - 1]);
        if all_wsp(b) {
            assert(all_wsp(b.drop_last()));
        } else {
            assert(!all_wsp(b.drop_last())) by {
                let k = choose|k: int| 0 <= k < b.len() && !is_wsp(b[k]);
                assert(b.drop_last()[k] == b[k]);
            }
            assert(trim_back(a + b) == a + trim_back(b.drop_last()));
            assert(trim_back(b) == trim_back(b.drop_last()));
        }
    } else {
        assert(trim_back(a + b) =~= a + b);
        assert(trim_back(b) == b);
        assert(!all_wsp(b));
    }
}

/// Trimming ignores a whitespace character attached to either end.
pub proof fn lemma_trim_spec_pad(s: Seq<char>, c: char)
    requires
        is_wsp(c),
    ensures
        trim_spec(seq![c] + s) == trim_spec(s),
        trim_spec(s + seq![c]) == trim_spec(s),
{
    assert((seq![c] + s).drop_first() =~= s);
    assert((seq![c] + s)[0] == c);
    assert(trim_front(seq![c] + s) == trim_front(s));
    lemma_trim_front_concat(s, seq![c]);
    if all_wsp(s) {
        assert(trim_front(s + seq![c]) == trim_front(seq![c]));
        assert(seq![c].drop_first() =~= Seq::<char>::empty());
        assert(trim_front(Seq::<char>::empty()) =~= Seq::<char>::empty());
        assert(trim_front(seq![c]).len() == 0);
        lemma_trim_len(s);
        assert(all_wsp(trim_front(s))) by {
            lemma_trim_front_is_suffix(s);
        }
        lemma_trim_back_all_wsp(trim_front(s));
        assert(trim_back(Seq::<char>::empty()) =~= Seq::<char>::empty());
        assert(trim_spec(s + seq![c]) =~= Seq::<char>::empty());
        assert(trim_spec(s) =~= Seq::<char>::empty());
    } else {
        assert(trim_front(s + seq![c]) == trim_front(s) + seq![c]);
        lemma_trim_back_concat(trim_front(s), seq![c]);
        assert(all_wsp(seq![c]));
        assert(trim_back(trim_front(s) + seq![c]) == trim_back(trim_front(s)));
    }
}

/// The front trim is a suffix: its characters come from the input.
proof fn lemma_trim_front_is_suffix(s: Seq<char>)
    ensures
        forall|k: int|
            0 <= k < trim_front(s).len() ==> trim_front(s)[k] == s[s.len() - trim_front(s).len()
                + k],
        trim_front(s).len() <= s.len(),
    decreases s.len(),
{
    if s.len() > 0 && is_wsp(s[0]) {
        lemma_trim_front_is_suffix(s.drop_first());
    }
}

/// Back-trimming an all-whitespace sequence leaves nothing.
proof fn lemma_trim_back_all_wsp(s: Seq<char>)
    requires
        all_wsp(s),
    ensures
        trim_back(s).len() == 0,
    decreases s.len(),
{
    if s.len() > 0 {
        lemma_trim_back_all_wsp(s.drop_last());
    }
}

/// Joining distributes over list concatenation.
pub proof fn lemma_join_ch_concat(a: Seq<Seq<char>>, b: Seq<Seq<char>>, c: char)
    requires
        a.len() > 0,
        b.len() > 0,
    ensures
        join_ch(a + b, c) == join_ch(a, c) + seq![c] + join_ch(b, c),
    decreases a.len(),
{
    if a.len() == 1 {
        assert((a + b).drop_first() =~= b);
        assert((a + b)[0] == a[0]);
        assert(join_ch(a + b, c) == a[0] + seq![c] + join_ch(b, c));
    } else {
        lemma_join_ch_concat(a.drop_first(), b, c);
        assert((a + b).drop_first() =~= a.drop_first() + b);
        assert(join_ch(a + b, c) =~= join_ch(a, c) + seq![c] + join_ch(b, c));
    }
}

/// Joining the parts of a split restores the sequence that was split.
pub proof fn lemma_join_split(s: Seq<char>, c: char)
    ensures
        join_ch(split_ch(s, c), c) == s,
    decreases s.len(),
{
    lemma_split_ch_len(s, c);
    if s.len() == 0 {
    } else {
        lemma_join_split(s.drop_first(), c);
        let rest = split_ch(s.drop_first(), c);
        lemma_split_ch_len(s.drop_first(), c);
        if s[0] == c {
            if rest.len() == 0 {
            } else {
                assert((seq![Seq::<char>::empty()] + rest).drop_first() =~= rest);
                assert(join_ch(split_ch(s, c), c) =~= Seq::<char>::empty() + seq![c] + join_ch(
                    rest,
                    c,
                ));
                assert(Seq::<char>::empty() + seq![c] + join_ch(rest, c) =~= seq![c]
                    + s.drop_first());
                assert(seq![c] + s.drop_first() =~= s);
            }
        } else {
            let head = seq![seq![s[0]] + rest[0]];
            if rest.len() == 1 {
                assert(split_ch(s, c) =~= head);
                assert(join_ch(rest, c) == rest[0]);
                assert(join_ch(split_ch(s, c), c) == seq![s[0]] + rest[0]);
                assert(seq![s[0]] + rest[0] =~= seq![s[0]] + join_ch(rest, c));
                assert(seq![s[0]] + s.drop_first() =~= s);
            } else {
                assert(split_ch(s, c) =~= head + rest.drop_first());
                lemma_join_ch_concat(head, rest.drop_first(), c);
                assert(join_ch(split_ch(s, c), c) == (seq![s[0]] + rest[0]) + seq![c] + join_ch(
                    rest.drop_first(),
                    c,
                ));
                assert(join_ch(rest, c) == rest[0] + seq![c] + join_ch(rest.drop_first(), c));
                assert((seq![s[0]] + rest[0]) + seq![c] + join_ch(rest.drop_first(), c) =~= seq![
                    s[0],
                ] + join_ch(rest, c));
                assert(seq![s[0]] + s.drop_first() =~= s);
            }
        }
    }
}

/// Lexicographic order on character sequences by Unicode scalar value,
/// the order `str` comparison induces.
pub open spec fn lex_le(a: Seq<char>, b: Seq<char>) -> bool
    decreases a.len(),
{
    if a.len() == 0 {
        true
    } else if b.len() == 0 {
        false
    } else if (a[0] as u32) < (b[0] as u32) {
        true
    } else if (a[0] as u32) > (b[0] as u32) {
        false
    } else {
        lex_le(a.drop_first(), b.drop_first())
    }
}

/// The order is total.
pub proof fn lemma_lex_le_total(a: Seq<char>, b: Seq<char>)
    ensures
        lex_le(a, b) || lex_le(b, a),
    decreases a.len(),
{
    if a.len() > 0 && b.len() > 0 && a[0] as u32 == b[0] as u32 {
        lemma_lex_le_total(a.drop_first(), b.drop_first());
    }
}

/// The order is transitive.
pub proof fn lemma_lex_le_trans(a: Seq<char>, b: Seq<char>, c: Seq<char>)
    requires
        lex_le(a, b),
        lex_le(b, c),
    ensures
        lex_le(a, c),
    decreases a.len(),
{
    if a.len() > 0 && b.len() > 0 && c.len() > 0 && a[0] as u32 == b[0] as u32 && b[0] as u32 == c[
        0] as u32 {
        lemma_lex_le_trans(a.drop_first(), b.drop_first(), c.drop_first());
    }
}

/// Decide the lexicographic order on two character vectors.
pub fn chars_le(a: &Vec<char>, b: &Vec<char>) -> (r: bool)
    ensures
        r == lex_le(a@, b@),
{
    let an = a.len();
    let bn = b.len();
    let mut i: usize = 0;
    proof {
        assert(a@.subrange(0, an as int) =~= a@);
        assert(b@.subrange(0, bn as int) =~= b@);
    }
    while i < an && i < bn
        invariant
            0 <= i <= an,
            i <= bn,
            an == a.len(),
            bn == b.len(),
            lex_le(a@, b@) == lex_le(
                a@.subrange(i as int, an as int),
                b@.subrange(i as int, bn as int),
            ),
        decreases an - i,
    {
        proof {
            assert(a@.subrange(i as int, an as int).drop_first() =~= a@.subrange(
                i + 1,
                an as int,
            ));
            assert(b@.subrange(i as int, bn as int).drop_first() =~= b@.subrange(
                i + 1,
                bn as int,
            ));
        }
        let x = a[i] as u32;
        let y = b[i] as u32;
        if x < y {
            return true;
        }
        if x > y {
            return false;
        }
        i = i + 1;
    }
    proof {
        if i >= an {
            assert(a@.subrange(i as int, an as int) =~= Seq::<char>::empty());
        } else {
            assert(b@.subrange(i as int, bn as int) =~= Seq::<char>::empty());
            assert(a@.subrange(i as int, an as int).len() > 0);
        }
    }
    an <= bn
}

} // verus!

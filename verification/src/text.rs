//! Character-level text helpers: whitespace, first-occurrence search,
//! trimming, and lexicographic order on character sequences, each with an
//! executable form proved against its specification.

use vstd::prelude::*;

verus! {

/// The Unicode `White_Space` code points, the set that `str::trim` and
/// `char::is_whitespace` go by.
pub open spec fn is_ws(c: char) -> bool {
    let u = c as u32;
    (0x09 <= u && u <= 0x0D) || u == 0x20 || u == 0x85 || u == 0xA0 || u == 0x1680 || (0x2000
        <= u && u <= 0x200A) || u == 0x2028 || u == 0x2029 || u == 0x202F || u == 0x205F || u
        == 0x3000
}

/// Executable mirror of `is_ws`.
pub fn ws_char(c: char) -> (r: bool)
    ensures
        r == is_ws(c),
{
    let u = c as u32;
    (0x09 <= u && u <= 0x0D) || u == 0x20 || u == 0x85 || u == 0xA0 || u == 0x1680 || (0x2000
        <= u && u <= 0x200A) || u == 0x2028 || u == 0x2029 || u == 0x202F || u == 0x205F || u
        == 0x3000
}

/// Index of the first occurrence of `c` in `s`, or `s.len()` if `c` does
/// not occur.
pub open spec fn index_of(s: Seq<char>, c: char) -> int
    decreases s.len(),
{
    if s.len() == 0 {
        0
    } else if s[0] == c {
        0
    } else {
        1 + index_of(s.subrange(1, s.len() as int), c)
    }
}

pub proof fn lemma_index_of(s: Seq<char>, c: char)
    ensures
        0 <= index_of(s, c) <= s.len(),
        index_of(s, c) < s.len() ==> s[index_of(s, c)] == c,
        forall|j: int| 0 <= j < index_of(s, c) ==> s[j] != c,
    decreases s.len(),
{
    if s.len() == 0 {
    } else if s[0] == c {
    } else {
        let t = s.subrange(1, s.len() as int);
        lemma_index_of(t, c);
        assert forall|j: int| 0 <= j < index_of(s, c) implies s[j] != c by {
            if j >= 1 {
                assert(s[j] == t[j - 1]);
            }
        }
    }
}

/// `index_of` is the unique position with nothing equal to `c` before it
/// and `c` at it (unless it is the length).
pub proof fn lemma_index_of_is(s: Seq<char>, c: char, n: int)
    requires
        0 <= n <= s.len(),
        forall|j: int| 0 <= j < n ==> s[j] != c,
        n < s.len() ==> s[n] == c,
    ensures
        index_of(s, c) == n,
{
    lemma_index_of(s, c);
    let f = index_of(s, c);
    if f < n {
        assert(s[f] != c);
    }
    if f > n {
        assert(s[n] != c);
    }
}

/// Executable first-occurrence search, O(n) characters examined.
pub fn find_char(s: &str, c: char) -> (r: usize)
    ensures
        r as int == index_of(s@, c),
{
    let n = s.unicode_len();
    let mut i: usize = 0;
    while i < n
        invariant
            0 <= i <= n,
            n == s@.len(),
            forall|j: int| 0 <= j < i ==> s@[j] != c,
        decreases n - i,
    {
        if s.get_char(i) == c {
            proof {
                lemma_index_of_is(s@, c, i as int);
            }
            return i;
        }
        i = i + 1;
    }
    proof {
        lemma_index_of_is(s@, c, n as int);
    }
    n
}

/// Index of the first character that is not whitespace, or `s.len()` if
/// all of `s` is whitespace.
pub open spec fn ltrim_idx(s: Seq<char>) -> int
    decreases s.len(),
{
    if s.len() == 0 {
        0
    } else if !is_ws(s[0]) {
        0
    } else {
        1 + ltrim_idx(s.subrange(1, s.len() as int))
    }
}

/// One past the index of the last character that is not whitespace, or 0
/// if all of `s` is whitespace.
pub open spec fn rtrim_idx(s: Seq<char>) -> int
    decreases s.len(),
{
    if s.len() == 0 {
        0
    } else if !is_ws(s[s.len() - 1]) {
        s.len() as int
    } else {
        rtrim_idx(s.subrange(0, s.len() - 1))
    }
}

pub proof fn lemma_ltrim(s: Seq<char>)
    ensures
        0 <= ltrim_idx(s) <= s.len(),
        ltrim_idx(s) < s.len() ==> !is_ws(s[ltrim_idx(s)]),
        forall|j: int| 0 <= j < ltrim_idx(s) ==> is_ws(s[j]),
    decreases s.len(),
{
    if s.len() == 0 {
    } else if !is_ws(s[0]) {
    } else {
        let t = s.subrange(1, s.len() as int);
        lemma_ltrim(t);
        assert forall|j: int| 0 <= j < ltrim_idx(s) implies is_ws(s[j]) by {
            if j >= 1 {
                assert(s[j] == t[j - 1]);
            }
        }
    }
}

pub proof fn lemma_ltrim_is(s: Seq<char>, n: int)
    requires
        0 <= n <= s.len(),
        forall|j: int| 0 <= j < n ==> is_ws(s[j]),
        n < s.len() ==> !is_ws(s[n]),
    ensures
        ltrim_idx(s) == n,
{
    lemma_ltrim(s);
    let f = ltrim_idx(s);
    if f < n {
        assert(is_ws(s[f]));
    }
    if f > n {
        assert(is_ws(s[n]));
    }
}

pub proof fn lemma_rtrim(s: Seq<char>)
    ensures
        0 <= rtrim_idx(s) <= s.len(),
        rtrim_idx(s) > 0 ==> !is_ws(s[rtrim_idx(s) - 1]),
        forall|j: int| rtrim_idx(s) <= j < s.len() ==> is_ws(s[j]),
    decreases s.len(),
{
    if s.len() == 0 {
    } else if !is_ws(s[s.len() - 1]) {
    } else {
        let t = s.subrange(0, s.len() - 1);
        lemma_rtrim(t);
        assert forall|j: int| rtrim_idx(s) <= j < s.len() implies is_ws(s[j]) by {
            if j < s.len() - 1 {
                assert(s[j] == t[j]);
            }
        }
    }
}

pub proof fn lemma_rtrim_is(s: Seq<char>, n: int)
    requires
        0 <= n <= s.len(),
        forall|j: int| n <= j < s.len() ==> is_ws(s[j]),
        n > 0 ==> !is_ws(s[n - 1]),
    ensures
        rtrim_idx(s) == n,
{
    lemma_rtrim(s);
    let f = rtrim_idx(s);
    if f < n {
        assert(is_ws(s[n - 1]));
    }
    if f > n {
        assert(is_ws(s[f - 1]));
    }
}

/// `s` with leading and trailing whitespace removed, as `str::trim` has it.
pub open spec fn trim(s: Seq<char>) -> Seq<char> {
    if ltrim_idx(s) == s.len() {
        Seq::empty()
    } else {
        s.subrange(ltrim_idx(s), rtrim_idx(s))
    }
}

/// `trim(s)` is the subrange whose outside is all whitespace and whose
/// boundary characters are not.
pub proof fn lemma_trim_is(s: Seq<char>, a: int, b: int)
    requires
        0 <= a <= b <= s.len(),
        forall|j: int| 0 <= j < a ==> is_ws(s[j]),
        forall|j: int| b <= j < s.len() ==> is_ws(s[j]),
        a < b ==> !is_ws(s[a]) && !is_ws(s[b - 1]),
    ensures
        trim(s) == s.subrange(a, b),
{
    if a == b {
        assert forall|j: int| 0 <= j < s.len() implies is_ws(s[j]) by {
            if j >= a {
                assert(b <= j < s.len());
            }
        }
        lemma_ltrim_is(s, s.len() as int);
        assert(trim(s) =~= s.subrange(a, b));
    } else {
        lemma_ltrim_is(s, a);
        lemma_rtrim_is(s, b);
    }
}

/// `s` carries no whitespace at either end.
pub open spec fn is_trimmed(s: Seq<char>) -> bool {
    s.len() > 0 ==> !is_ws(s[0]) && !is_ws(s[s.len() - 1])
}

pub proof fn lemma_trim_id(s: Seq<char>)
    requires
        is_trimmed(s),
    ensures
        trim(s) == s,
{
    lemma_trim_is(s, 0, s.len() as int);
    assert(s.subrange(0, s.len() as int) =~= s);
}

/// Appending one whitespace character does not change the trimmed form.
pub proof fn lemma_trim_push_ws(s: Seq<char>, c: char)
    requires
        is_ws(c),
    ensures
        trim(s.push(c)) == trim(s),
{
    let t = s.push(c);
    lemma_ltrim(s);
    let a = ltrim_idx(s);
    if a == s.len() {
        lemma_ltrim_is(t, t.len() as int);
        assert(trim(t) =~= trim(s));
    } else {
        lemma_rtrim(s);
        let b = rtrim_idx(s);
        assert(b > a) by {
            if b <= a {
                assert(is_ws(s[a]));
            }
        }
        lemma_trim_is(t, a, b);
        assert(t.subrange(a, b) =~= s.subrange(a, b));
    }
}

/// Prepending one whitespace character does not change the trimmed form.
pub proof fn lemma_trim_cons_ws(c: char, s: Seq<char>)
    requires
        is_ws(c),
    ensures
        trim(seq![c] + s) == trim(s),
{
    let t = seq![c] + s;
    lemma_ltrim(s);
    let a = ltrim_idx(s);
    if a == s.len() {
        lemma_ltrim_is(t, t.len() as int);
        assert(trim(t) =~= trim(s));
    } else {
        lemma_rtrim(s);
        let b = rtrim_idx(s);
        assert(b > a) by {
            if b <= a {
                assert(is_ws(s[a]));
            }
        }
        lemma_trim_is(t, a + 1, b + 1);
        assert(t.subrange(a + 1, b + 1) =~= s.subrange(a, b));
    }
}

/// Executable trim, proved equal to the `trim` specification.
pub fn trim_str<'a>(s: &'a str) -> (r: &'a str)
    ensures
        r@ == trim(s@),
{
    let n = s.unicode_len();
    let mut a: usize = 0;
    while a < n && ws_char(s.get_char(a))
        invariant
            0 <= a <= n,
            n == s@.len(),
            forall|j: int| 0 <= j < a ==> is_ws(s@[j]),
        decreases n - a,
    {
        a = a + 1;
    }
    if a == n {
        proof {
            lemma_ltrim_is(s@, n as int);
        }
        let r = s.substring_char(0, 0);
        proof {
            assert(r@ =~= trim(s@));
        }
        return r;
    }
    let mut b: usize = n;
    while b > a && ws_char(s.get_char(b - 1))
        invariant
            a <= b <= n,
            n == s@.len(),
            forall|j: int| b <= j < n ==> is_ws(s@[j]),
        decreases b,
    {
        b = b - 1;
    }
    proof {
        assert(b > a) by {
            if b == a {
                assert(is_ws(s@[a as int]));
            }
        }
        lemma_trim_is(s@, a as int, b as int);
    }
    s.substring_char(a, b)
}

/// Strict lexicographic order on character sequences, by Unicode scalar
/// value, the order `str`'s `Ord` uses.
pub open spec fn seq_lt(a: Seq<char>, b: Seq<char>) -> bool
    decreases a.len(),
{
    if b.len() == 0 {
        false
    } else if a.len() == 0 {
        true
    } else if a[0] == b[0] {
        seq_lt(a.subrange(1, a.len() as int), b.subrange(1, b.len() as int))
    } else {
        (a[0] as int) < (b[0] as int)
    }
}

pub proof fn lemma_seq_lt_irrefl(a: Seq<char>)
    ensures
        !seq_lt(a, a),
    decreases a.len(),
{
    if a.len() > 0 {
        lemma_seq_lt_irrefl(a.subrange(1, a.len() as int));
    }
}

pub proof fn lemma_seq_lt_connected(a: Seq<char>, b: Seq<char>)
    requires
        a != b,
    ensures
        seq_lt(a, b) || seq_lt(b, a),
    decreases a.len(),
{
    if b.len() == 0 {
        assert(a.len() > 0) by {
            if a.len() == 0 {
                assert(a =~= b);
            }
        }
    } else if a.len() == 0 {
    } else if a[0] == b[0] {
        let ta = a.subrange(1, a.len() as int);
        let tb = b.subrange(1, b.len() as int);
        assert(a =~= seq![a[0]] + ta);
        assert(b =~= seq![b[0]] + tb);
        assert(ta != tb);
        lemma_seq_lt_connected(ta, tb);
    } else {
        assert(a[0] as int != b[0] as int);
    }
}

pub proof fn lemma_seq_lt_asymm(a: Seq<char>, b: Seq<char>)
    requires
        seq_lt(a, b),
    ensures
        !seq_lt(b, a),
    decreases a.len(),
{
    if b.len() == 0 {
    } else if a.len() == 0 {
    } else if a[0] == b[0] {
        lemma_seq_lt_asymm(a.subrange(1, a.len() as int), b.subrange(1, b.len() as int));
    }
}

pub proof fn lemma_seq_lt_trans(a: Seq<char>, b: Seq<char>, c: Seq<char>)
    requires
        seq_lt(a, b),
        seq_lt(b, c),
    ensures
        seq_lt(a, c),
    decreases a.len() + b.len() + c.len(),
{
    if a.len() == 0 {
    } else if b.len() == 0 {
    } else if c.len() == 0 {
    } else if a[0] == b[0] && b[0] == c[0] {
        lemma_seq_lt_trans(
            a.subrange(1, a.len() as int),
            b.subrange(1, b.len() as int),
            c.subrange(1, c.len() as int),
        );
    }
}

/// Executable lexicographic comparison, proved equal to `seq_lt`.
pub fn str_lt(a: &str, b: &str) -> (r: bool)
    ensures
        r == seq_lt(a@, b@),
{
    let la = a.unicode_len();
    let lb = b.unicode_len();
    let mut i: usize = 0;
    proof {
        assert(a@.subrange(0, la as int) =~= a@);
        assert(b@.subrange(0, lb as int) =~= b@);
    }
    loop
        invariant
            0 <= i <= la,
            i <= lb,
            la == a@.len(),
            lb == b@.len(),
            seq_lt(a@, b@) == seq_lt(
                a@.subrange(i as int, la as int),
                b@.subrange(i as int, lb as int),
            ),
        decreases la - i,
    {
        let ghost sa = a@.subrange(i as int, la as int);
        let ghost sb = b@.subrange(i as int, lb as int);
        if i == lb {
            proof {
                assert(sb.len() == 0);
            }
            return false;
        }
        if i == la {
            proof {
                assert(sa.len() == 0 && sb.len() > 0);
            }
            return true;
        }
        let ca = a.get_char(i);
        let cb = b.get_char(i);
        if ca == cb {
            proof {
                assert(sa[0] == ca && sb[0] == cb);
                assert(sa.subrange(1, sa.len() as int) =~= a@.subrange(i + 1, la as int));
                assert(sb.subrange(1, sb.len() as int) =~= b@.subrange(i + 1, lb as int));
            }
            i = i + 1;
        } else {
            proof {
                assert(sa[0] == ca && sb[0] == cb);
                assert(ca as u32 == ca as int);
                assert(cb as u32 == cb as int);
            }
            return (ca as u32) < (cb as u32);
        }
    }
}

} // verus!

//! The configuration file format: what a file's text parses to, and what
//! text a mapping serializes to. Parsing is lenient (lines that carry no
//! `key=value` shape are skipped); serialization emits a fixed header
//! comment block and then one line per key. The round-trip and determinism
//! laws at the end of this module tie the two directions together.

use vstd::prelude::*;

use crate::text::find_char;
use crate::text::index_of;
use crate::text::is_trimmed;
use crate::text::lemma_index_of;
use crate::text::lemma_index_of_is;
use crate::text::lemma_seq_lt_asymm;
use crate::text::lemma_seq_lt_irrefl;
use crate::text::lemma_trim_id;
use crate::text::lemma_trim_push_ws;
use crate::text::lemma_trim_cons_ws;
use crate::text::seq_lt;
use crate::text::trim;
use crate::text::trim_str;

verus! {

/// The pieces of `s` between newline characters: one more piece than there
/// are newlines, in order.
pub open spec fn split_lines(s: Seq<char>) -> Seq<Seq<char>>
    decreases s.len(),
{
    let j = index_of(s, '\n');
    if 0 <= j < s.len() {
        seq![s.subrange(0, j)] + split_lines(s.subrange(j + 1, s.len() as int))
    } else {
        seq![s]
    }
}

/// The pieces of `ls` joined with single newline characters.
pub open spec fn join_lines(ls: Seq<Seq<char>>) -> Seq<char>
    decreases ls.len(),
{
    if ls.len() == 0 {
        Seq::empty()
    } else if ls.len() == 1 {
        ls[0]
    } else {
        ls[0] + seq!['\n'] + join_lines(ls.subrange(1, ls.len() as int))
    }
}

/// `l` contains no newline, so it survives joining and splitting as one
/// piece.
pub open spec fn no_nl(l: Seq<char>) -> bool {
    forall|j: int| 0 <= j < l.len() ==> l[j] != '\n'
}

/// Splitting undoes joining, as long as no piece contains a newline.
pub proof fn lemma_split_join(ls: Seq<Seq<char>>)
    requires
        ls.len() >= 1,
        forall|i: int| 0 <= i < ls.len() ==> no_nl(#[trigger] ls[i]),
    ensures
        split_lines(join_lines(ls)) == ls,
    decreases ls.len(),
{
    let s = join_lines(ls);
    if ls.len() == 1 {
        assert(no_nl(ls[0]));
        lemma_index_of_is(s, '\n', s.len() as int);
        assert(split_lines(s) =~= ls);
    } else {
        let l0 = ls[0];
        let rest = ls.subrange(1, ls.len() as int);
        let jr = join_lines(rest);
        assert(s == l0 + seq!['\n'] + jr);
        let n = l0.len() as int;
        assert(no_nl(ls[0]));
        lemma_index_of_is(s, '\n', n);
        assert(s.subrange(0, n) =~= l0);
        assert(s.subrange(n + 1, s.len() as int) =~= jr);
        assert(forall|i: int| 0 <= i < rest.len() ==> no_nl(#[trigger] rest[i]));
        lemma_split_join(rest);
        assert(split_lines(s) =~= ls);
    }
}

/// The quote-stripping rule: a value wrapped in one matching pair of
/// double or single quotes loses the pair; anything else is kept verbatim.
pub open spec fn unquote(v: Seq<char>) -> Seq<char> {
    if v.len() >= 2 && v[0] == v[v.len() - 1] && (v[0] == '"' || v[0] == '\'') {
        v.subrange(1, v.len() - 1)
    } else {
        v
    }
}

/// What one line of a file means: `None` for blank lines, comment lines
/// and lines without `=`; otherwise the key (trimmed), the value (trimmed,
/// then unquoted) and the inline comment after the first `#` of the
/// remainder (trimmed), if there is one.
pub open spec fn parse_line(line: Seq<char>) -> Option<(Seq<char>, Seq<char>, Option<Seq<char>>)> {
    let t = trim(line);
    if t.len() == 0 || t[0] == '#' {
        None
    } else {
        let ep = index_of(t, '=');
        if ep == t.len() {
            None
        } else {
            let key = trim(t.subrange(0, ep));
            let rest = t.subrange(ep + 1, t.len() as int);
            let hp = index_of(rest, '#');
            let raw = if hp == rest.len() {
                trim(rest)
            } else {
                trim(rest.subrange(0, hp))
            };
            let cmt = if hp == rest.len() {
                None
            } else {
                Some(trim(rest.subrange(hp + 1, rest.len() as int)))
            };
            Some((key, unquote(raw), cmt))
        }
    }
}

/// The value mapping that a sequence of lines builds up, later lines
/// overwriting earlier ones with the same key.
pub open spec fn parse_lines_values(ls: Seq<Seq<char>>) -> Map<Seq<char>, Seq<char>>
    decreases ls.len(),
{
    if ls.len() == 0 {
        Map::empty()
    } else {
        let m = parse_lines_values(ls.drop_last());
        match parse_line(ls.last()) {
            Some(kvc) => m.insert(kvc.0, kvc.1),
            None => m,
        }
    }
}

/// The comment mapping that a sequence of lines builds up.
pub open spec fn parse_lines_comments(ls: Seq<Seq<char>>) -> Map<Seq<char>, Seq<char>>
    decreases ls.len(),
{
    if ls.len() == 0 {
        Map::empty()
    } else {
        let m = parse_lines_comments(ls.drop_last());
        match parse_line(ls.last()) {
            Some(kvc) => match kvc.2 {
                Some(c) => m.insert(kvc.0, c),
                None => m,
            },
            None => m,
        }
    }
}

/// The value mapping of a whole file's text.
pub open spec fn spec_parse_values(content: Seq<char>) -> Map<Seq<char>, Seq<char>> {
    parse_lines_values(split_lines(content))
}

/// The comment mapping of a whole file's text.
pub open spec fn spec_parse_comments(content: Seq<char>) -> Map<Seq<char>, Seq<char>> {
    parse_lines_comments(split_lines(content))
}

/// One serialized line: `key=value`, with ` # comment` appended when the
/// key has a comment.
pub open spec fn gen_line(k: Seq<char>, v: Seq<char>, c: Option<Seq<char>>) -> Seq<char> {
    match c {
        None => k + seq!['='] + v,
        Some(cm) => k + seq!['='] + v + seq![' ', '#', ' '] + cm,
    }
}

/// The line serialized for one entry under a comment mapping.
pub open spec fn gen_entry_line(e: (Seq<char>, Seq<char>), cm: Map<Seq<char>, Seq<char>>) -> Seq<
    char,
> {
    gen_line(e.0, e.1, if cm.contains_key(e.0) { Some(cm[e.0]) } else { None })
}

/// The body lines serialized for a sequence of entries.
pub open spec fn gen_lines(
    entries: Seq<(Seq<char>, Seq<char>)>,
    cm: Map<Seq<char>, Seq<char>>,
) -> Seq<Seq<char>> {
    entries.map_values(|e: (Seq<char>, Seq<char>)| gen_entry_line(e, cm))
}

/// The fixed header comment block, followed by one blank line.
pub open spec fn header_lines() -> Seq<Seq<char>> {
    seq![
        "# Cognitive Canvas Configuration"@,
        "# This file stores user preferences in a simple key=value format"@,
        "# Lines starting with # are comments and will be ignored"@,
        Seq::<char>::empty(),
    ]
}

/// A whole serialized file: the header block, then one line per entry, in
/// the entries' order.
pub open spec fn spec_generate(
    entries: Seq<(Seq<char>, Seq<char>)>,
    cm: Map<Seq<char>, Seq<char>>,
) -> Seq<char> {
    join_lines(header_lines() + gen_lines(entries, cm))
}

/// The value mapping that a sequence of entries stands for, later entries
/// overwriting earlier ones with the same key.
pub open spec fn assoc_values(e: Seq<(Seq<char>, Seq<char>)>) -> Map<Seq<char>, Seq<char>>
    decreases e.len(),
{
    if e.len() == 0 {
        Map::empty()
    } else {
        assoc_values(e.drop_last()).insert(e.last().0, e.last().1)
    }
}

/// The keys of `e` are strictly ascending, so each key occurs once and
/// the sequence is canonical for its mapping.
pub open spec fn sorted_keys(e: Seq<(Seq<char>, Seq<char>)>) -> bool {
    forall|i: int, j: int| 0 <= i < j < e.len() ==> seq_lt(#[trigger] e[i].0, #[trigger] e[j].0)
}

pub proof fn lemma_assoc_contains(e: Seq<(Seq<char>, Seq<char>)>, k: Seq<char>)
    ensures
        assoc_values(e).contains_key(k) <==> exists|i: int| 0 <= i < e.len() && (#[trigger] e[i]).0
            == k,
    decreases e.len(),
{
    if e.len() > 0 {
        lemma_assoc_contains(e.drop_last(), k);
        if e.last().0 == k {
            assert(0 <= e.len() - 1 < e.len() && e[e.len() - 1].0 == k);
        } else if assoc_values(e).contains_key(k) {
            let i = choose|i: int| 0 <= i < e.len() - 1 && (#[trigger] e.drop_last()[i]).0 == k;
            assert(e[i].0 == k);
        } else {
            if exists|i: int| 0 <= i < e.len() && (#[trigger] e[i]).0 == k {
                let i = choose|i: int| 0 <= i < e.len() && (#[trigger] e[i]).0 == k;
                assert(e.drop_last()[i].0 == k);
            }
        }
    }
}

/// In a sequence with strictly ascending keys, each entry is what the
/// mapping holds for its key.
pub proof fn lemma_assoc_index(e: Seq<(Seq<char>, Seq<char>)>, i: int)
    requires
        sorted_keys(e),
        0 <= i < e.len(),
    ensures
        assoc_values(e).contains_key(e[i].0),
        assoc_values(e)[e[i].0] == e[i].1,
    decreases e.len(),
{
    if i == e.len() - 1 {
    } else {
        let d = e.drop_last();
        assert(forall|x: int, y: int| 0 <= x < y < d.len() ==> seq_lt(
            (#[trigger] d[x]).0,
            (#[trigger] d[y]).0,
        ));
        lemma_assoc_index(d, i);
        assert(seq_lt(e[i].0, e.last().0));
        lemma_seq_lt_irrefl(e[i].0);
        assert(e.last().0 != e[i].0);
    }
}

/// Joining one more piece appends one newline and the piece.
pub proof fn lemma_join_push(ls: Seq<Seq<char>>, x: Seq<char>)
    requires
        ls.len() >= 1,
    ensures
        join_lines(ls.push(x)) == join_lines(ls) + seq!['\n'] + x,
    decreases ls.len(),
{
    if ls.len() == 1 {
        assert(ls.push(x).subrange(1, 2) =~= seq![x]);
        assert(join_lines(seq![x]) == x);
        assert(join_lines(ls.push(x)) == ls[0] + seq!['\n'] + x);
    } else {
        let t = ls.subrange(1, ls.len() as int);
        assert(ls.push(x).subrange(1, ls.len() as int + 1) =~= t.push(x));
        lemma_join_push(t, x);
        assert((ls[0] + seq!['\n'] + (join_lines(t) + seq!['\n'] + x)) =~= ((ls[0] + seq!['\n']
            + join_lines(t)) + seq!['\n'] + x));
    }
}

/// Executable line splitting, proved equal to `split_lines`.
pub fn split_lines_exec(s: &str) -> (r: Vec<String>)
    ensures
        r@.map_values(|l: String| l@) == split_lines(s@),
{
    let mut out: Vec<String> = Vec::new();
    let mut rem: &str = s;
    proof {
        assert(out@.map_values(|l: String| l@) + split_lines(rem@) =~= split_lines(s@));
    }
    loop
        invariant
            out@.map_values(|l: String| l@) + split_lines(rem@) == split_lines(s@),
        decreases rem@.len(),
    {
        let ghost out0 = out@;
        let n = rem.unicode_len();
        let j = find_char(rem, '\n');
        proof {
            lemma_index_of(rem@, '\n');
        }
        let piece = rem.substring_char(0, j);
        out.push(String::from_str(piece));
        proof {
            assert(out@.map_values(|l: String| l@) =~= out0.map_values(|l: String| l@).push(
                piece@,
            ));
        }
        if j == n {
            proof {
                assert(piece@ =~= rem@);
                assert(split_lines(rem@) == seq![rem@]);
                assert(out@.map_values(|l: String| l@) =~= split_lines(s@));
            }
            return out;
        }
        let old_rem: &str = rem;
        rem = rem.substring_char(j + 1, n);
        proof {
            assert(split_lines(old_rem@) == seq![piece@] + split_lines(rem@));
            assert(out0.map_values(|l: String| l@) + split_lines(old_rem@) =~= out@.map_values(
                |l: String| l@,
            ) + split_lines(rem@));
        }
    }
}

/// Executable quote stripping, proved equal to `unquote`.
pub fn unquote_str<'a>(v: &'a str) -> (r: &'a str)
    ensures
        r@ == unquote(v@),
{
    let n = v.unicode_len();
    if n >= 2 {
        let f = v.get_char(0);
        let l = v.get_char(n - 1);
        if f == l && (f == '"' || f == '\'') {
            return v.substring_char(1, n - 1);
        }
    }
    v
}

/// The view of an executable parsed line.
pub open spec fn line_parts_view(r: Option<(String, String, Option<String>)>) -> Option<
    (Seq<char>, Seq<char>, Option<Seq<char>>),
> {
    match r {
        None => None,
        Some((k, v, c)) => Some(
            (
                k@,
                v@,
                match c {
                    None => None,
                    Some(cm) => Some(cm@),
                },
            ),
        ),
    }
}

/// Executable single-line parsing, proved equal to `parse_line`.
pub fn parse_line_exec(line: &str) -> (r: Option<(String, String, Option<String>)>)
    ensures
        line_parts_view(r) == parse_line(line@),
{
    let t = trim_str(line);
    let n = t.unicode_len();
    if n == 0 {
        return None;
    }
    if t.get_char(0) == '#' {
        return None;
    }
    let ep = find_char(t, '=');
    proof {
        lemma_index_of(t@, '=');
    }
    if ep == n {
        return None;
    }
    let key = trim_str(t.substring_char(0, ep));
    let rest = t.substring_char(ep + 1, n);
    let m = rest.unicode_len();
    let hp = find_char(rest, '#');
    proof {
        lemma_index_of(rest@, '#');
    }
    if hp == m {
        let val = unquote_str(trim_str(rest));
        Some((String::from_str(key), String::from_str(val), None))
    } else {
        let val = unquote_str(trim_str(rest.substring_char(0, hp)));
        let cmt = trim_str(rest.substring_char(hp + 1, m));
        Some((String::from_str(key), String::from_str(val), Some(String::from_str(cmt))))
    }
}

/// A key as serialization can reproduce it: no newline (it must stay on
/// one line), no `=` (the first `=` ends the key), no whitespace at either
/// end (keys are trimmed on parse), and not beginning with `#` (such a
/// line is a comment).
pub open spec fn clean_key(k: Seq<char>) -> bool {
    is_trimmed(k) && no_nl(k) && (forall|j: int| 0 <= j < k.len() ==> k[j] != '=') && (k.len() > 0
        ==> k[0] != '#')
}

/// A value as serialization can reproduce it: no newline, no `#` (which
/// would start a comment), trimmed, and not shaped like a quoted value
/// (quotes are stripped on parse and never re-added).
pub open spec fn clean_value(v: Seq<char>) -> bool {
    is_trimmed(v) && no_nl(v) && (forall|j: int| 0 <= j < v.len() ==> v[j] != '#') && !(v.len() >= 2
        && v[0] == v[v.len() - 1] && (v[0] == '"' || v[0] == '\''))
}

/// A comment as serialization can reproduce it: no newline and trimmed.
pub open spec fn clean_comment(c: Seq<char>) -> bool {
    is_trimmed(c) && no_nl(c)
}

/// A serialized line parses back to exactly the key, value and comment it
/// was made from, when all three are clean.
pub proof fn lemma_parse_gen_line(k: Seq<char>, v: Seq<char>, c: Option<Seq<char>>)
    requires
        clean_key(k),
        clean_value(v),
        match c {
            Some(cm) => clean_comment(cm),
            None => true,
        },
    ensures
        parse_line(gen_line(k, v, c)) == Some((k, v, c)),
{
    let nk = k.len() as int;
    let nv = v.len() as int;
    match c {
        None => {
            let line = k + seq!['='] + v;
            assert(line[nk] == '=');
            assert(forall|j: int| 0 <= j < nk ==> line[j] == k[j]);
            assert(forall|j: int| 0 <= j < nv ==> line[nk + 1 + j] == v[j]);
            assert(is_trimmed(line));
            lemma_trim_id(line);
            assert(line[0] != '#');
            lemma_index_of_is(line, '=', nk);
            assert(line.subrange(0, nk) =~= k);
            lemma_trim_id(k);
            let rest = line.subrange(nk + 1, line.len() as int);
            assert(rest =~= v);
            lemma_index_of_is(v, '#', nv);
            lemma_trim_id(v);
            assert(unquote(v) == v);
        },
        Some(cm) => {
            let line = gen_line(k, v, c);
            let base = k + seq!['='] + v + seq![' ', '#'];
            let nb = base.len() as int;
            assert(base[nk] == '=');
            assert(forall|j: int| 0 <= j < nk ==> base[j] == k[j]);
            assert(forall|j: int| 0 <= j < nv ==> base[nk + 1 + j] == v[j]);
            assert(base[nk + 1 + nv] == ' ' && base[nk + 2 + nv] == '#');
            assert(is_trimmed(base));
            if cm.len() == 0 {
                assert(line =~= base.push(' '));
                lemma_trim_push_ws(base, ' ');
                lemma_trim_id(base);
                assert(trim(line) == base);
                assert(base[0] != '#');
                lemma_index_of_is(base, '=', nk);
                assert(base.subrange(0, nk) =~= k);
                lemma_trim_id(k);
                let rest = base.subrange(nk + 1, nb);
                assert(rest =~= v + seq![' ', '#']);
                assert(forall|j: int| 0 <= j < nv ==> rest[j] == v[j]);
                assert(rest[nv] == ' ' && rest[nv + 1] == '#');
                lemma_index_of_is(rest, '#', nv + 1);
                assert(rest.subrange(0, nv + 1) =~= v.push(' '));
                lemma_trim_push_ws(v, ' ');
                lemma_trim_id(v);
                assert(unquote(v) == v);
                let tail = rest.subrange(nv + 2, rest.len() as int);
                assert(tail =~= Seq::<char>::empty());
                assert(trim(tail) =~= cm);
            } else {
                assert(line =~= base + seq![' '] + cm);
                assert(forall|j: int| 0 <= j < nb ==> line[j] == base[j]);
                assert(line[nb] == ' ');
                assert(forall|j: int| 0 <= j < cm.len() ==> line[nb + 1 + j] == cm[j]);
                assert(is_trimmed(line));
                lemma_trim_id(line);
                assert(line[0] != '#');
                lemma_index_of_is(line, '=', nk);
                assert(line.subrange(0, nk) =~= k);
                lemma_trim_id(k);
                let rest = line.subrange(nk + 1, line.len() as int);
                assert(forall|j: int| 0 <= j < nv ==> rest[j] == v[j]);
                assert(rest[nv] == ' ' && rest[nv + 1] == '#');
                lemma_index_of_is(rest, '#', nv + 1);
                assert(rest.subrange(0, nv + 1) =~= v.push(' '));
                lemma_trim_push_ws(v, ' ');
                lemma_trim_id(v);
                assert(unquote(v) == v);
                let tail = rest.subrange(nv + 2, rest.len() as int);
                assert(tail =~= seq![' '] + cm);
                lemma_trim_cons_ws(' ', cm);
                lemma_trim_id(cm);
                assert(trim(tail) == cm);
            }
        },
    }
}

/// A serialized line stays on one line.
pub proof fn lemma_gen_line_no_nl(k: Seq<char>, v: Seq<char>, c: Option<Seq<char>>)
    requires
        no_nl(k),
        no_nl(v),
        match c {
            Some(cm) => no_nl(cm),
            None => true,
        },
    ensures
        no_nl(gen_line(k, v, c)),
{
    let line = gen_line(k, v, c);
    let nk = k.len() as int;
    let nv = v.len() as int;
    assert forall|j: int| 0 <= j < line.len() implies line[j] != '\n' by {
        match c {
            None => {
                if j < nk {
                    assert(line[j] == k[j]);
                } else if j == nk {
                    assert(line[j] == '=');
                } else {
                    assert(line[j] == v[j - nk - 1]);
                }
            },
            Some(cm) => {
                if j < nk {
                    assert(line[j] == k[j]);
                } else if j == nk {
                    assert(line[j] == '=');
                } else if j < nk + 1 + nv {
                    assert(line[j] == v[j - nk - 1]);
                } else if j < nk + 1 + nv + 3 {
                    assert(line[j] == seq![' ', '#', ' '][j - nk - 1 - nv]);
                } else {
                    assert(line[j] == cm[j - nk - 4 - nv]);
                }
            },
        }
    }
}

/// Every header line (and the blank line after them) parses to nothing and
/// stays on one line.
pub proof fn lemma_header_lines()
    ensures
        forall|i: int| 0 <= i < header_lines().len() ==> parse_line(#[trigger] header_lines()[i])
            is None,
        forall|i: int| 0 <= i < header_lines().len() ==> no_nl(#[trigger] header_lines()[i]),
{
    reveal_strlit("# Cognitive Canvas Configuration");
    reveal_strlit("# This file stores user preferences in a simple key=value format");
    reveal_strlit("# Lines starting with # are comments and will be ignored");
    let h = header_lines();
    assert forall|i: int| 0 <= i < h.len() implies parse_line(#[trigger] h[i]) is None && no_nl(
        h[i],
    ) by {
        if i < 3 {
            lemma_trim_id(h[i]);
            assert(trim(h[i])[0] == '#');
        } else {
            assert(h[i] =~= Seq::<char>::empty());
            assert(trim(h[i]).len() == 0);
        }
    }
}

/// Lines that parse to nothing change no mapping.
pub proof fn lemma_parse_lines_none(pre: Seq<Seq<char>>)
    requires
        forall|i: int| 0 <= i < pre.len() ==> parse_line(#[trigger] pre[i]) is None,
    ensures
        parse_lines_values(pre) == Map::<Seq<char>, Seq<char>>::empty(),
        parse_lines_comments(pre) == Map::<Seq<char>, Seq<char>>::empty(),
    decreases pre.len(),
{
    if pre.len() > 0 {
        assert(forall|i: int| 0 <= i < pre.len() - 1 ==> pre.drop_last()[i] == pre[i]);
        lemma_parse_lines_none(pre.drop_last());
    }
}

/// A prefix of lines that parse to nothing can be dropped from a parse.
pub proof fn lemma_parse_lines_skip_prefix(pre: Seq<Seq<char>>, ls: Seq<Seq<char>>)
    requires
        forall|i: int| 0 <= i < pre.len() ==> parse_line(#[trigger] pre[i]) is None,
    ensures
        parse_lines_values(pre + ls) == parse_lines_values(ls),
        parse_lines_comments(pre + ls) == parse_lines_comments(ls),
    decreases ls.len(),
{
    if ls.len() == 0 {
        assert(pre + ls =~= pre);
        lemma_parse_lines_none(pre);
    } else {
        assert((pre + ls).drop_last() =~= pre + ls.drop_last());
        assert((pre + ls).last() == ls.last());
        lemma_parse_lines_skip_prefix(pre, ls.drop_last());
    }
}

/// Parsing the serialized body lines of clean entries rebuilds exactly the
/// entries' mapping, and the comments of the keys that occur.
pub proof fn lemma_parse_gen_lines(
    entries: Seq<(Seq<char>, Seq<char>)>,
    cm: Map<Seq<char>, Seq<char>>,
)
    requires
        forall|i: int| 0 <= i < entries.len() ==> clean_key((#[trigger] entries[i]).0)
            && clean_value(entries[i].1),
        forall|k: Seq<char>| cm.contains_key(k) ==> clean_comment(#[trigger] cm[k]),
    ensures
        parse_lines_values(gen_lines(entries, cm)) == assoc_values(entries),
        parse_lines_comments(gen_lines(entries, cm)) == cm.restrict(assoc_values(entries).dom()),
    decreases entries.len(),
{
    let lines = gen_lines(entries, cm);
    if entries.len() == 0 {
        assert(lines =~= Seq::<Seq<char>>::empty());
        assert(cm.restrict(assoc_values(entries).dom()) =~= Map::<Seq<char>, Seq<char>>::empty());
    } else {
        let d = entries.drop_last();
        let e = entries.last();
        assert(forall|i: int| 0 <= i < d.len() ==> d[i] == entries[i]);
        assert(lines.drop_last() =~= gen_lines(d, cm));
        assert(lines.last() == gen_entry_line(e, cm));
        lemma_parse_gen_lines(d, cm);
        let copt = if cm.contains_key(e.0) {
            Some(cm[e.0])
        } else {
            None
        };
        assert(clean_key(e.0) && clean_value(e.1));
        lemma_parse_gen_line(e.0, e.1, copt);
        let dom_d = assoc_values(d).dom();
        let dom_e = assoc_values(entries).dom();
        if cm.contains_key(e.0) {
            assert(cm.restrict(dom_e) =~= cm.restrict(dom_d).insert(e.0, cm[e.0]));
        } else {
            assert(cm.restrict(dom_e) =~= cm.restrict(dom_d));
        }
    }
}

/// A file serialized from clean entries and comments splits back into the
/// header block followed by exactly one line per entry, in the entries'
/// order — with sorted entries, one line per key in ascending key order.
pub proof fn lemma_generate_lines(
    entries: Seq<(Seq<char>, Seq<char>)>,
    cm: Map<Seq<char>, Seq<char>>,
)
    requires
        forall|i: int| 0 <= i < entries.len() ==> clean_key((#[trigger] entries[i]).0)
            && clean_value(entries[i].1),
        forall|k: Seq<char>| cm.contains_key(k) ==> clean_comment(#[trigger] cm[k]),
    ensures
        split_lines(spec_generate(entries, cm)) == header_lines() + gen_lines(entries, cm),
{
    let body = gen_lines(entries, cm);
    let all = header_lines() + body;
    lemma_header_lines();
    assert forall|i: int| 0 <= i < all.len() implies no_nl(#[trigger] all[i]) by {
        if i >= 4 {
            let e = entries[i - 4];
            assert(all[i] == gen_entry_line(e, cm));
            assert(clean_key(e.0) && clean_value(e.1));
            lemma_gen_line_no_nl(
                e.0,
                e.1,
                if cm.contains_key(e.0) {
                    Some(cm[e.0])
                } else {
                    None
                },
            );
        }
    }
    lemma_split_join(all);
}

/// Round trip: a file serialized from clean entries and comments parses
/// back to exactly the entries' value mapping and (for keys that have a
/// value) exactly the comment mapping.
pub proof fn lemma_round_trip(entries: Seq<(Seq<char>, Seq<char>)>, cm: Map<Seq<char>, Seq<char>>)
    requires
        forall|i: int| 0 <= i < entries.len() ==> clean_key((#[trigger] entries[i]).0)
            && clean_value(entries[i].1),
        forall|k: Seq<char>| cm.contains_key(k) ==> clean_comment(#[trigger] cm[k]),
        cm.dom().subset_of(assoc_values(entries).dom()),
    ensures
        spec_parse_values(spec_generate(entries, cm)) == assoc_values(entries),
        spec_parse_comments(spec_generate(entries, cm)) == cm,
{
    let body = gen_lines(entries, cm);
    lemma_generate_lines(entries, cm);
    lemma_header_lines();
    lemma_parse_lines_skip_prefix(header_lines(), body);
    lemma_parse_gen_lines(entries, cm);
    assert(cm.restrict(assoc_values(entries).dom()) =~= cm);
}

/// The last entry's key does not occur earlier when keys are strictly
/// ascending.
pub proof fn lemma_assoc_last_not_in_prefix(e: Seq<(Seq<char>, Seq<char>)>)
    requires
        sorted_keys(e),
        e.len() > 0,
    ensures
        !assoc_values(e.drop_last()).contains_key(e.last().0),
{
    let k = e.last().0;
    lemma_assoc_contains(e.drop_last(), k);
    if assoc_values(e.drop_last()).contains_key(k) {
        let i = choose|i: int| 0 <= i < e.drop_last().len() && (#[trigger] e.drop_last()[i]).0
            == k;
        assert(e[i].0 == k);
        assert(seq_lt(e[i].0, e.last().0));
        lemma_seq_lt_irrefl(k);
    }
}

/// Two sequences with strictly ascending keys that stand for the same
/// mapping are the same sequence: the sorted form is canonical, whatever
/// order the entries were made in.
pub proof fn lemma_sorted_assoc_canonical(
    e1: Seq<(Seq<char>, Seq<char>)>,
    e2: Seq<(Seq<char>, Seq<char>)>,
)
    requires
        sorted_keys(e1),
        sorted_keys(e2),
        assoc_values(e1) == assoc_values(e2),
    ensures
        e1 == e2,
    decreases e1.len(),
{
    if e1.len() == 0 {
        if e2.len() > 0 {
            lemma_assoc_index(e2, e2.len() - 1);
            assert(assoc_values(e1).contains_key(e2.last().0));
        }
        assert(e1 =~= e2);
    } else if e2.len() == 0 {
        lemma_assoc_index(e1, e1.len() - 1);
        assert(assoc_values(e2).contains_key(e1.last().0));
        assert(e1 =~= e2);
    } else {
        let k1 = e1.last().0;
        let k2 = e2.last().0;
        lemma_assoc_index(e1, e1.len() - 1);
        lemma_assoc_index(e2, e2.len() - 1);
        if k1 != k2 {
            lemma_assoc_contains(e2, k1);
            let i2 = choose|i: int| 0 <= i < e2.len() && (#[trigger] e2[i]).0 == k1;
            assert(i2 < e2.len() - 1);
            assert(seq_lt(k1, k2));
            lemma_assoc_contains(e1, k2);
            let i1 = choose|i: int| 0 <= i < e1.len() && (#[trigger] e1[i]).0 == k2;
            assert(i1 < e1.len() - 1);
            assert(seq_lt(k2, k1));
            lemma_seq_lt_asymm(k1, k2);
        }
        assert(e1.last().1 == e2.last().1);
        lemma_assoc_last_not_in_prefix(e1);
        lemma_assoc_last_not_in_prefix(e2);
        let d1 = e1.drop_last();
        let d2 = e2.drop_last();
        assert(assoc_values(d1) =~= assoc_values(e1).remove(k1));
        assert(assoc_values(d2) =~= assoc_values(e2).remove(k2));
        assert(forall|i: int| 0 <= i < d1.len() ==> d1[i] == e1[i]);
        assert(forall|i: int| 0 <= i < d2.len() ==> d2[i] == e2[i]);
        lemma_sorted_assoc_canonical(d1, d2);
        assert(e1.last() == e2.last());
        assert(e1 =~= e2);
    }
}

} // verus!

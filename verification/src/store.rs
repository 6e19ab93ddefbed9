//! The configuration store: an in-memory mapping from keys to string
//! values, with an optional comment per key, bound to one file path.
//! Entries are held sorted by key, so serialization is deterministic
//! whatever order the keys were set in.

use vstd::prelude::*;

use crate::format::assoc_values;
use crate::format::clean_comment;
use crate::format::clean_key;
use crate::format::clean_value;
use crate::format::gen_entry_line;
use crate::format::gen_lines;
use crate::format::header_lines;
use crate::format::join_lines;
use crate::format::lemma_join_push;
use crate::format::lemma_round_trip;
use crate::format::lemma_sorted_assoc_canonical;
use crate::format::parse_line_exec;
use crate::format::parse_lines_comments;
use crate::format::parse_lines_values;
use crate::format::sorted_keys;
use crate::format::spec_generate;
use crate::format::spec_parse_comments;
use crate::format::spec_parse_values;
use crate::format::split_lines;
use crate::format::split_lines_exec;
use crate::text::lemma_seq_lt_connected;
use crate::text::lemma_seq_lt_irrefl;
use crate::text::lemma_seq_lt_trans;
use crate::text::seq_lt;
use crate::text::str_lt;

verus! {

/// The key/value views of a stored pair list.
pub open spec fn entries_of(s: Seq<(String, String)>) -> Seq<(Seq<char>, Seq<char>)> {
    s.map_values(|p: (String, String)| (p.0@, p.1@))
}

/// Replacing the value at a position keeps the keys sorted and updates the
/// mapping at that key.
proof fn lemma_assoc_set(e: Seq<(Seq<char>, Seq<char>)>, i: int, v: Seq<char>)
    requires
        sorted_keys(e),
        0 <= i < e.len(),
    ensures
        sorted_keys(e.update(i, (e[i].0, v))),
        assoc_values(e.update(i, (e[i].0, v))) == assoc_values(e).insert(e[i].0, v),
    decreases e.len(),
{
    let k = e[i].0;
    let e2 = e.update(i, (k, v));
    assert(forall|x: int| 0 <= x < e.len() ==> (#[trigger] e2[x]).0 == e[x].0);
    if i == e.len() - 1 {
        assert(e2.drop_last() =~= e.drop_last());
        assert(assoc_values(e2) =~= assoc_values(e).insert(k, v));
    } else {
        let d = e.drop_last();
        assert(forall|x: int| 0 <= x < d.len() ==> d[x] == e[x]);
        assert(e2.drop_last() =~= d.update(i, (k, v)));
        lemma_assoc_set(d, i, v);
        assert(e2.last() == e.last());
        assert(k != e.last().0) by {
            assert(seq_lt(e[i].0, e[e.len() - 1].0));
            if k == e.last().0 {
                lemma_seq_lt_irrefl(k);
            }
        }
        assert(assoc_values(e2) =~= assoc_values(e).insert(k, v));
    }
}

/// Inserting a fresh key at its sorted position keeps the keys sorted and
/// adds the key to the mapping.
proof fn lemma_assoc_insert_at(e: Seq<(Seq<char>, Seq<char>)>, i: int, k: Seq<char>, v: Seq<char>)
    requires
        sorted_keys(e),
        0 <= i <= e.len(),
        forall|j: int| 0 <= j < i ==> seq_lt((#[trigger] e[j]).0, k),
        forall|j: int| i <= j < e.len() ==> seq_lt(k, (#[trigger] e[j]).0),
    ensures
        sorted_keys(e.insert(i, (k, v))),
        assoc_values(e.insert(i, (k, v))) == assoc_values(e).insert(k, v),
    decreases e.len(),
{
    let e2 = e.insert(i, (k, v));
    assert(e2.len() == e.len() + 1);
    assert(forall|x: int| 0 <= x < i ==> #[trigger] e2[x] == e[x]);
    assert(e2[i] == (k, v));
    assert(forall|x: int| i < x < e2.len() ==> #[trigger] e2[x] == e[x - 1]);
    assert forall|x: int, y: int| 0 <= x < y < e2.len() implies seq_lt(
        (#[trigger] e2[x]).0,
        (#[trigger] e2[y]).0,
    ) by {
        if x < i && y < i {
        } else if x < i && y == i {
        } else if x < i && y > i {
            if i <= y - 1 {
                assert(seq_lt(e[x].0, e[y - 1].0));
            }
        } else if x == i {
            assert(seq_lt(k, e[y - 1].0));
        } else {
            assert(seq_lt(e[x - 1].0, e[y - 1].0));
        }
    }
    if i == e.len() {
        assert(e2.drop_last() =~= e);
        assert(e2.last() == (k, v));
    } else {
        let d = e.drop_last();
        assert(forall|x: int| 0 <= x < d.len() ==> d[x] == e[x]);
        assert(e2.drop_last() =~= d.insert(i, (k, v)));
        lemma_assoc_insert_at(d, i, k, v);
        assert(e2.last() == e.last());
        assert(k != e.last().0) by {
            assert(seq_lt(k, e[e.len() - 1].0));
            if k == e.last().0 {
                lemma_seq_lt_irrefl(k);
            }
        }
        assert(assoc_values(e2) =~= assoc_values(e).insert(k, v));
    }
}

/// Sorted lookup by linear scan.
fn assoc_get<'a>(list: &'a Vec<(String, String)>, key: &str) -> (r: Option<&'a String>)
    requires
        sorted_keys(entries_of(list@)),
    ensures
        match r {
            Some(v) => assoc_values(entries_of(list@)).contains_key(key@) && v@ == assoc_values(
                entries_of(list@),
            )[key@],
            None => !assoc_values(entries_of(list@)).contains_key(key@),
        },
{
    let ghost e = entries_of(list@);
    let key_s = String::from_str(key);
    let n = list.len();
    let mut i: usize = 0;
    while i < n
        invariant
            0 <= i <= n,
            n == list@.len(),
            key_s@ == key@,
            e == entries_of(list@),
            sorted_keys(e),
            forall|j: int| 0 <= j < i ==> (#[trigger] e[j]).0 != key@,
        decreases n - i,
    {
        if list[i].0 == key_s {
            proof {
                crate::format::lemma_assoc_index(e, i as int);
            }
            return Some(&list[i].1);
        }
        i = i + 1;
    }
    proof {
        crate::format::lemma_assoc_contains(e, key@);
    }
    None
}

/// Sorted insert-or-replace by linear scan.
fn assoc_insert(list: &mut Vec<(String, String)>, key: &str, value: String)
    requires
        sorted_keys(entries_of(old(list)@)),
    ensures
        sorted_keys(entries_of(final (list)@)),
        assoc_values(entries_of(final (list)@)) == assoc_values(entries_of(old(list)@)).insert(
            key@,
            value@,
        ),
{
    let ghost e = entries_of(old(list)@);
    let key_s = String::from_str(key);
    let n = list.len();
    let mut i: usize = 0;
    while i < n && str_lt(list[i].0.as_str(), key)
        invariant
            0 <= i <= n,
            n == list@.len(),
            key_s@ == key@,
            list@ == old(list)@,
            e == entries_of(list@),
            sorted_keys(e),
            forall|j: int| 0 <= j < i ==> seq_lt((#[trigger] e[j]).0, key@),
        decreases n - i,
    {
        i = i + 1;
    }
    if i < n && list[i].0 == key_s {
        let pair = list.remove(i);
        list.insert(i, (pair.0, value));
        proof {
            assert(entries_of(list@) =~= e.update(i as int, (e[i as int].0, value@)));
            lemma_assoc_set(e, i as int, value@);
        }
        return ;
    }
    proof {
        assert forall|j: int| i <= j < n implies seq_lt(key@, (#[trigger] e[j]).0) by {
            assert(!seq_lt(e[i as int].0, key@));
            assert(e[i as int].0 != key@);
            lemma_seq_lt_connected(e[i as int].0, key@);
            if j > i {
                assert(seq_lt(e[i as int].0, e[j].0));
                lemma_seq_lt_trans(key@, e[i as int].0, e[j].0);
            }
        }
    }
    list.insert(i, (key_s, value));
    proof {
        assert(entries_of(list@) =~= e.insert(i as int, (key@, value@)));
        lemma_assoc_insert_at(e, i as int, key@, value@);
    }
}

/// ASCII lowering by scalar value: `A`..`Z` move down to `a`..`z`, all
/// other characters keep their value.
pub open spec fn lower_u32(c: char) -> u32 {
    if 65 <= c as u32 && c as u32 <= 90 {
        (c as u32 + 32) as u32
    } else {
        c as u32
    }
}

/// Executable mirror of `lower_u32`.
fn lower_scalar(c: char) -> (r: u32)
    ensures
        r == lower_u32(c),
{
    let u = c as u32;
    if 65 <= u && u <= 90 {
        u + 32
    } else {
        u
    }
}

/// The boolean a stored text stands for: a case-insensitive match against
/// `true`, `1`, `yes`, `on` (true) and `false`, `0`, `no`, `off` (false);
/// any other text stands for no boolean. Only ASCII letters fold: no other
/// character lowercases to a letter of these words.
pub open spec fn bool_of_value(v: Seq<char>) -> Option<bool> {
    if v.len() == 1 && lower_u32(v[0]) == '1' as u32 {
        Some(true)
    } else if v.len() == 1 && lower_u32(v[0]) == '0' as u32 {
        Some(false)
    } else if v.len() == 2 && lower_u32(v[0]) == 'o' as u32 && lower_u32(v[1]) == 'n' as u32 {
        Some(true)
    } else if v.len() == 2 && lower_u32(v[0]) == 'n' as u32 && lower_u32(v[1]) == 'o' as u32 {
        Some(false)
    } else if v.len() == 3 && lower_u32(v[0]) == 'y' as u32 && lower_u32(v[1]) == 'e' as u32
        && lower_u32(v[2]) == 's' as u32 {
        Some(true)
    } else if v.len() == 3 && lower_u32(v[0]) == 'o' as u32 && lower_u32(v[1]) == 'f' as u32
        && lower_u32(v[2]) == 'f' as u32 {
        Some(false)
    } else if v.len() == 4 && lower_u32(v[0]) == 't' as u32 && lower_u32(v[1]) == 'r' as u32
        && lower_u32(v[2]) == 'u' as u32 && lower_u32(v[3]) == 'e' as u32 {
        Some(true)
    } else if v.len() == 5 && lower_u32(v[0]) == 'f' as u32 && lower_u32(v[1]) == 'a' as u32
        && lower_u32(v[2]) == 'l' as u32 && lower_u32(v[3]) == 's' as u32 && lower_u32(v[4])
        == 'e' as u32 {
        Some(false)
    } else {
        None
    }
}

/// Executable mirror of `bool_of_value`.
fn value_to_bool(v: &str) -> (r: Option<bool>)
    ensures
        r == bool_of_value(v@),
{
    let n = v.unicode_len();
    if n == 1 {
        let c0 = lower_scalar(v.get_char(0));
        if c0 == '1' as u32 {
            Some(true)
        } else if c0 == '0' as u32 {
            Some(false)
        } else {
            None
        }
    } else if n == 2 {
        let c0 = lower_scalar(v.get_char(0));
        let c1 = lower_scalar(v.get_char(1));
        if c0 == 'o' as u32 && c1 == 'n' as u32 {
            Some(true)
        } else if c0 == 'n' as u32 && c1 == 'o' as u32 {
            Some(false)
        } else {
            None
        }
    } else if n == 3 {
        let c0 = lower_scalar(v.get_char(0));
        let c1 = lower_scalar(v.get_char(1));
        let c2 = lower_scalar(v.get_char(2));
        if c0 == 'y' as u32 && c1 == 'e' as u32 && c2 == 's' as u32 {
            Some(true)
        } else if c0 == 'o' as u32 && c1 == 'f' as u32 && c2 == 'f' as u32 {
            Some(false)
        } else {
            None
        }
    } else if n == 4 {
        let c0 = lower_scalar(v.get_char(0));
        let c1 = lower_scalar(v.get_char(1));
        let c2 = lower_scalar(v.get_char(2));
        let c3 = lower_scalar(v.get_char(3));
        if c0 == 't' as u32 && c1 == 'r' as u32 && c2 == 'u' as u32 && c3 == 'e' as u32 {
            Some(true)
        } else {
            None
        }
    } else if n == 5 {
        let c0 = lower_scalar(v.get_char(0));
        let c1 = lower_scalar(v.get_char(1));
        let c2 = lower_scalar(v.get_char(2));
        let c3 = lower_scalar(v.get_char(3));
        let c4 = lower_scalar(v.get_char(4));
        if c0 == 'f' as u32 && c1 == 'a' as u32 && c2 == 'l' as u32 && c3 == 's' as u32 && c4
            == 'e' as u32 {
            Some(false)
        } else {
            None
        }
    } else {
        None
    }
}

/// What `get_bool` returns for a mapping and a key.
pub open spec fn spec_get_bool(m: Map<Seq<char>, Seq<char>>, k: Seq<char>) -> Option<bool> {
    if m.contains_key(k) {
        bool_of_value(m[k])
    } else {
        None
    }
}

/// The text a boolean is stored as.
pub open spec fn bool_str(b: bool) -> Seq<char> {
    if b {
        "true"@
    } else {
        "false"@
    }
}

/// The stored boolean texts read back as the boolean they were made from,
/// and are clean for serialization.
pub proof fn lemma_bool_str(b: bool)
    ensures
        bool_of_value(bool_str(b)) == Some(b),
        clean_value(bool_str(b)),
{
    reveal_strlit("true");
    reveal_strlit("false");
}

/// A `key=value` configuration store with one optional comment per key,
/// bound to one file path for its lifetime. Entries are kept sorted by
/// key, so the serialized form is canonical for the mappings held.
#[derive(Debug, Clone)]
pub struct ConfigParser {
    data: Vec<(String, String)>,
    comments: Vec<(String, String)>,
    file_path: String,
}

impl ConfigParser {
    /// The value entries, in storage (key-sorted) order.
    pub closed spec fn entries(&self) -> Seq<(Seq<char>, Seq<char>)> {
        entries_of(self.data@)
    }

    /// The comment entries, in storage (key-sorted) order.
    pub closed spec fn comment_entries(&self) -> Seq<(Seq<char>, Seq<char>)> {
        entries_of(self.comments@)
    }

    /// The value mapping the store holds.
    pub open spec fn values(&self) -> Map<Seq<char>, Seq<char>> {
        assoc_values(self.entries())
    }

    /// The comment mapping the store holds.
    pub open spec fn comments(&self) -> Map<Seq<char>, Seq<char>> {
        assoc_values(self.comment_entries())
    }

    /// The backing file path, fixed at construction.
    pub closed spec fn path(&self) -> Seq<char> {
        self.file_path@
    }

    /// Both entry lists have strictly ascending keys: each is canonical
    /// for its mapping.
    pub open spec fn wf(&self) -> bool {
        sorted_keys(self.entries()) && sorted_keys(self.comment_entries())
    }

    /// A new store bound to `file_path`, with empty mappings. No I/O is
    /// performed.
    pub fn new(file_path: &str) -> (r: Self)
        ensures
            r.wf(),
            r.values() == Map::<Seq<char>, Seq<char>>::empty(),
            r.comments() == Map::<Seq<char>, Seq<char>>::empty(),
            r.path() == file_path@,
    {
        let r = ConfigParser {
            data: Vec::new(),
            comments: Vec::new(),
            file_path: String::from_str(file_path),
        };
        proof {
            assert(r.entries() =~= Seq::<(Seq<char>, Seq<char>)>::empty());
            assert(r.comment_entries() =~= Seq::<(Seq<char>, Seq<char>)>::empty());
        }
        r
    }

    /// The path this store was constructed with.
    pub fn file_path(&self) -> (r: &str)
        ensures
            r@ == self.path(),
    {
        self.file_path.as_str()
    }

    /// The stored value for `key`, or nothing if the key is unset.
    pub fn get(&self, key: &str) -> (r: Option<&String>)
        requires
            self.wf(),
        ensures
            match r {
                Some(v) => self.values().contains_key(key@) && v@ == self.values()[key@],
                None => !self.values().contains_key(key@),
            },
    {
        assoc_get(&self.data, key)
    }

    /// The stored value for `key` read as a boolean, under the
    /// case-insensitive coercion of `bool_of_value`; nothing if the key is
    /// unset or its value matches neither word list.
    pub fn get_bool(&self, key: &str) -> (r: Option<bool>)
        requires
            self.wf(),
        ensures
            r == spec_get_bool(self.values(), key@),
    {
        match self.get(key) {
            Some(v) => value_to_bool(v.as_str()),
            None => None,
        }
    }

    /// Insert or overwrite the value for `key` in memory; nothing is
    /// persisted until the serialized form is written out.
    pub fn set(&mut self, key: &str, value: &str)
        requires
            old(self).wf(),
        ensures
            final (self).wf(),
            final (self).values() == old(self).values().insert(key@, value@),
            final (self).comments() == old(self).comments(),
            final (self).path() == old(self).path(),
    {
        assoc_insert(&mut self.data, key, String::from_str(value));
    }

    /// Insert or overwrite the value for `key` as the text `true` or
    /// `false`.
    pub fn set_bool(&mut self, key: &str, value: bool)
        requires
            old(self).wf(),
        ensures
            final (self).wf(),
            final (self).values() == old(self).values().insert(key@, bool_str(value)),
            final (self).comments() == old(self).comments(),
            final (self).path() == old(self).path(),
    {
        if value {
            self.set(key, "true");
        } else {
            self.set(key, "false");
        }
    }

    /// Insert or overwrite the comment for `key`, independent of whether
    /// the key has a value.
    pub fn set_comment(&mut self, key: &str, comment: &str)
        requires
            old(self).wf(),
        ensures
            final (self).wf(),
            final (self).values() == old(self).values(),
            final (self).comments() == old(self).comments().insert(key@, comment@),
            final (self).path() == old(self).path(),
    {
        assoc_insert(&mut self.comments, key, String::from_str(comment));
    }

    /// Replace the store's mappings with what `content` parses to. Lines
    /// are parsed independently and leniently: blank lines, comment lines
    /// and lines without `=` are skipped, never an error.
    pub fn parse_content(&mut self, content: &str) -> (r: Result<(), String>)
        requires
            old(self).wf(),
        ensures
            r is Ok,
            final (self).wf(),
            final (self).values() == spec_parse_values(content@),
            final (self).comments() == spec_parse_comments(content@),
            final (self).path() == old(self).path(),
    {
        let ghost path0 = self.file_path@;
        self.data.clear();
        self.comments.clear();
        let lines = split_lines_exec(content);
        let ghost lv = lines@.map_values(|l: String| l@);
        proof {
            assert(self.entries() =~= Seq::<(Seq<char>, Seq<char>)>::empty());
            assert(self.comment_entries() =~= Seq::<(Seq<char>, Seq<char>)>::empty());
            assert(lv.take(0) =~= Seq::<Seq<char>>::empty());
        }
        let n = lines.len();
        let mut i: usize = 0;
        while i < n
            invariant
                0 <= i <= n,
                n == lines@.len(),
                lv == lines@.map_values(|l: String| l@),
                lv == split_lines(content@),
                self.wf(),
                self.values() == parse_lines_values(lv.take(i as int)),
                self.comments() == parse_lines_comments(lv.take(i as int)),
                self.file_path@ == path0,
            decreases n - i,
        {
            proof {
                assert(lv.take(i as int + 1).drop_last() =~= lv.take(i as int));
                assert(lv.take(i as int + 1).last() == lv[i as int]);
                assert(lines@[i as int]@ == lv[i as int]);
            }
            match parse_line_exec(lines[i].as_str()) {
                Some((k, v, c)) => {
                    assoc_insert(&mut self.data, k.as_str(), v);
                    match c {
                        Some(cm) => {
                            assoc_insert(&mut self.comments, k.as_str(), cm);
                        },
                        None => {},
                    }
                },
                None => {},
            }
            i = i + 1;
        }
        proof {
            assert(lv.take(n as int) =~= lv);
        }
        Ok(())
    }

    /// The serialized form of the store: the fixed header comment block, a
    /// blank line, then one `key=value` line per key in ascending key
    /// order, with ` # comment` appended where the key has a comment.
    pub fn generate_content(&self) -> (r: String)
        requires
            self.wf(),
        ensures
            r@ == spec_generate(self.entries(), self.comments()),
    {
        let ghost cm = self.comments();
        let ghost all = header_lines() + gen_lines(self.entries(), cm);
        let mut out = String::from_str("# Cognitive Canvas Configuration");
        out.append("\n");
        out.append("# This file stores user preferences in a simple key=value format");
        out.append("\n");
        out.append("# Lines starting with # are comments and will be ignored");
        out.append("\n");
        proof {
            reveal_strlit("\n");
            assert("\n"@ =~= seq!['\n']);
            assert(all.take(1) =~= seq![all[0]]);
            assert(all.take(2) =~= all.take(1).push(all[1]));
            assert(all.take(3) =~= all.take(2).push(all[2]));
            assert(all.take(4) =~= all.take(3).push(all[3]));
            lemma_join_push(all.take(1), all[1]);
            lemma_join_push(all.take(2), all[2]);
            lemma_join_push(all.take(3), all[3]);
            assert(out@ =~= join_lines(all.take(4)));
        }
        let n = self.data.len();
        let mut i: usize = 0;
        while i < n
            invariant
                0 <= i <= n,
                n == self.data@.len(),
                self.wf(),
                cm == self.comments(),
                all == header_lines() + gen_lines(self.entries(), cm),
                out@ == join_lines(all.take(4 + i as int)),
            decreases n - i,
        {
            let ghost e = self.entries()[i as int];
            let mut line = String::from_str("");
            line.append(self.data[i].0.as_str());
            line.append("=");
            line.append(self.data[i].1.as_str());
            match assoc_get(&self.comments, self.data[i].0.as_str()) {
                Some(c) => {
                    line.append(" # ");
                    line.append(c.as_str());
                    proof {
                        reveal_strlit("");
                        reveal_strlit("=");
                        reveal_strlit(" # ");
                        assert("="@ =~= seq!['=']);
                        assert(" # "@ =~= seq![' ', '#', ' ']);
                        assert(line@ =~= gen_entry_line(e, cm));
                    }
                },
                None => {
                    proof {
                        reveal_strlit("");
                        reveal_strlit("=");
                        assert("="@ =~= seq!['=']);
                        assert(line@ =~= gen_entry_line(e, cm));
                    }
                },
            }
            out.append("\n");
            out.append(line.as_str());
            proof {
                reveal_strlit("\n");
                assert("\n"@ =~= seq!['\n']);
                assert(all[4 + i as int] == gen_entry_line(e, cm));
                lemma_join_push(all.take(4 + i as int), all[4 + i as int]);
                assert(all.take(4 + i as int + 1) =~= all.take(4 + i as int).push(
                    all[4 + i as int],
                ));
                assert(out@ =~= join_lines(all.take(4 + i as int + 1)));
            }
            i = i + 1;
        }
        proof {
            assert(all.take(4 + n as int) =~= all);
        }
        out
    }

    /// Fill in the default window settings and their canonical comments:
    /// decorations and maximized on, fullscreen off.
    pub fn create_default_config(&mut self)
        requires
            old(self).wf(),
        ensures
            final (self).wf(),
            final (self).values() == old(self).values().insert(
                "window_decorations"@,
                bool_str(true),
            ).insert("window_maximized"@, bool_str(true)).insert(
                "window_fullscreen"@,
                bool_str(false),
            ),
            final (self).comments() == old(self).comments().insert(
                "window_decorations"@,
                "Show native window title bar and decorations"@,
            ).insert("window_maximized"@, "Start window in maximized state"@).insert(
                "window_fullscreen"@,
                "Start window in fullscreen mode (overrides maximized)"@,
            ),
            final (self).path() == old(self).path(),
    {
        self.set_bool("window_decorations", true);
        self.set_comment("window_decorations", "Show native window title bar and decorations");
        self.set_bool("window_maximized", true);
        self.set_comment("window_maximized", "Start window in maximized state");
        self.set_bool("window_fullscreen", false);
        self.set_comment("window_fullscreen", "Start window in fullscreen mode (overrides maximized)");
    }
}

/// Round trip at the store: a serialized store parses back to exactly its
/// value mapping, and to exactly its comment mapping as far as the
/// commented keys have values — with clean keys, values and comments,
/// nothing else is lost (quoting is never re-added, so a quoted-looking
/// value is outside `clean_value`).
pub proof fn lemma_store_round_trip(s: &ConfigParser)
    requires
        s.wf(),
        forall|k: Seq<char>| s.values().contains_key(k) ==> clean_key(k) && clean_value(
            #[trigger] s.values()[k],
        ),
        forall|k: Seq<char>| s.comments().contains_key(k) ==> clean_comment(
            #[trigger] s.comments()[k],
        ),
        s.comments().dom().subset_of(s.values().dom()),
    ensures
        spec_parse_values(spec_generate(s.entries(), s.comments())) == s.values(),
        spec_parse_comments(spec_generate(s.entries(), s.comments())) == s.comments(),
{
    let e = s.entries();
    assert forall|i: int| 0 <= i < e.len() implies clean_key((#[trigger] e[i]).0) && clean_value(
        e[i].1,
    ) by {
        crate::format::lemma_assoc_index(e, i);
        assert(s.values().contains_key(e[i].0));
        assert(s.values()[e[i].0] == e[i].1);
    }
    lemma_round_trip(s.entries(), s.comments());
}

/// Saving twice without an intervening mutation produces identical text:
/// the serialized form is a function of the store's state alone.
pub proof fn lemma_save_idempotent(s: &ConfigParser, first: Seq<char>, second: Seq<char>)
    requires
        first == spec_generate(s.entries(), s.comments()),
        second == spec_generate(s.entries(), s.comments()),
    ensures
        first == second,
{
}

/// The serialized form depends only on the mappings held, never on the
/// order keys were set in: two well-formed stores with equal value and
/// comment mappings serialize to identical text, keys in ascending order.
pub proof fn lemma_generate_deterministic(a: &ConfigParser, b: &ConfigParser)
    requires
        a.wf(),
        b.wf(),
        a.values() == b.values(),
        a.comments() == b.comments(),
    ensures
        spec_generate(a.entries(), a.comments()) == spec_generate(b.entries(), b.comments()),
{
    lemma_sorted_assoc_canonical(a.entries(), b.entries());
}

} // verus!

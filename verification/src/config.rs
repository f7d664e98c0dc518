//! The tolerant shell-config parser: line by line, skipping blanks and `#`
//! comments, joining backslash-continued lines, and collecting `KEY=VALUE`
//! assignments (first `=` splits, both sides trimmed, one matching outer
//! quote pair stripped, last assignment per key wins).

use vstd::prelude::*;
use crate::text::find_char;
use crate::text::first_index_of;
use crate::text::lemma_first_index_of;
use crate::text::split_on;
use crate::text::split_str;
use crate::text::str_eq;
use crate::text::strs_view;
use crate::text::trim_str;
use crate::text::trimmed;
use crate::text::is_space;
use crate::text::lemma_first_index_at;

verus! {

/// The mapping that a list of key/value entries denotes: later entries
/// overwrite earlier ones.
pub open spec fn assoc_view(s: Seq<(String, String)>) -> Map<Seq<char>, Seq<char>>
    decreases s.len(),
{
    if s.len() == 0 {
        Map::empty()
    } else {
        assoc_view(s.drop_last()).insert(s.last().0@, s.last().1@)
    }
}

/// A parsed configuration: a mapping from assignment keys to values.
pub struct ConfigMap {
    pub entries: Vec<(String, String)>,
}

impl View for ConfigMap {
    type V = Map<Seq<char>, Seq<char>>;

    open spec fn view(&self) -> Map<Seq<char>, Seq<char>> {
        assoc_view(self.entries@)
    }
}

proof fn lemma_assoc_view_congruent(a: Seq<(String, String)>, b: Seq<(String, String)>)
    requires
        a.len() == b.len(),
        forall|i: int|
            0 <= i < a.len() ==> a[i].0@ == b[i].0@ && a[i].1@ == b[i].1@,
    ensures
        assoc_view(a) == assoc_view(b),
    decreases a.len(),
{
    if a.len() > 0 {
        lemma_assoc_view_congruent(a.drop_last(), b.drop_last());
    }
}

impl ConfigMap {
    /// An empty mapping.
    pub fn new() -> (r: ConfigMap)
        ensures
            r@ == Map::<Seq<char>, Seq<char>>::empty(),
    {
        ConfigMap { entries: Vec::new() }
    }

    /// Inserts `k -> v`, overwriting any earlier value for `k`.
    pub fn insert(&mut self, k: String, v: String)
        ensures
            final(self)@ == old(self)@.insert(k@, v@),
    {
        let ghost pre = self.entries@;
        self.entries.push((k, v));
        proof {
            assert(self.entries@.drop_last() =~= pre);
        }
    }

    /// Looks up the value of `k`: the last value assigned to it, if any.
    pub fn get(&self, k: &str) -> (r: Option<&String>)
        ensures
            match r {
                Some(v) => self@.contains_key(k@) && v@ == self@[k@],
                None => !self@.contains_key(k@),
            },
    {
        let mut i: usize = self.entries.len();
        proof {
            assert(self.entries@.subrange(0, self.entries@.len() as int) =~= self.entries@);
        }
        while i > 0
            invariant
                0 <= i <= self.entries@.len(),
                self@.contains_key(k@) == assoc_view(self.entries@.subrange(0, i as int))
                    .contains_key(k@),
                self@.contains_key(k@) ==> self@[k@] == assoc_view(
                    self.entries@.subrange(0, i as int),
                )[k@],
            decreases i,
        {
            i = i - 1;
            let ghost post = self.entries@.subrange(0, i + 1);
            proof {
                assert(post.drop_last() =~= self.entries@.subrange(0, i as int));
                assert(post.last() == self.entries@[i as int]);
            }
            if str_eq(self.entries[i].0.as_str(), k) {
                return Some(&self.entries[i].1);
            }
        }
        proof {
            assert(self.entries@.subrange(0, 0) =~= Seq::<(String, String)>::empty());
        }
        None
    }
}

impl Clone for ConfigMap {
    /// A deep copy denoting the same mapping.
    fn clone(&self) -> (r: Self)
        ensures
            r@ == self@,
    {
        let mut entries: Vec<(String, String)> = Vec::new();
        let mut i: usize = 0;
        while i < self.entries.len()
            invariant
                0 <= i <= self.entries@.len(),
                entries@.len() == i,
                forall|j: int|
                    0 <= j < i ==> entries@[j].0@ == self.entries@[j].0@ && entries@[j].1@
                        == self.entries@[j].1@,
            decreases self.entries@.len() - i,
        {
            entries.push((self.entries[i].0.clone(), self.entries[i].1.clone()));
            i = i + 1;
        }
        proof {
            lemma_assoc_view_congruent(entries@, self.entries@);
        }
        ConfigMap { entries }
    }
}

/// One matching outer pair of double or single quotes removed; anything
/// else — including a single quote character standing alone — unchanged.
pub open spec fn unquote(v: Seq<char>) -> Seq<char> {
    if v.len() >= 2 && ((v[0] == '"' && v[v.len() - 1] == '"') || (v[0] == '\'' && v[v.len() - 1]
        == '\'')) {
        v.subrange(1, v.len() - 1)
    } else {
        v
    }
}

/// Strips one matching outer pair of quotes, if present.
pub fn strip_quotes<'a>(v: &'a str) -> (r: &'a str)
    ensures
        r@ == unquote(v@),
{
    let n = v.unicode_len();
    if n >= 2 {
        let f = v.get_char(0);
        let l = v.get_char(n - 1);
        if (f == '"' && l == '"') || (f == '\'' && l == '\'') {
            return v.substring_char(1, n - 1);
        }
    }
    v
}

/// How one physical line advances the parse: `acc` is the continuation
/// buffer, `m` the mapping so far. Blank and comment lines change nothing; a
/// line with a trailing backslash accumulates; any other line completes a
/// logical line, which yields an entry exactly when it contains `=`.
pub open spec fn line_step(
    acc: Seq<char>,
    m: Map<Seq<char>, Seq<char>>,
    line: Seq<char>,
) -> (Seq<char>, Map<Seq<char>, Seq<char>>) {
    let t = trimmed(line);
    if t.len() == 0 {
        (acc, m)
    } else if t[0] == '#' {
        (acc, m)
    } else if t[t.len() - 1] == '\\' {
        (acc + trimmed(t.subrange(0, t.len() - 1)), m)
    } else {
        let full = acc + t;
        let i = first_index_of(full, '=');
        if i == full.len() {
            (Seq::empty(), m)
        } else {
            (
                Seq::empty(),
                m.insert(
                    trimmed(full.subrange(0, i)),
                    unquote(trimmed(full.subrange(i + 1, full.len() as int))),
                ),
            )
        }
    }
}

/// `line_step` folded over a sequence of physical lines.
pub open spec fn fold_lines(
    acc: Seq<char>,
    m: Map<Seq<char>, Seq<char>>,
    lines: Seq<Seq<char>>,
) -> (Seq<char>, Map<Seq<char>, Seq<char>>)
    decreases lines.len(),
{
    if lines.len() == 0 {
        (acc, m)
    } else {
        let st = line_step(acc, m, lines[0]);
        fold_lines(st.0, st.1, lines.subrange(1, lines.len() as int))
    }
}

/// The mapping parsed from a sequence of physical lines, starting from an
/// empty buffer and mapping. An unterminated trailing continuation is
/// silently dropped.
pub open spec fn parse_lines(lines: Seq<Seq<char>>) -> Map<Seq<char>, Seq<char>> {
    fold_lines(Seq::empty(), Map::empty(), lines).1
}

/// The mapping parsed from whole file text: the fold over its lines.
pub open spec fn parse_config(text: Seq<char>) -> Map<Seq<char>, Seq<char>> {
    parse_lines(split_on(text, '\n'))
}

/// Applies one physical line to the parse state.
fn process_line(acc: &mut String, map: &mut ConfigMap, line: &str)
    ensures
        final(acc)@ == line_step(old(acc)@, old(map)@, line@).0,
        final(map)@ == line_step(old(acc)@, old(map)@, line@).1,
{
    let t = trim_str(line);
    let n = t.unicode_len();
    if n == 0 {
        return;
    }
    if t.get_char(0) == '#' {
        return;
    }
    if t.get_char(n - 1) == '\\' {
        let head = trim_str(t.substring_char(0, n - 1));
        acc.append(head);
        return;
    }
    acc.append(t);
    let full_len = acc.as_str().unicode_len();
    let i = find_char(acc.as_str(), '=');
    proof {
        lemma_first_index_of(acc@, '=');
    }
    if i < full_len {
        let key = trim_str(acc.as_str().substring_char(0, i)).to_owned();
        let rawv = trim_str(acc.as_str().substring_char(i + 1, full_len));
        let value = strip_quotes(rawv).to_owned();
        map.insert(key, value);
    }
    *acc = String::new();
}

/// Parses whole shell-config file text into its key/value mapping.
pub fn parse_shell_config(text: &str) -> (r: ConfigMap)
    ensures
        r@ == parse_config(text@),
{
    let ghost all = split_on(text@, '\n');
    let lines = split_str(text, '\n');
    let mut acc = String::new();
    let mut map = ConfigMap::new();
    proof {
        assert(all.subrange(0, all.len() as int) =~= all);
        assert(acc@ =~= Seq::<char>::empty());
    }
    let mut i: usize = 0;
    while i < lines.len()
        invariant
            strs_view(lines@) == all,
            all == split_on(text@, '\n'),
            0 <= i <= lines@.len(),
            fold_lines(acc@, map@, all.subrange(i as int, all.len() as int)) == fold_lines(
                Seq::empty(),
                Map::empty(),
                all,
            ),
        decreases lines@.len() - i,
    {
        let ghost rest = all.subrange(i as int, all.len() as int);
        proof {
            assert(rest[0] == all[i as int]);
            assert(rest.subrange(1, rest.len() as int) =~= all.subrange(
                i + 1,
                all.len() as int,
            ));
            assert(lines@[i as int]@ == all[i as int]);
        }
        process_line(&mut acc, &mut map, lines[i].as_str());
        i = i + 1;
    }
    proof {
        assert(all.subrange(all.len() as int, all.len() as int) =~= Seq::<Seq<char>>::empty());
    }
    map
}

/// A well-formed assignment line round-trips: parsing the single line
/// `k=v` — with the key and value already trimmed, the key non-empty, not a
/// comment, and `=`-free, and the value not ending in a continuation
/// backslash — yields exactly the mapping `k -> unquote(v)`, so re-joining
/// that key and de-quoted value with `=` recovers the assignment.
pub proof fn lemma_assignment_round_trip(k: Seq<char>, v: Seq<char>)
    requires
        k.len() > 0,
        k == trimmed(k),
        k[0] != '#',
        forall|i: int| 0 <= i < k.len() ==> k[i] != '=',
        v == trimmed(v),
        v.len() > 0 ==> v[v.len() - 1] != '\\',
    ensures
        parse_lines(seq![k + seq!['='] + v]) == Map::<Seq<char>, Seq<char>>::empty().insert(
            k,
            unquote(v),
        ),
{
    let line = k + seq!['='] + v;
    crate::text::lemma_trimmed_idempotent(k);
    crate::text::lemma_trimmed_idempotent(v);
    assert(line[0] == k[0]);
    assert(!is_space(line[0]));
    if v.len() > 0 {
        assert(line[line.len() - 1] == v[v.len() - 1]);
    } else {
        assert(line[line.len() - 1] == '=');
    }
    crate::text::lemma_trimmed_fixed(line);
    assert(line[line.len() - 1] != '\\');
    let full = Seq::<char>::empty() + line;
    assert(full =~= line);
    assert forall|j: int| 0 <= j < k.len() implies line[j] != '=' by {
        assert(line[j] == k[j]);
    }
    assert(line[k.len() as int] == '=');
    lemma_first_index_at(line, '=', k.len() as int);
    assert(line.subrange(0, k.len() as int) =~= k);
    assert(line.subrange(k.len() as int + 1, line.len() as int) =~= v);
    let st = line_step(Seq::empty(), Map::empty(), line);
    assert(st.1 == Map::<Seq<char>, Seq<char>>::empty().insert(k, unquote(v)));
    assert(seq![line].subrange(1, 1) =~= Seq::<Seq<char>>::empty());
    assert(seq![line][0] == line);
    assert(fold_lines(st.0, st.1, Seq::<Seq<char>>::empty()) == st);
    assert(fold_lines(Seq::empty(), Map::empty(), seq![line]) == st);
}

/// A line ending in a continuation backslash only accumulates: folding the
/// lines `a\` then `rest` from any state equals folding `rest` with `a`
/// appended to the buffer (for a trimmed, non-empty, non-comment `a`).
pub proof fn lemma_continuation_line(
    acc: Seq<char>,
    m: Map<Seq<char>, Seq<char>>,
    a: Seq<char>,
    rest: Seq<Seq<char>>,
)
    requires
        a.len() > 0,
        a == trimmed(a),
        a[0] != '#',
    ensures
        fold_lines(acc, m, seq![a + seq!['\\']] + rest) == fold_lines(acc + a, m, rest),
{
    let line = a + seq!['\\'];
    crate::text::lemma_trimmed_idempotent(a);
    assert(line[0] == a[0]);
    assert(line[line.len() - 1] == '\\');
    assert(!is_space(line[0]));
    assert(!is_space(line[line.len() - 1]));
    crate::text::lemma_trimmed_fixed(line);
    assert(line.subrange(0, line.len() - 1) =~= a);
    let st = line_step(acc, m, line);
    assert(st.0 == acc + a);
    assert((seq![line] + rest)[0] == line);
    assert((seq![line] + rest).subrange(1, (seq![line] + rest).len() as int) =~= rest);
}

proof fn lemma_fold_inert_insert(
    acc: Seq<char>,
    m: Map<Seq<char>, Seq<char>>,
    lines: Seq<Seq<char>>,
    i: int,
    extra: Seq<char>,
)
    requires
        0 <= i <= lines.len(),
        trimmed(extra).len() == 0 || trimmed(extra)[0] == '#',
    ensures
        fold_lines(acc, m, lines.insert(i, extra)) == fold_lines(acc, m, lines),
    decreases i,
{
    let ext = lines.insert(i, extra);
    if i == 0 {
        assert(ext[0] == extra);
        assert(line_step(acc, m, extra) == (acc, m));
        assert(ext.subrange(1, ext.len() as int) =~= lines);
    } else {
        assert(lines.len() > 0);
        assert(ext[0] == lines[0]);
        let st = line_step(acc, m, lines[0]);
        lemma_fold_inert_insert(st.0, st.1, lines.subrange(1, lines.len() as int), i - 1, extra);
        assert(ext.subrange(1, ext.len() as int) =~= lines.subrange(
            1,
            lines.len() as int,
        ).insert(i - 1, extra));
    }
}

/// A blank line or a `#` comment line contributes nothing, wherever it
/// stands: inserting one anywhere — even in the middle of a continuation —
/// leaves the parsed mapping unchanged.
pub proof fn lemma_comment_blank_inert(lines: Seq<Seq<char>>, i: int, extra: Seq<char>)
    requires
        0 <= i <= lines.len(),
        trimmed(extra).len() == 0 || trimmed(extra)[0] == '#',
    ensures
        parse_lines(lines.insert(i, extra)) == parse_lines(lines),
{
    lemma_fold_inert_insert(Seq::empty(), Map::empty(), lines, i, extra);
}

/// Quote stripping removes exactly one matching outer pair of double or
/// single quotes, and nothing else: an unmatched pair, or a value too short
/// to hold a pair, is left untouched.
pub proof fn lemma_quote_stripping(v: Seq<char>)
    ensures
        (v.len() >= 2 && ((v[0] == '"' && v[v.len() - 1] == '"') || (v[0] == '\'' && v[v.len()
            - 1] == '\''))) ==> unquote(v) == v.subrange(1, v.len() - 1),
        !(v.len() >= 2 && ((v[0] == '"' && v[v.len() - 1] == '"') || (v[0] == '\'' && v[v.len()
            - 1] == '\''))) ==> unquote(v) == v,
{
}

} // verus!

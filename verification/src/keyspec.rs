//! The key-specification mini-language: a comma-separated list of entries of
//! the form `name` or `name:modifier`, where the modifier `bytes`
//! (case-insensitive) asks for size conversion of that field's value.

use vstd::prelude::*;
use crate::text::first_index_of;
use crate::text::find_char;
use crate::text::lemma_first_index_of;
use crate::text::split_on;
use crate::text::split_str;
use crate::text::strs_view;
use crate::text::trim_str;
use crate::text::trimmed;

verus! {

/// One entry of the key specification: a profile field name, and whether its
/// value is converted from a human-readable size to bytes on output.
pub struct KeySpec {
    pub name: String,
    pub convert_to_bytes: bool,
}

impl View for KeySpec {
    type V = (Seq<char>, bool);

    open spec fn view(&self) -> (Seq<char>, bool) {
        (self.name@, self.convert_to_bytes)
    }
}

/// The views of a sequence of key specifications.
pub open spec fn specs_view(v: Seq<KeySpec>) -> Seq<(Seq<char>, bool)> {
    v.map_values(|k: KeySpec| k@)
}

/// The Unicode scalar value of `c`, with ASCII upper-case letters folded to
/// lower case.
pub open spec fn lower_u32(c: char) -> int {
    if 65 <= (c as u32) && (c as u32) <= 90 {
        (c as u32) + 32
    } else {
        (c as u32) as int
    }
}

/// Equality of character sequences up to ASCII case.
pub open spec fn eq_ignore_ascii_case_seq(a: Seq<char>, b: Seq<char>) -> bool {
    a.len() == b.len() && forall|i: int| 0 <= i < a.len() ==> lower_u32(a[i]) == lower_u32(b[i])
}

/// What one key-specification entry parses to: the trimmed entry is split on
/// its first colon into a (re-trimmed) name and a modifier; conversion is
/// enabled exactly when the trimmed modifier is `bytes` up to ASCII case. An
/// entry without a colon is all name, with conversion disabled.
pub open spec fn key_spec_of(e: Seq<char>) -> (Seq<char>, bool) {
    let t = trimmed(e);
    let i = first_index_of(t, ':');
    if i == t.len() {
        (t, false)
    } else {
        (
            trimmed(t.subrange(0, i)),
            eq_ignore_ascii_case_seq(trimmed(t.subrange(i + 1, t.len() as int)), "bytes"@),
        )
    }
}

/// `lower_u32` of `c`.
fn lower_char_u32(c: char) -> (r: u32)
    ensures
        r as int == lower_u32(c),
{
    let u = c as u32;
    if u >= 65 && u <= 90 {
        u + 32
    } else {
        u
    }
}

/// Whether `m` is the word `bytes`, compared case-insensitively (ASCII).
fn is_bytes_modifier(m: &str) -> (r: bool)
    ensures
        r == eq_ignore_ascii_case_seq(m@, "bytes"@),
{
    proof {
        reveal_strlit("bytes");
    }
    let pat = "bytes";
    let n = m.unicode_len();
    if n != 5 {
        return false;
    }
    let mut i: usize = 0;
    while i < 5
        invariant
            m@.len() == 5,
            pat@ == "bytes"@,
            pat@.len() == 5,
            0 <= i <= 5,
            forall|j: int| 0 <= j < i ==> lower_u32(m@[j]) == lower_u32(pat@[j]),
        decreases 5 - i,
    {
        proof {
            reveal_strlit("bytes");
        }
        if lower_char_u32(m.get_char(i)) != lower_char_u32(pat.get_char(i)) {
            return false;
        }
        i = i + 1;
    }
    true
}

/// Parses one key-specification entry, such as `imgsize:bytes` or
/// `vm_profile`.
pub fn parse_key_spec(s: &str) -> (r: KeySpec)
    ensures
        r@ == key_spec_of(s@),
{
    let t = trim_str(s);
    let n = t.unicode_len();
    let i = find_char(t, ':');
    proof {
        lemma_first_index_of(t@, ':');
    }
    if i == n {
        KeySpec { name: t.to_owned(), convert_to_bytes: false }
    } else {
        let name = trim_str(t.substring_char(0, i)).to_owned();
        let modifier = trim_str(t.substring_char(i + 1, n));
        KeySpec { name, convert_to_bytes: is_bytes_modifier(modifier) }
    }
}

/// The key specifications parsed from the comma-separated entries of `s`,
/// with entries whose resolved name is empty skipped.
pub open spec fn key_specs_of_entries(entries: Seq<Seq<char>>) -> Seq<(Seq<char>, bool)>
    decreases entries.len(),
{
    if entries.len() == 0 {
        Seq::empty()
    } else {
        let rest = key_specs_of_entries(entries.drop_last());
        let k = key_spec_of(entries.last());
        if k.0.len() > 0 {
            rest.push(k)
        } else {
            rest
        }
    }
}

/// What `parse_key_specs` yields for the whole specification string.
pub open spec fn key_specs_of(s: Seq<char>) -> Seq<(Seq<char>, bool)> {
    key_specs_of_entries(split_on(s, ','))
}

/// Parses a whole comma-separated key specification, skipping entries whose
/// name resolves to empty.
pub fn parse_key_specs(s: &str) -> (r: Vec<KeySpec>)
    ensures
        specs_view(r@) == key_specs_of(s@),
{
    let entries = split_str(s, ',');
    let mut out: Vec<KeySpec> = Vec::new();
    proof {
        assert(specs_view(out@) =~= key_specs_of_entries(split_on(s@, ',').subrange(0, 0)));
    }
    let mut i: usize = 0;
    while i < entries.len()
        invariant
            strs_view(entries@) == split_on(s@, ','),
            0 <= i <= entries@.len(),
            specs_view(out@) == key_specs_of_entries(split_on(s@, ',').subrange(0, i as int)),
        decreases entries@.len() - i,
    {
        let ghost all = split_on(s@, ',');
        let ghost pre = all.subrange(0, i as int);
        let ghost post = all.subrange(0, i + 1);
        proof {
            assert(post.drop_last() =~= pre);
            assert(post.last() == all[i as int]);
            assert(entries@[i as int]@ == all[i as int]);
        }
        let k = parse_key_spec(entries[i].as_str());
        if !k.name.as_str().is_empty() {
            out.push(k);
        }
        proof {
            assert(specs_view(out@) =~= key_specs_of_entries(post));
        }
        i = i + 1;
    }
    proof {
        assert(split_on(s@, ',').subrange(0, split_on(s@, ',').len() as int) =~= split_on(
            s@,
            ',',
        ));
    }
    out
}

} // verus!

//! The deterministic serializer: selects each profile's requested fields,
//! converts sizes where asked, sorts fields alphabetically, escapes every
//! string, and renders the whole engine structure as the PHP artifact.

use vstd::prelude::*;
use vstd::seq_lib::lemma_multiset_commutative;
use crate::config::ConfigMap;
use crate::engines::EngineData;
use crate::engines::EngineDataV;
use crate::engines::engines_view;
use crate::escape::escaped;
use crate::escape::php_escape;
use crate::keyspec::KeySpec;
use crate::keyspec::specs_view;
use crate::sizes::dec_digits;
use crate::sizes::h2b;
use crate::sizes::human_to_bytes;
use crate::sizes::u64_to_dec;
use crate::text::lex_le;
use crate::text::lemma_lex_refl;
use crate::text::lemma_lex_total;
use crate::text::lemma_lex_trans;
use crate::text::str_le;

verus! {

/// The views of a sequence of owned field pairs.
pub open spec fn pairs_view(v: Seq<(String, String)>) -> Seq<(Seq<char>, Seq<char>)> {
    v.map_values(|p: (String, String)| (p.0@, p.1@))
}

/// The output fields gathered from the first `j` key specifications: for each
/// specification whose name is present in the profile, the name paired with
/// the (possibly size-converted) value.
pub open spec fn params_upto(
    m: Map<Seq<char>, Seq<char>>,
    specs: Seq<(Seq<char>, bool)>,
    j: int,
) -> Seq<(Seq<char>, Seq<char>)>
    decreases j,
{
    if j <= 0 {
        Seq::empty()
    } else {
        let rest = params_upto(m, specs, j - 1);
        let sp = specs[j - 1];
        if m.contains_key(sp.0) {
            rest.push((sp.0, if sp.1 { h2b(m[sp.0]) } else { m[sp.0] }))
        } else {
            rest
        }
    }
}

/// The output fields of one profile, in key-specification order.
pub open spec fn profile_params(
    m: Map<Seq<char>, Seq<char>>,
    specs: Seq<(Seq<char>, bool)>,
) -> Seq<(Seq<char>, Seq<char>)> {
    params_upto(m, specs, specs.len() as int)
}

/// `p` placed before the first element of `s` whose name is at or after
/// `p`'s.
pub open spec fn insert_pair(
    p: (Seq<char>, Seq<char>),
    s: Seq<(Seq<char>, Seq<char>)>,
) -> Seq<(Seq<char>, Seq<char>)>
    decreases s.len(),
{
    if s.len() == 0 {
        seq![p]
    } else if lex_le(p.0, s[0].0) {
        seq![p] + s
    } else {
        seq![s[0]] + insert_pair(p, s.subrange(1, s.len() as int))
    }
}

/// Insertion sort of the first `j` elements of `s`.
pub open spec fn sort_upto(s: Seq<(Seq<char>, Seq<char>)>, j: int) -> Seq<(Seq<char>, Seq<char>)>
    decreases j,
{
    if j <= 0 {
        Seq::empty()
    } else {
        insert_pair(s[j - 1], sort_upto(s, j - 1))
    }
}

/// `s` sorted by field name, lexicographically.
pub open spec fn sort_pairs(s: Seq<(Seq<char>, Seq<char>)>) -> Seq<(Seq<char>, Seq<char>)> {
    sort_upto(s, s.len() as int)
}

/// Whether the field names of `s` appear in lexicographic order.
pub open spec fn sorted_by_name(s: Seq<(Seq<char>, Seq<char>)>) -> bool {
    forall|i: int, j: int| 0 <= i <= j < s.len() ==> lex_le(s[i].0, s[j].0)
}

proof fn lemma_insert_pair(p: (Seq<char>, Seq<char>), s: Seq<(Seq<char>, Seq<char>)>)
    requires
        sorted_by_name(s),
    ensures
        insert_pair(p, s).len() == s.len() + 1,
        sorted_by_name(insert_pair(p, s)),
        insert_pair(p, s).to_multiset() == s.to_multiset().insert(p),
        forall|l: int|
            0 <= l < insert_pair(p, s).len() ==> insert_pair(p, s)[l] == p || s.contains(
                #[trigger] insert_pair(p, s)[l],
            ),
    decreases s.len(),
{
    broadcast use vstd::seq_lib::group_to_multiset_ensures;

    let r = insert_pair(p, s);
    lemma_lex_refl(p.0);
    if s.len() == 0 {
        assert(seq![p] =~= Seq::<(Seq<char>, Seq<char>)>::empty().push(p));
        assert(r.to_multiset() =~= s.to_multiset().insert(p));
    } else if lex_le(p.0, s[0].0) {
        assert forall|i: int, j: int| 0 <= i <= j < r.len() implies lex_le(r[i].0, r[j].0) by {
            if i == 0 && j == 0 {
                assert(lex_le(p.0, p.0));
            } else if i == 0 && j > 0 {
                assert(r[j] == s[j - 1]);
                assert(lex_le(s[0].0, s[j - 1].0));
                lemma_lex_trans(p.0, s[0].0, s[j - 1].0);
            } else if i > 0 {
                assert(r[i] == s[i - 1]);
                assert(r[j] == s[j - 1]);
            }
        }
        assert(seq![p] + s =~= s.insert(0, p));
        assert(s.insert(0, p).to_multiset() =~= s.to_multiset().insert(p)) by {
            assert(s.insert(0, p).remove(0) =~= s);
            assert(s.insert(0, p).to_multiset().remove(p) =~= s.to_multiset());
            assert(s.insert(0, p)[0] == p);
            assert(s.insert(0, p).to_multiset().count(p) > 0);
        }
    } else {
        let tail = s.subrange(1, s.len() as int);
        assert(sorted_by_name(tail)) by {
            assert(forall|i: int, j: int|
                0 <= i <= j < tail.len() ==> lex_le(
                    #[trigger] tail[i].0,
                    #[trigger] tail[j].0,
                ));
        }
        lemma_insert_pair(p, tail);
        let rt = insert_pair(p, tail);
        lemma_lex_total(p.0, s[0].0);
        assert forall|i: int, j: int| 0 <= i <= j < r.len() implies lex_le(r[i].0, r[j].0) by {
            if i == 0 && j > 0 {
                assert(r[j] == rt[j - 1]);
                if rt[j - 1] == p {
                    assert(lex_le(s[0].0, p.0));
                } else {
                    assert(tail.contains(rt[j - 1]));
                    let w = choose|w: int| 0 <= w < tail.len() && tail[w] == rt[j - 1];
                    assert(lex_le(s[0].0, s[w + 1].0));
                }
            } else if i > 0 {
                assert(r[i] == rt[i - 1]);
                assert(r[j] == rt[j - 1]);
            }
        }
        assert(s =~= seq![s[0]] + tail);
        lemma_multiset_commutative(seq![s[0]], tail);
        lemma_multiset_commutative(seq![s[0]], rt);
        assert(r.to_multiset() =~= s.to_multiset().insert(p));
        assert forall|l: int| 0 <= l < r.len() implies r[l] == p || s.contains(
            #[trigger] r[l],
        ) by {
            if l == 0 {
                assert(r[0] == s[0]);
                assert(s.contains(s[0]));
            } else {
                assert(r[l] == rt[l - 1]);
                if rt[l - 1] != p {
                    assert(tail.contains(rt[l - 1]));
                    let w = choose|w: int| 0 <= w < tail.len() && tail[w] == rt[l - 1];
                    assert(s[w + 1] == tail[w]);
                }
            }
        }
    }
}

/// Sorting arranges exactly the gathered fields — the same multiset — into
/// lexicographic order by field name: the emitted order is alphabetical
/// whatever order the key specification listed the names in.
pub proof fn lemma_sort_pairs(s: Seq<(Seq<char>, Seq<char>)>)
    ensures
        sort_pairs(s).len() == s.len(),
        sorted_by_name(sort_pairs(s)),
        sort_pairs(s).to_multiset() == s.to_multiset(),
{
    lemma_sort_upto(s, s.len() as int);
    broadcast use vstd::seq_lib::group_to_multiset_ensures;

    assert(s.subrange(0, s.len() as int) =~= s);
}

proof fn lemma_sort_upto(s: Seq<(Seq<char>, Seq<char>)>, j: int)
    requires
        0 <= j <= s.len(),
    ensures
        sort_upto(s, j).len() == j,
        sorted_by_name(sort_upto(s, j)),
        sort_upto(s, j).to_multiset() == s.subrange(0, j).to_multiset(),
    decreases j,
{
    broadcast use vstd::seq_lib::group_to_multiset_ensures;

    if j <= 0 {
        assert(s.subrange(0, 0) =~= Seq::<(Seq<char>, Seq<char>)>::empty());
        assert(sort_upto(s, j).to_multiset() =~= s.subrange(0, 0).to_multiset());
    } else {
        lemma_sort_upto(s, j - 1);
        lemma_insert_pair(s[j - 1], sort_upto(s, j - 1));
        assert(s.subrange(0, j).drop_last() =~= s.subrange(0, j - 1));
        assert(s.subrange(0, j) =~= s.subrange(0, j - 1).push(s[j - 1]));
    }
}

/// The index before which `p` is inserted to keep `v` name-sorted: the first
/// whose name is at or after `p`'s.
fn find_insert_pos(p: &String, v: &Vec<(String, String)>) -> (j: usize)
    ensures
        0 <= j <= v@.len(),
        forall|l: int| 0 <= l < j ==> !lex_le(p@, pairs_view(v@)[l].0),
        j < v@.len() ==> lex_le(p@, pairs_view(v@)[j as int].0),
{
    let mut j: usize = 0;
    loop
        invariant
            0 <= j <= v@.len(),
            forall|l: int| 0 <= l < j ==> !lex_le(p@, pairs_view(v@)[l].0),
        ensures
            0 <= j <= v@.len(),
            forall|l: int| 0 <= l < j ==> !lex_le(p@, pairs_view(v@)[l].0),
            j < v@.len() ==> lex_le(p@, pairs_view(v@)[j as int].0),
        decreases v@.len() - j,
    {
        if j >= v.len() {
            break;
        }
        proof {
            assert(pairs_view(v@)[j as int] == (v@[j as int].0@, v@[j as int].1@));
        }
        if str_le(p.as_str(), v[j].0.as_str()) {
            break;
        }
        j = j + 1;
    }
    j
}

/// Inserts `p` into the name-sorted `v`, keeping it sorted.
fn insert_sorted(v: &mut Vec<(String, String)>, p: (String, String))
    ensures
        pairs_view(final(v)@) == insert_pair((p.0@, p.1@), pairs_view(old(v)@)),
{
    let ghost sv = pairs_view(v@);
    let ghost pv = (p.0@, p.1@);
    let j = find_insert_pos(&p.0, v);
    proof {
        lemma_insert_pair_at(pv, sv, j as int);
    }
    v.insert(j, p);
    proof {
        assert(pairs_view(v@) =~= sv.subrange(0, j as int) + seq![pv] + sv.subrange(
            j as int,
            sv.len() as int,
        ));
    }
}

proof fn lemma_insert_pair_at(
    p: (Seq<char>, Seq<char>),
    s: Seq<(Seq<char>, Seq<char>)>,
    j: int,
)
    requires
        0 <= j <= s.len(),
        forall|l: int| 0 <= l < j ==> !lex_le(p.0, s[l].0),
        j < s.len() ==> lex_le(p.0, s[j].0),
    ensures
        insert_pair(p, s) == s.subrange(0, j) + seq![p] + s.subrange(j, s.len() as int),
    decreases j,
{
    if j == 0 {
        if s.len() == 0 {
            assert(insert_pair(p, s) =~= s.subrange(0, 0) + seq![p] + s.subrange(
                0,
                s.len() as int,
            ));
        } else {
            assert(s.subrange(0, s.len() as int) =~= s);
            assert(insert_pair(p, s) =~= s.subrange(0, 0) + seq![p] + s.subrange(
                0,
                s.len() as int,
            ));
        }
    } else {
        let tail = s.subrange(1, s.len() as int);
        lemma_insert_pair_at(p, tail, j - 1);
        assert(tail.subrange(0, j - 1) =~= s.subrange(1, j));
        assert(tail.subrange(j - 1, tail.len() as int) =~= s.subrange(j, s.len() as int));
        assert(seq![s[0]] + (s.subrange(1, j) + seq![p] + s.subrange(j, s.len() as int)) =~= s
            .subrange(0, j) + seq![p] + s.subrange(j, s.len() as int));
    }
}

/// The requested output fields of one profile, sorted alphabetically by
/// field name, with values converted to bytes where the specification asks
/// for it.
pub fn profile_fields(m: &ConfigMap, specs: &Vec<KeySpec>) -> (r: Vec<(String, String)>)
    ensures
        pairs_view(r@) == sort_pairs(profile_params(m@, specs_view(specs@))),
        sorted_by_name(pairs_view(r@)),
{
    let ghost sv = specs_view(specs@);
    let mut gathered: Vec<(String, String)> = Vec::new();
    proof {
        assert(pairs_view(gathered@) =~= params_upto(m@, sv, 0));
    }
    let mut i: usize = 0;
    while i < specs.len()
        invariant
            sv == specs_view(specs@),
            0 <= i <= specs@.len(),
            pairs_view(gathered@) == params_upto(m@, sv, i as int),
        decreases specs@.len() - i,
    {
        proof {
            assert(specs@[i as int]@ == sv[i as int]);
        }
        match m.get(specs[i].name.as_str()) {
            Some(value) => {
                let out_value = if specs[i].convert_to_bytes {
                    human_to_bytes(value.as_str())
                } else {
                    value.clone()
                };
                gathered.push((specs[i].name.clone(), out_value));
            },
            None => {},
        }
        proof {
            assert(pairs_view(gathered@) =~= params_upto(m@, sv, i + 1));
        }
        i = i + 1;
    }
    let ghost gv = pairs_view(gathered@);
    let mut sorted: Vec<(String, String)> = Vec::new();
    let mut gathered = gathered;
    proof {
        assert(pairs_view(sorted@) =~= sort_upto(gv, 0));
    }
    let ghost mut k: int = 0;
    while gathered.len() > 0
        invariant
            gv == profile_params(m@, specs_view(specs@)),
            0 <= k,
            k + gathered@.len() == gv.len(),
            pairs_view(gathered@) =~= gv.subrange(k, gv.len() as int),
            pairs_view(sorted@) == sort_upto(gv, k),
        decreases gathered@.len(),
    {
        let ghost gold = gathered@;
        let ghost gpre = pairs_view(gathered@);
        let p = gathered.remove(0);
        proof {
            assert(pairs_view(gathered@) =~= gpre.subrange(1, gpre.len() as int));
            assert(gpre[0] == (gold[0].0@, gold[0].1@));
            assert((p.0@, p.1@) == gv[k]);
        }
        insert_sorted(&mut sorted, p);
        proof {
            assert(pairs_view(sorted@) == sort_upto(gv, k + 1));
            k = k + 1;
            assert(pairs_view(gathered@) =~= gv.subrange(k, gv.len() as int));
        }
    }
    proof {
        lemma_sort_upto(gv, gv.len() as int);
        assert(pairs_view(sorted@) == sort_pairs(gv));
        lemma_sort_pairs(gv);
    }
    sorted
}

/// The six optional global limit values, already size-converted where the
/// pipeline calls for it; an absent or empty value is simply not emitted.
pub struct Limits {
    pub vm_cpus_max: Option<String>,
    pub vm_cpus_min: Option<String>,
    pub vm_ram_max: Option<String>,
    pub vm_ram_min: Option<String>,
    pub imgsize_max: Option<String>,
    pub imgsize_min: Option<String>,
}

/// The mathematical content of [`Limits`].
#[verifier::ext_equal]
pub struct LimitsV {
    pub vm_cpus_max: Option<Seq<char>>,
    pub vm_cpus_min: Option<Seq<char>>,
    pub vm_ram_max: Option<Seq<char>>,
    pub vm_ram_min: Option<Seq<char>>,
    pub imgsize_max: Option<Seq<char>>,
    pub imgsize_min: Option<Seq<char>>,
}

/// The view of an optional owned string.
pub open spec fn opt_view(o: Option<String>) -> Option<Seq<char>> {
    match o {
        Option::Some(s) => Option::Some(s@),
        Option::None => Option::None,
    }
}

impl View for Limits {
    type V = LimitsV;

    open spec fn view(&self) -> LimitsV {
        LimitsV {
            vm_cpus_max: opt_view(self.vm_cpus_max),
            vm_cpus_min: opt_view(self.vm_cpus_min),
            vm_ram_max: opt_view(self.vm_ram_max),
            vm_ram_min: opt_view(self.vm_ram_min),
            imgsize_max: opt_view(self.imgsize_max),
            imgsize_min: opt_view(self.imgsize_min),
        }
    }
}

/// One emitted field: its escaped name and escaped value.
pub open spec fn render_field(p: (Seq<char>, Seq<char>)) -> Seq<char> {
    "\""@ + escaped(p.0) + "\"=>\""@ + escaped(p.1) + "\""@
}

/// The first `j` fields of a profile, comma-separated: a comma stands only
/// between elements, never after the last.
pub open spec fn render_fields_upto(ps: Seq<(Seq<char>, Seq<char>)>, j: int) -> Seq<char>
    decreases j,
{
    if j <= 0 {
        Seq::empty()
    } else {
        render_fields_upto(ps, j - 1) + (if j == 1 {
            Seq::<char>::empty()
        } else {
            ","@
        }) + render_field(ps[j - 1])
    }
}

/// All fields of a profile, comma-separated.
pub open spec fn render_fields(ps: Seq<(Seq<char>, Seq<char>)>) -> Seq<char> {
    render_fields_upto(ps, ps.len() as int)
}

/// One profile under its synthetic positional name `p<idx>`, holding its
/// sorted, filtered, escaped fields.
pub open spec fn render_profile(
    m: Map<Seq<char>, Seq<char>>,
    specs: Seq<(Seq<char>, bool)>,
    idx: int,
    is_last: bool,
) -> Seq<char> {
    "\t\t\t\"p"@ + dec_digits(idx) + "\"=>["@ + render_fields(
        sort_pairs(profile_params(m, specs)),
    ) + (if is_last {
        "]\n"@
    } else {
        "],\n"@
    })
}

/// The first `j` of `total` profiles, each under its index.
pub open spec fn render_profiles_upto(
    ps: Seq<Map<Seq<char>, Seq<char>>>,
    specs: Seq<(Seq<char>, bool)>,
    j: int,
    total: int,
) -> Seq<char>
    decreases j,
{
    if j <= 0 {
        Seq::empty()
    } else {
        render_profiles_upto(ps, specs, j - 1, total) + render_profile(
            ps[j - 1],
            specs,
            j - 1,
            j == total,
        )
    }
}

/// One optional limit line: present values are emitted escaped under their
/// label, absent ones not at all.
pub open spec fn render_limit(label: Seq<char>, v: Option<Seq<char>>) -> Seq<char> {
    match v {
        Option::None => Seq::empty(),
        Option::Some(x) => "\t\t\""@ + label + "\"=>\""@ + escaped(x) + "\",\n"@,
    }
}

/// The six optional limit lines, in their fixed order.
pub open spec fn render_limits(l: LimitsV) -> Seq<char> {
    render_limit("vm_cpus_max"@, l.vm_cpus_max) + render_limit("vm_cpus_min"@, l.vm_cpus_min)
        + render_limit("vm_ram_max"@, l.vm_ram_max) + render_limit("vm_ram_min"@, l.vm_ram_min)
        + render_limit("imgsize_max"@, l.imgsize_max) + render_limit(
        "imgsize_min"@,
        l.imgsize_min,
    )
}

/// The opening of one engine entry: its identifier line, the escaped
/// metadata lines, and the profile count.
pub open spec fn render_engine_head(e: EngineDataV) -> Seq<char> {
    "\t\""@ + e.id + "\"=>[\n"@ + "\t\t\"name\"=>\""@ + escaped(e.name) + "\",\n"@
        + "\t\t\"description\"=>\""@ + escaped(e.description) + "\",\n"@ + "\t\t\"prefix\"=>\""@
        + escaped(e.prefix) + "\",\n"@ + "\t\t\"count\"=>\""@ + dec_digits(
        e.profiles.len() as int,
    ) + "\",\n"@
}

/// The `data` section of one engine: empty brackets for no profiles, the
/// indexed profile entries otherwise.
pub open spec fn render_data(e: EngineDataV, specs: Seq<(Seq<char>, bool)>) -> Seq<char> {
    if e.profiles.len() == 0 {
        "\t\t\"data\"=>[],\n"@
    } else {
        "\t\t\"data\"=>[\n"@ + render_profiles_upto(
            e.profiles,
            specs,
            e.profiles.len() as int,
            e.profiles.len() as int,
        ) + "\t\t],\n"@
    }
}

/// The closing bracket of one engine entry: a comma only between engines.
pub open spec fn render_engine_tail(is_last: bool) -> Seq<char> {
    if is_last {
        "\t]\n"@
    } else {
        "\t],\n"@
    }
}

/// One engine entry: metadata, profile count, optional limits, and the
/// `data` section with its profiles; the identifier is emitted as it stands,
/// the metadata strings escaped.
pub open spec fn render_engine(
    e: EngineDataV,
    specs: Seq<(Seq<char>, bool)>,
    limits: LimitsV,
    is_last: bool,
) -> Seq<char> {
    render_engine_head(e) + render_limits(limits) + render_data(e, specs) + render_engine_tail(
        is_last,
    )
}

/// The first `j` engine entries.
pub open spec fn render_engines_upto(
    es: Seq<EngineDataV>,
    specs: Seq<(Seq<char>, bool)>,
    limits: LimitsV,
    j: int,
) -> Seq<char>
    decreases j,
{
    if j <= 0 {
        Seq::empty()
    } else {
        render_engines_upto(es, specs, limits, j - 1) + render_engine(
            es[j - 1],
            specs,
            limits,
            j == es.len(),
        )
    }
}

/// The whole artifact: the PHP header, every engine in request order, and
/// the closing bracket.
pub open spec fn render_output(
    es: Seq<EngineDataV>,
    specs: Seq<(Seq<char>, bool)>,
    limits: LimitsV,
) -> Seq<char> {
    "<?php\n"@ + "ClonOS::$engines=[\n"@ + render_engines_upto(es, specs, limits, es.len() as int)
        + "];\n"@
}

/// Appends one optional limit line.
fn append_limit(out: &mut String, label: &str, v: &Option<String>)
    ensures
        final(out)@ == old(out)@ + render_limit(label@, opt_view(*v)),
{
    match v {
        Some(x) => {
            out.append("\t\t\"");
            out.append(label);
            out.append("\"=>\"");
            let esc = php_escape(x.as_str());
            out.append(esc.as_str());
            out.append("\",\n");
            proof {
                assert(out@ =~= old(out)@ + render_limit(label@, opt_view(*v)));
            }
        },
        None => {
            proof {
                assert(out@ =~= old(out)@ + render_limit(label@, opt_view(*v)));
            }
        },
    }
}

/// Appends one profile entry.
fn append_profile(
    out: &mut String,
    m: &ConfigMap,
    specs: &Vec<KeySpec>,
    idx: usize,
    is_last: bool,
)
    ensures
        final(out)@ == old(out)@ + render_profile(m@, specs_view(specs@), idx as int, is_last),
{
    let ghost sv = specs_view(specs@);
    out.append("\t\t\t\"p");
    let num = u64_to_dec(idx as u64);
    out.append(num.as_str());
    out.append("\"=>[");
    let ghost base = out@;
    let fields = profile_fields(m, specs);
    let ghost fv = pairs_view(fields@);
    let mut j: usize = 0;
    while j < fields.len()
        invariant
            fv == pairs_view(fields@),
            fv == sort_pairs(profile_params(m@, sv)),
            0 <= j <= fields@.len(),
            out@ == base + render_fields_upto(fv, j as int),
        decreases fields@.len() - j,
    {
        proof {
            assert(fv[j as int] == (fields@[j as int].0@, fields@[j as int].1@));
        }
        if j > 0 {
            out.append(",");
        }
        out.append("\"");
        let ek = php_escape(fields[j].0.as_str());
        out.append(ek.as_str());
        out.append("\"=>\"");
        let ev = php_escape(fields[j].1.as_str());
        out.append(ev.as_str());
        out.append("\"");
        proof {
            assert(out@ =~= base + render_fields_upto(fv, j + 1));
        }
        j = j + 1;
    }
    if is_last {
        out.append("]\n");
    } else {
        out.append("],\n");
    }
    proof {
        assert(out@ =~= old(out)@ + render_profile(m@, sv, idx as int, is_last));
    }
}

/// Appends the opening of one engine entry.
fn append_engine_head(out: &mut String, e: &EngineData)
    ensures
        final(out)@ == old(out)@ + render_engine_head(e@),
{
    out.append("\t\"");
    out.append(e.id.as_str());
    out.append("\"=>[\n");
    out.append("\t\t\"name\"=>\"");
    let en = php_escape(e.name.as_str());
    out.append(en.as_str());
    out.append("\",\n");
    out.append("\t\t\"description\"=>\"");
    let ed = php_escape(e.description.as_str());
    out.append(ed.as_str());
    out.append("\",\n");
    out.append("\t\t\"prefix\"=>\"");
    let ep = php_escape(e.prefix.as_str());
    out.append(ep.as_str());
    out.append("\",\n");
    out.append("\t\t\"count\"=>\"");
    let cnt = u64_to_dec(e.profiles.len() as u64);
    out.append(cnt.as_str());
    out.append("\",\n");
    proof {
        assert(out@ =~= old(out)@ + render_engine_head(e@));
    }
}

/// Appends the six optional limit lines.
fn append_limits(out: &mut String, limits: &Limits)
    ensures
        final(out)@ == old(out)@ + render_limits(limits@),
{
    append_limit(out, "vm_cpus_max", &limits.vm_cpus_max);
    append_limit(out, "vm_cpus_min", &limits.vm_cpus_min);
    append_limit(out, "vm_ram_max", &limits.vm_ram_max);
    append_limit(out, "vm_ram_min", &limits.vm_ram_min);
    append_limit(out, "imgsize_max", &limits.imgsize_max);
    append_limit(out, "imgsize_min", &limits.imgsize_min);
    proof {
        assert(out@ =~= old(out)@ + render_limits(limits@));
    }
}

/// Appends the `data` section of one engine.
fn append_data(out: &mut String, e: &EngineData, specs: &Vec<KeySpec>)
    ensures
        final(out)@ == old(out)@ + render_data(e@, specs_view(specs@)),
{
    let ghost sv = specs_view(specs@);
    let total = e.profiles.len();
    if total == 0 {
        out.append("\t\t\"data\"=>[],\n");
    } else {
        out.append("\t\t\"data\"=>[\n");
        let ghost base = out@;
        let mut pi: usize = 0;
        while pi < total
            invariant
                sv == specs_view(specs@),
                total == e.profiles@.len(),
                0 <= pi <= total,
                out@ == base + render_profiles_upto(
                    e@.profiles,
                    sv,
                    pi as int,
                    total as int,
                ),
            decreases total - pi,
        {
            proof {
                assert(e@.profiles[pi as int] == e.profiles@[pi as int]@);
            }
            append_profile(out, &e.profiles[pi], specs, pi, pi + 1 == total);
            proof {
                assert(out@ =~= base + render_profiles_upto(
                    e@.profiles,
                    sv,
                    pi + 1,
                    total as int,
                ));
            }
            pi = pi + 1;
        }
        out.append("\t\t],\n");
        proof {
            assert(out@ =~= old(out)@ + render_data(e@, sv));
        }
    }
}

/// Appends one engine entry.
fn append_engine(
    out: &mut String,
    e: &EngineData,
    specs: &Vec<KeySpec>,
    limits: &Limits,
    is_last: bool,
)
    ensures
        final(out)@ == old(out)@ + render_engine(e@, specs_view(specs@), limits@, is_last),
{
    append_engine_head(out, e);
    append_limits(out, limits);
    append_data(out, e, specs);
    if is_last {
        out.append("\t]\n");
    } else {
        out.append("\t],\n");
    }
    proof {
        assert(out@ =~= old(out)@ + render_engine(e@, specs_view(specs@), limits@, is_last));
    }
}

/// Serializes the aggregated engines, the key specification's output fields,
/// and the optional limits into the complete PHP artifact.
pub fn emit_config(engines: &Vec<EngineData>, specs: &Vec<KeySpec>, limits: &Limits) -> (r:
    String)
    ensures
        r@ == render_output(engines_view(engines@), specs_view(specs@), limits@),
{
    let ghost ev = engines_view(engines@);
    let ghost sv = specs_view(specs@);
    let mut out = String::new();
    out.append("<?php\n");
    out.append("ClonOS::$engines=[\n");
    let ghost base = out@;
    proof {
        assert(base =~= "<?php\n"@ + "ClonOS::$engines=[\n"@);
    }
    let mut i: usize = 0;
    while i < engines.len()
        invariant
            ev == engines_view(engines@),
            sv == specs_view(specs@),
            base == "<?php\n"@ + "ClonOS::$engines=[\n"@,
            0 <= i <= engines@.len(),
            out@ == base + render_engines_upto(ev, sv, limits@, i as int),
        decreases engines@.len() - i,
    {
        proof {
            assert(ev[i as int] == engines@[i as int]@);
        }
        append_engine(&mut out, &engines[i], specs, limits, i + 1 == engines.len());
        proof {
            assert(out@ =~= base + render_engines_upto(ev, sv, limits@, i + 1));
        }
        i = i + 1;
    }
    out.append("];\n");
    proof {
        assert(out@ =~= render_output(ev, sv, limits@));
    }
    out
}

} // verus!

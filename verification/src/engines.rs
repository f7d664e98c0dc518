//! The static engine registry and the profile aggregator: a profile belongs
//! to an engine exactly when its `<engine-id>_active` field is the literal
//! string `1`.

use vstd::prelude::*;
use crate::config::ConfigMap;
use crate::text::str_eq;
use crate::text::strs_view;

verus! {

/// The mathematical content of an [`EngineData`]: its identifier, display
/// metadata, and the mappings of its aggregated profiles, in file order.
#[verifier::ext_equal]
pub struct EngineDataV {
    pub id: Seq<char>,
    pub name: Seq<char>,
    pub description: Seq<char>,
    pub prefix: Seq<char>,
    pub profiles: Seq<Map<Seq<char>, Seq<char>>>,
}

/// One engine with its display metadata and aggregated profiles.
pub struct EngineData {
    pub id: String,
    pub name: String,
    pub description: String,
    pub prefix: String,
    pub profiles: Vec<ConfigMap>,
}

impl View for EngineData {
    type V = EngineDataV;

    open spec fn view(&self) -> EngineDataV {
        EngineDataV {
            id: self.id@,
            name: self.name@,
            description: self.description@,
            prefix: self.prefix@,
            profiles: self.profiles@.map_values(|c: ConfigMap| c@),
        }
    }
}

/// The views of a sequence of engines.
pub open spec fn engines_view(v: Seq<EngineData>) -> Seq<EngineDataV> {
    v.map_values(|e: EngineData| e@)
}

/// The views of a sequence of parsed configurations.
pub open spec fn cfgs_view(v: Seq<ConfigMap>) -> Seq<Map<Seq<char>, Seq<char>>> {
    v.map_values(|c: ConfigMap| c@)
}

/// The closed set of recognized engine identifiers.
pub open spec fn is_known_engine(id: Seq<char>) -> bool {
    id == "bhyve"@ || id == "xen"@ || id == "qemu"@
}

/// The display name of a known engine: its identifier.
pub open spec fn engine_name(id: Seq<char>) -> Seq<char> {
    id
}

/// The description of a known engine.
pub open spec fn engine_description(id: Seq<char>) -> Seq<char> {
    if id == "bhyve"@ {
        "Native FreeBSD hypervisor"@
    } else if id == "xen"@ {
        "XEN type-1 hypervisor"@
    } else {
        "QEMU hypervisor"@
    }
}

/// The single-character prefix of a known engine.
pub open spec fn engine_prefix(id: Seq<char>) -> Seq<char> {
    if id == "bhyve"@ {
        "b"@
    } else if id == "xen"@ {
        "x"@
    } else {
        "q"@
    }
}

/// The display metadata for the engine `id`: its name, description, and
/// prefix, or nothing when `id` is not a recognized engine.
pub fn get_engine_metadata(id: &str) -> (r: Option<(String, String, String)>)
    ensures
        match r {
            Some(t) => is_known_engine(id@) && t.0@ == engine_name(id@) && t.1@
                == engine_description(id@) && t.2@ == engine_prefix(id@),
            None => !is_known_engine(id@),
        },
{
    proof {
        reveal_strlit("bhyve");
        reveal_strlit("xen");
        reveal_strlit("qemu");
    }
    if str_eq(id, "bhyve") {
        Some(("bhyve".to_owned(), "Native FreeBSD hypervisor".to_owned(), "b".to_owned()))
    } else if str_eq(id, "xen") {
        Some(("xen".to_owned(), "XEN type-1 hypervisor".to_owned(), "x".to_owned()))
    } else if str_eq(id, "qemu") {
        Some(("qemu".to_owned(), "QEMU hypervisor".to_owned(), "q".to_owned()))
    } else {
        None
    }
}

/// A just-registered engine: metadata filled in, no profiles yet.
pub open spec fn fresh_engine(id: Seq<char>) -> EngineDataV {
    EngineDataV {
        id: id,
        name: engine_name(id),
        description: engine_description(id),
        prefix: engine_prefix(id),
        profiles: Seq::empty(),
    }
}

/// One fresh engine per identifier.
pub open spec fn fresh_engines_of(ids: Seq<Seq<char>>) -> Seq<EngineDataV> {
    ids.map_values(|id: Seq<char>| fresh_engine(id))
}

/// The recognized identifiers of `ids`, in order.
pub open spec fn known_ids(ids: Seq<Seq<char>>) -> Seq<Seq<char>>
    decreases ids.len(),
{
    if ids.len() == 0 {
        Seq::empty()
    } else {
        let rest = known_ids(ids.drop_last());
        if is_known_engine(ids.last()) {
            rest.push(ids.last())
        } else {
            rest
        }
    }
}

/// The unrecognized identifiers of `ids`, in order.
pub open spec fn unknown_ids(ids: Seq<Seq<char>>) -> Seq<Seq<char>>
    decreases ids.len(),
{
    if ids.len() == 0 {
        Seq::empty()
    } else {
        let rest = unknown_ids(ids.drop_last());
        if is_known_engine(ids.last()) {
            rest
        } else {
            rest.push(ids.last())
        }
    }
}

/// An identifier outside the registry is dropped: it never appears among the
/// registered engines, whatever else was requested.
pub proof fn lemma_unknown_engine_dropped(ids: Seq<Seq<char>>, bad: Seq<char>)
    requires
        !is_known_engine(bad),
    ensures
        !known_ids(ids).contains(bad),
    decreases ids.len(),
{
    if ids.len() > 0 {
        lemma_unknown_engine_dropped(ids.drop_last(), bad);
    }
}

proof fn lemma_engines_view_push(v: Seq<EngineData>, e: EngineData)
    ensures
        engines_view(v.push(e)) == engines_view(v).push(e@),
{
    assert forall|l: int| 0 <= l < v.push(e).len() implies engines_view(v.push(e))[l]
        == engines_view(v).push(e@)[l] by {
        if l < v.len() {
            assert(v.push(e)[l] == v[l]);
        } else {
            assert(v.push(e)[l] == e);
        }
    }
    assert(engines_view(v.push(e)) =~= engines_view(v).push(e@));
}

proof fn lemma_fresh_engines_push(s: Seq<Seq<char>>, x: Seq<char>)
    ensures
        fresh_engines_of(s.push(x)) == fresh_engines_of(s).push(fresh_engine(x)),
{
    assert forall|l: int| 0 <= l < s.push(x).len() implies fresh_engines_of(s.push(x))[l]
        == fresh_engines_of(s).push(fresh_engine(x))[l] by {
        if l < s.len() {
            assert(s.push(x)[l] == s[l]);
        } else {
            assert(s.push(x)[l] == x);
        }
    }
    assert(fresh_engines_of(s.push(x)) =~= fresh_engines_of(s).push(fresh_engine(x)));
}

/// Builds the engine list for the requested identifiers, in request order:
/// one fresh engine per recognized identifier, and, separately, the
/// unrecognized identifiers that were dropped.
pub fn build_engines(ids: &Vec<String>) -> (r: (Vec<EngineData>, Vec<String>))
    ensures
        engines_view(r.0@) == fresh_engines_of(known_ids(strs_view(ids@))),
        strs_view(r.1@) == unknown_ids(strs_view(ids@)),
{
    let ghost all = strs_view(ids@);
    let mut engines: Vec<EngineData> = Vec::new();
    let mut skipped: Vec<String> = Vec::new();
    proof {
        assert(all.subrange(0, 0) =~= Seq::<Seq<char>>::empty());
        assert(engines_view(engines@) =~~= fresh_engines_of(known_ids(all.subrange(0, 0))));
        assert(strs_view(skipped@) =~= unknown_ids(all.subrange(0, 0)));
    }
    let mut i: usize = 0;
    while i < ids.len()
        invariant
            all == strs_view(ids@),
            0 <= i <= ids@.len(),
            engines_view(engines@) == fresh_engines_of(known_ids(all.subrange(0, i as int))),
            strs_view(skipped@) == unknown_ids(all.subrange(0, i as int)),
        decreases ids@.len() - i,
    {
        let ghost pre = all.subrange(0, i as int);
        let ghost post = all.subrange(0, i + 1);
        proof {
            assert(post.drop_last() =~= pre);
            assert(post.last() == all[i as int]);
            assert(ids@[i as int]@ == all[i as int]);
        }
        match get_engine_metadata(ids[i].as_str()) {
            Some((name, description, prefix)) => {
                engines.push(
                    EngineData {
                        id: ids[i].clone(),
                        name,
                        description,
                        prefix,
                        profiles: Vec::new(),
                    },
                );
                proof {
                    assert(known_ids(post) =~= known_ids(pre).push(all[i as int]));
                    assert(engines@.last()@ =~~= fresh_engine(all[i as int]));
                    assert(engines@.last()@ == fresh_engine(all[i as int]));
                    lemma_engines_view_push(engines@.drop_last(), engines@.last());
                    lemma_fresh_engines_push(known_ids(pre), all[i as int]);
                    assert(engines@.drop_last().push(engines@.last()) =~= engines@);
                    assert(engines_view(engines@) == fresh_engines_of(known_ids(post)));
                    assert(strs_view(skipped@) =~= unknown_ids(post));
                }
            },
            None => {
                skipped.push(ids[i].clone());
                proof {
                    assert(engines_view(engines@) =~~= fresh_engines_of(known_ids(post)));
                    assert(strs_view(skipped@) =~= unknown_ids(post));
                }
            },
        }
        i = i + 1;
    }
    proof {
        assert(all.subrange(0, all.len() as int) =~= all);
    }
    (engines, skipped)
}

/// The field that activates a profile for the engine `id`.
pub open spec fn activation_key(id: Seq<char>) -> Seq<char> {
    id + "_active"@
}

/// Whether the profile `c` is active for the engine `id`: its activation key
/// maps to the literal string `1`.
pub open spec fn is_active(c: Map<Seq<char>, Seq<char>>, id: Seq<char>) -> bool {
    c.contains_key(activation_key(id)) && c[activation_key(id)] == "1"@
}

/// The profiles of `configs` that are active for the engine `id`, in order.
pub open spec fn matching_profiles(
    configs: Seq<Map<Seq<char>, Seq<char>>>,
    id: Seq<char>,
) -> Seq<Map<Seq<char>, Seq<char>>>
    decreases configs.len(),
{
    if configs.len() == 0 {
        Seq::empty()
    } else {
        let rest = matching_profiles(configs.drop_last(), id);
        if is_active(configs.last(), id) {
            rest.push(configs.last())
        } else {
            rest
        }
    }
}

/// An engine after aggregation: its own matching profiles appended, in file
/// order.
pub open spec fn engine_with_profiles(
    e: EngineDataV,
    configs: Seq<Map<Seq<char>, Seq<char>>>,
) -> EngineDataV {
    EngineDataV { profiles: e.profiles + matching_profiles(configs, e.id), ..e }
}

/// Whether `c` is active for the engine with identifier `id`.
fn profile_active(c: &ConfigMap, id: &String) -> (r: bool)
    ensures
        r == is_active(c@, id@),
{
    let mut key = id.clone();
    key.append("_active");
    match c.get(key.as_str()) {
        Some(v) => str_eq(v.as_str(), "1"),
        None => false,
    }
}

/// Distributes the parsed profiles over the engines: each engine gains, in
/// file order, every profile whose activation key for that engine is `1`. A
/// profile may land on several engines, or on none.
pub fn aggregate_profiles(engines: Vec<EngineData>, configs: &Vec<ConfigMap>) -> (r: Vec<
    EngineData,
>)
    ensures
        r@.len() == engines@.len(),
        forall|i: int|
            0 <= i < r@.len() ==> engines_view(r@)[i] == engine_with_profiles(
                engines_view(engines@)[i],
                cfgs_view(configs@),
            ),
{
    let ghost orig = engines@;
    let ghost cv = cfgs_view(configs@);
    let mut engines = engines;
    let mut out: Vec<EngineData> = Vec::new();
    while engines.len() > 0
        invariant
            cv == cfgs_view(configs@),
            out@.len() + engines@.len() == orig.len(),
            engines@ =~= orig.subrange(out@.len() as int, orig.len() as int),
            forall|i: int|
                0 <= i < out@.len() ==> engines_view(out@)[i] == engine_with_profiles(
                    engines_view(orig)[i],
                    cv,
                ),
        decreases engines@.len(),
    {
        let ghost k = out@.len() as int;
        let mut e = engines.remove(0);
        proof {
            assert(e@ == engines_view(orig)[k]);
        }
        let ghost base = e@.profiles;
        let mut j: usize = 0;
        while j < configs.len()
            invariant
                cv == cfgs_view(configs@),
                0 <= j <= configs@.len(),
                0 <= k < orig.len(),
                e@.id == engines_view(orig)[k].id,
                e@.name == engines_view(orig)[k].name,
                e@.description == engines_view(orig)[k].description,
                e@.prefix == engines_view(orig)[k].prefix,
                e@.profiles == base + matching_profiles(cv.subrange(0, j as int), e@.id),
            decreases configs@.len() - j,
        {
            let ghost pre = cv.subrange(0, j as int);
            let ghost post = cv.subrange(0, j + 1);
            proof {
                assert(post.drop_last() =~= pre);
                assert(post.last() == cv[j as int]);
                assert(configs@[j as int]@ == cv[j as int]);
            }
            let ghost before = e@.profiles;
            let act = profile_active(&configs[j], &e.id);
            if act {
                e.profiles.push(configs[j].clone());
            }
            proof {
                assert(act == is_active(cv[j as int], e@.id));
                if act {
                    assert(e@.profiles =~~= before.push(cv[j as int]));
                    assert(matching_profiles(post, e@.id) =~= matching_profiles(pre, e@.id).push(
                        cv[j as int],
                    ));
                    assert(base + matching_profiles(pre, e@.id).push(cv[j as int]) =~~= (base
                        + matching_profiles(pre, e@.id)).push(cv[j as int]));
                } else {
                    assert(matching_profiles(post, e@.id) =~= matching_profiles(pre, e@.id));
                }
                assert(e@.profiles =~~= base + matching_profiles(post, e@.id));
            }
            j = j + 1;
        }
        proof {
            assert(cv.subrange(0, cv.len() as int) =~= cv);
            assert(e@ =~~= engine_with_profiles(engines_view(orig)[k], cv));
            assert(e@ == engine_with_profiles(engines_view(orig)[k], cv));
        }
        let ghost outpre = out@;
        out.push(e);
        proof {
            assert forall|i2: int| 0 <= i2 < out@.len() implies engines_view(out@)[i2]
                == engine_with_profiles(engines_view(orig)[i2], cv) by {
                if i2 < k {
                    assert(out@[i2] == outpre[i2]);
                    assert(engines_view(outpre)[i2] == outpre[i2]@);
                } else {
                    assert(out@[i2] == e);
                }
            }
        }
    }
    out
}

} // verus!

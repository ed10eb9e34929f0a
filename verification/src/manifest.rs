//! The requirement extractor: reads the declared version requirements of the
//! manifest's three dependency sections. Entries without a version text (path
//! or source-location entries) and entries whose text semver rejects are
//! skipped without aborting; when a name is declared in several sections the
//! later section's declaration is the one kept.

use crate::bytes::slice_to_vec_range;
use crate::classify::{req_views_of, spec_req_lookup};
use crate::semver_ext::{parse_requirement, req_parse_ok, Requirement};
use vstd::prelude::*;

verus! {

/// One entry of a dependency section: its name and, when the entry carries
/// one, its version text.
pub struct RawDep {
    pub name: Vec<u8>,
    pub version: Option<Vec<u8>>,
}

pub struct RawDepView {
    pub name: Seq<u8>,
    pub version: Option<Seq<u8>>,
}

impl View for RawDep {
    type V = RawDepView;

    open spec fn view(&self) -> RawDepView {
        RawDepView {
            name: self.name@,
            version: match &self.version {
                Some(v) => Some(v@),
                None => None,
            },
        }
    }
}

pub open spec fn dep_views_of(l: Seq<RawDep>) -> Seq<RawDepView> {
    l.map_values(|d: RawDep| d@)
}

/// What toml's parser finds in one dependency section of the manifest text:
/// `None` when the text is not UTF-8 or not TOML, else each entry of the
/// section's table with its version text — the entry's string value, or the
/// string under its table's `version` key — in table order.
pub uninterp spec fn manifest_section_deps(text: Seq<u8>, section: Seq<char>) -> Option<
    Seq<RawDepView>,
>;

/// Relies on toml's document parser (`str::parse::<toml::Table>`) and on
/// `Map::get`: the manifest is parsed and the named section's entries are
/// handed over with their version texts; an absent section reads as empty.
#[verifier::external_body]
fn section_deps(text: &[u8], section: &str) -> (r: Option<Vec<RawDep>>)
    ensures
        match r {
            Some(deps) => manifest_section_deps(text@, section@) == Some(
                deps@.map_values(|d: RawDep| d@),
            ),
            None => manifest_section_deps(text@, section@) is None,
        },
{
    let s = core::str::from_utf8(text).ok()?;
    let root: toml::Table = s.parse().ok()?;
    let mut out: Vec<RawDep> = Vec::new();
    if let Some(toml::Value::Table(t)) = root.get(section) {
        for (name, val) in t.iter() {
            let version = match val {
                toml::Value::String(x) => Some(x.clone().into_bytes()),
                toml::Value::Table(tt) => match tt.get("version") { Some(toml::Value::String(x)) => Some(x.clone().into_bytes()), _ => None },
                _ => None,
            };
            out.push(RawDep { name: name.as_bytes().to_vec(), version });
        }
    }
    Some(out)
}

/// Folds one section's entries into the requirement bindings: an entry binds
/// its name when the entry has a version text that parses and the name is not
/// bound yet. Sections are folded from the last one to the first, so an
/// earlier fold — a later section — wins.
pub open spec fn spec_extract_entries(
    deps: Seq<RawDepView>,
    acc: Seq<(Seq<u8>, Seq<u8>)>,
) -> Seq<(Seq<u8>, Seq<u8>)>
    decreases deps.len(),
{
    if deps.len() == 0 {
        acc
    } else {
        let d = deps[0];
        let acc2 = match d.version {
            Some(vt) => if spec_req_lookup(acc, d.name) is None && req_parse_ok(vt) {
                acc.push((d.name, vt))
            } else {
                acc
            },
            None => acc,
        };
        spec_extract_entries(deps.skip(1), acc2)
    }
}

/// The requirement bindings of a manifest: its three dependency sections
/// folded so that `build-dependencies` overrides `dev-dependencies`, which
/// overrides `dependencies`; `None` when the text is not TOML.
pub open spec fn spec_manifest_requirements(text: Seq<u8>) -> Option<Seq<(Seq<u8>, Seq<u8>)>> {
    match (
        manifest_section_deps(text, "build-dependencies"@),
        manifest_section_deps(text, "dev-dependencies"@),
        manifest_section_deps(text, "dependencies"@),
    ) {
        (Some(b), Some(d), Some(n)) => Some(
            spec_extract_entries(n, spec_extract_entries(d, spec_extract_entries(b, Seq::empty()))),
        ),
        _ => None,
    }
}

fn fold_section(out: &mut Vec<(Vec<u8>, Requirement)>, deps: &Vec<RawDep>)
    ensures
        req_views_of(final(out)@) == spec_extract_entries(
            dep_views_of(deps@),
            req_views_of(old(out)@),
        ),
{
    let ghost dv = dep_views_of(deps@);
    let ghost acc0 = req_views_of(out@);
    let mut i: usize = 0;
    proof {
        assert(dv.skip(0) =~= dv);
    }
    while i < deps.len()
        invariant
            0 <= i <= dv.len(),
            dv == dep_views_of(deps@),
            spec_extract_entries(dv, acc0) == spec_extract_entries(
                dv.skip(i as int),
                req_views_of(out@),
            ),
            acc0 == req_views_of(old(out)@),
        decreases dv.len() - i,
    {
        proof {
            assert(dv.skip(i as int)[0] == dv[i as int]);
            assert(dv.skip(i as int).skip(1) =~= dv.skip(i + 1));
            assert(dv[i as int] == deps@[i as int]@);
        }
        match &deps[i].version {
            Some(vt) => {
                let bound = find_req(out, deps[i].name.as_slice());
                if !bound {
                    match parse_requirement(vt.as_slice()) {
                        Some(q) => {
                            let name = slice_to_vec_range(
                                deps[i].name.as_slice(),
                                0,
                                deps[i].name.len(),
                            );
                            let ghost prev = req_views_of(out@);
                            let ghost qv = q@;
                            let ghost namev = name@;
                            out.push((name, q));
                            proof {
                                assert(namev =~= dv[i as int].name);
                                assert(req_views_of(out@) =~= prev.push(
                                    (dv[i as int].name, dv[i as int].version.unwrap()),
                                ));
                            }
                        },
                        None => {},
                    }
                }
            },
            None => {},
        }
        i = i + 1;
    }
    proof {
        assert(dv.skip(dv.len() as int) =~= Seq::<RawDepView>::empty());
    }
}

fn find_req(reqs: &Vec<(Vec<u8>, Requirement)>, name: &[u8]) -> (r: bool)
    ensures
        r == (spec_req_lookup(req_views_of(reqs@), name@) is Some),
{
    let ghost rv = req_views_of(reqs@);
    let mut i: usize = 0;
    proof {
        assert(rv.skip(0) =~= rv);
    }
    while i < reqs.len()
        invariant
            0 <= i <= rv.len(),
            rv == req_views_of(reqs@),
            spec_req_lookup(rv, name@) == spec_req_lookup(rv.skip(i as int), name@),
        decreases rv.len() - i,
    {
        proof {
            assert(rv.skip(i as int)[0] == rv[i as int]);
            assert(rv.skip(i as int).skip(1) =~= rv.skip(i + 1));
        }
        if crate::bytes::bytes_eq(reqs[i].0.as_slice(), name) {
            return true;
        }
        i = i + 1;
    }
    false
}

/// Extracts the requirement bindings the manifest declares. `None` exactly
/// when the manifest text does not parse as TOML; a single entry without a
/// usable version text is skipped, never fatal.
pub fn extract_requirements(text: &[u8]) -> (r: Option<Vec<(Vec<u8>, Requirement)>>)
    ensures
        match r {
            Some(reqs) => spec_manifest_requirements(text@) == Some(req_views_of(reqs@)),
            None => spec_manifest_requirements(text@) is None,
        },
{
    let b = match section_deps(text, "build-dependencies") {
        Some(x) => x,
        None => {
            return None;
        },
    };
    let d = match section_deps(text, "dev-dependencies") {
        Some(x) => x,
        None => {
            return None;
        },
    };
    let n = match section_deps(text, "dependencies") {
        Some(x) => x,
        None => {
            return None;
        },
    };
    let mut out: Vec<(Vec<u8>, Requirement)> = Vec::new();
    proof {
        assert(req_views_of(out@) =~= Seq::<(Seq<u8>, Seq<u8>)>::empty());
    }
    fold_section(&mut out, &b);
    fold_section(&mut out, &d);
    fold_section(&mut out, &n);
    Some(out)
}

} // verus!

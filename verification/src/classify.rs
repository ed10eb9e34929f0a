//! The gap classifier: for each required package, decides whether the
//! inventory satisfies it under the applicable requirement — the declared one
//! when the manifest has one, else the compatible-with rule synthesized from
//! the resolved version — and assigns each unsatisfied requirement a severity
//! category. The ladder is an ordered match over mutually exclusive
//! predicates: absent name, then downgrade, then major upgrade, then minor or
//! patch movement; a requirement whose version text never parsed is always
//! flagged. The degenerate case of a known version at the same precedence
//! that still fails the requirement is reported without escalation, in the
//! safe category.

use crate::bytes::{bytes_eq, lex_cmp, push_all, slice_to_vec_range};
use crate::inventory::Inventory;
use crate::semver_ext::{spec_req_accepts, req_accepts_version, Requirement};
use crate::version::{caret_compatible, caret_matches, clone_version, compare_versions,
    lemma_cmp_version_antisym, lemma_version_le_trans, spec_canon, version_le, version_lt,
    version_to_bytes, Version, VersionView};
use vstd::prelude::*;

verus! {

#[derive(PartialEq, Eq, Structural, Clone, Copy, Debug)]
pub enum Category {
    NewDependency,
    Downgrade,
    MajorUpgrade,
    MinorPatchUpgrade,
    Unparseable,
}

impl Category {
    /// The approval gate: a new dependency, a downgrade, a major upgrade or
    /// an unparseable requirement needs review; a minor or patch movement is
    /// the one category safe to merge without it.
    pub fn requires_approval(self) -> (r: bool)
        ensures
            r == (self != Category::MinorPatchUpgrade),
    {
        match self {
            Category::MinorPatchUpgrade => false,
            _ => true,
        }
    }
}

/// The resolved version of a closure entry: parsed, or kept as the raw text
/// that failed to parse.
pub enum Resolved {
    Known(Version),
    Unparsed(Vec<u8>),
}

pub enum ResolvedView {
    Known(VersionView),
    Unparsed(Seq<u8>),
}

impl View for Resolved {
    type V = ResolvedView;

    open spec fn view(&self) -> ResolvedView {
        match self {
            Resolved::Known(v) => ResolvedView::Known(v@),
            Resolved::Unparsed(t) => ResolvedView::Unparsed(t@),
        }
    }
}

/// One externally sourced package the project needs.
pub struct ClosureEntry {
    pub name: Vec<u8>,
    pub resolved: Resolved,
}

pub struct ClosureEntryView {
    pub name: Seq<u8>,
    pub resolved: ResolvedView,
}

impl View for ClosureEntry {
    type V = ClosureEntryView;

    open spec fn view(&self) -> ClosureEntryView {
        ClosureEntryView { name: self.name@, resolved: self.resolved@ }
    }
}

/// One requirement the inventory cannot satisfy.
pub struct GapEntry {
    pub name: Vec<u8>,
    /// The required version's canonical text, or the raw text that failed to
    /// parse.
    pub required: Vec<u8>,
    pub category: Category,
    pub reason: Vec<u8>,
}

pub struct GapEntryView {
    pub name: Seq<u8>,
    pub required: Seq<u8>,
    pub category: Category,
    pub reason: Seq<u8>,
}

impl View for GapEntry {
    type V = GapEntryView;

    open spec fn view(&self) -> GapEntryView {
        GapEntryView {
            name: self.name@,
            required: self.required@,
            category: self.category,
            reason: self.reason@,
        }
    }
}

pub struct GapReport {
    /// The gaps, in strictly increasing name order.
    pub gaps: Vec<GapEntry>,
    /// How many closure entries the inventory satisfies.
    pub satisfied: usize,
}

pub open spec fn gap_views_of(l: Seq<GapEntry>) -> Seq<GapEntryView> {
    l.map_values(|g: GapEntry| g@)
}

pub open spec fn req_views_of(l: Seq<(Vec<u8>, Requirement)>) -> Seq<(Seq<u8>, Seq<u8>)> {
    l.map_values(|e: (Vec<u8>, Requirement)| (e.0@, e.1@))
}

pub open spec fn closure_views_of(l: Seq<ClosureEntry>) -> Seq<ClosureEntryView> {
    l.map_values(|e: ClosureEntry| e@)
}

/// The declared requirement for a name: the first binding, if any.
pub open spec fn spec_req_lookup(reqs: Seq<(Seq<u8>, Seq<u8>)>, name: Seq<u8>) -> Option<Seq<u8>>
    decreases reqs.len(),
{
    if reqs.len() == 0 {
        None
    } else if reqs[0].0 == name {
        Some(reqs[0].1)
    } else {
        spec_req_lookup(reqs.skip(1), name)
    }
}

/// Whether a candidate version is accepted for `name`: by the declared
/// requirement when there is one, else by the compatible-with rule from the
/// resolved version.
pub open spec fn spec_accepts(
    reqs: Seq<(Seq<u8>, Seq<u8>)>,
    name: Seq<u8>,
    resolved: VersionView,
    candidate: VersionView,
) -> bool {
    match spec_req_lookup(reqs, name) {
        Some(rt) => spec_req_accepts(rt, candidate),
        None => caret_compatible(resolved, candidate),
    }
}

/// Whether any available version of `name` is accepted. Classification and
/// satisfaction are this one predicate.
pub open spec fn spec_satisfied(
    reqs: Seq<(Seq<u8>, Seq<u8>)>,
    inv: Inventory,
    name: Seq<u8>,
    resolved: VersionView,
) -> bool {
    exists|k: int|
        0 <= k < inv.entry_views().len() && (#[trigger] inv.entry_views()[k]).0 == name
            && spec_accepts(reqs, name, resolved, inv.entry_views()[k].1)
}

/// The maximum available version of `name` by semver precedence; `None` when
/// the name is absent.
pub open spec fn spec_latest(entries: Seq<(Seq<u8>, VersionView)>, name: Seq<u8>) -> Option<
    VersionView,
>
    decreases entries.len(),
{
    if entries.len() == 0 {
        None
    } else {
        let rest = spec_latest(entries.skip(1), name);
        if entries[0].0 == name {
            match rest {
                None => Some(entries[0].1),
                Some(m) => if version_lt(m, entries[0].1) {
                    Some(entries[0].1)
                } else {
                    Some(m)
                },
            }
        } else {
            rest
        }
    }
}

proof fn lemma_latest_some(entries: Seq<(Seq<u8>, VersionView)>, name: Seq<u8>)
    ensures
        spec_latest(entries, name) is Some <==> exists|k: int|
            0 <= k < entries.len() && (#[trigger] entries[k]).0 == name,
    decreases entries.len(),
{
    if entries.len() > 0 {
        lemma_latest_some(entries.skip(1), name);
        if spec_latest(entries, name) is Some {
            if entries[0].0 != name {
                let k = choose|k: int|
                    0 <= k < entries.skip(1).len() && (#[trigger] entries.skip(1)[k]).0 == name;
                assert(entries[k + 1].0 == name);
            }
        }
        if exists|k: int| 0 <= k < entries.len() && (#[trigger] entries[k]).0 == name {
            let k = choose|k: int| 0 <= k < entries.len() && (#[trigger] entries[k]).0 == name;
            if k > 0 {
                assert(entries.skip(1)[k - 1].0 == name);
            }
        }
    }
}

/// The severity ladder for a name the inventory knows but cannot satisfy.
pub open spec fn spec_ladder(required: VersionView, latest: VersionView) -> Category {
    if version_lt(required, latest) {
        Category::Downgrade
    } else if required.major != latest.major {
        Category::MajorUpgrade
    } else {
        Category::MinorPatchUpgrade
    }
}

/// Classification is monotonic under version ordering: with `latest` fixed,
/// raising the required version can move the category away from Downgrade
/// but never back to it.
pub proof fn lemma_ladder_monotonic(r1: VersionView, r2: VersionView, latest: VersionView)
    requires
        version_le(r1, r2),
        spec_ladder(r1, latest) != Category::Downgrade,
    ensures
        spec_ladder(r2, latest) != Category::Downgrade,
{
    lemma_cmp_version_antisym(r1, latest);
    assert(version_le(latest, r1));
    lemma_version_le_trans(latest, r1, r2);
    lemma_cmp_version_antisym(r2, latest);
}

pub open spec fn new_dep_reason() -> Seq<u8> {
    seq![110u8, 101u8, 119u8, 32u8, 100u8, 101u8, 112u8, 101u8, 110u8, 100u8, 101u8, 110u8, 99u8, 121u8]
}

pub open spec fn unparseable_reason() -> Seq<u8> {
    seq![117u8, 110u8, 112u8, 97u8, 114u8, 115u8, 101u8, 97u8, 98u8, 108u8, 101u8, 32u8, 118u8, 101u8, 114u8, 115u8, 105u8, 111u8, 110u8]
}

/// `latest available ` followed by the latest version's canonical text.
pub open spec fn latest_reason(latest: VersionView) -> Seq<u8> {
    seq![108u8, 97u8, 116u8, 101u8, 115u8, 116u8, 32u8, 97u8, 118u8, 97u8, 105u8, 108u8, 97u8, 98u8, 108u8, 101u8, 32u8]
        + spec_canon(latest)
}

/// The gap a closure entry yields, if any. A name absent from the inventory
/// always yields one — a closure with no overlap with the inventory turns
/// into gaps entry for entry — and a name whose requirement some available
/// version satisfies never does.
pub open spec fn spec_gap_for(
    entry: ClosureEntryView,
    reqs: Seq<(Seq<u8>, Seq<u8>)>,
    inv: Inventory,
) -> Option<GapEntryView> {
    match entry.resolved {
        ResolvedView::Unparsed(text) => Some(
            GapEntryView {
                name: entry.name,
                required: text,
                category: Category::Unparseable,
                reason: unparseable_reason(),
            },
        ),
        ResolvedView::Known(v) => {
            if !inv.has_name(entry.name) {
                Some(
                    GapEntryView {
                        name: entry.name,
                        required: spec_canon(v),
                        category: Category::NewDependency,
                        reason: new_dep_reason(),
                    },
                )
            } else if spec_satisfied(reqs, inv, entry.name, v) {
                None
            } else {
                let latest = spec_latest(inv.entry_views(), entry.name).unwrap();
                Some(
                    GapEntryView {
                        name: entry.name,
                        required: spec_canon(v),
                        category: spec_ladder(v, latest),
                        reason: latest_reason(latest),
                    },
                )
            }
        },
    }
}

/// Every entry of a closure that shares no name with the inventory yields a
/// gap, and that gap is a new dependency unless its version text never
/// parsed.
pub proof fn lemma_no_overlap_gap(
    entry: ClosureEntryView,
    reqs: Seq<(Seq<u8>, Seq<u8>)>,
    inv: Inventory,
)
    requires
        !inv.has_name(entry.name),
    ensures
        spec_gap_for(entry, reqs, inv) is Some,
        match entry.resolved {
            ResolvedView::Known(_) => spec_gap_for(entry, reqs, inv).unwrap().category
                == Category::NewDependency,
            ResolvedView::Unparsed(_) => spec_gap_for(entry, reqs, inv).unwrap().category
                == Category::Unparseable,
        },
{
}

fn req_lookup<'a>(reqs: &'a Vec<(Vec<u8>, Requirement)>, name: &[u8]) -> (r: Option<
    &'a Requirement,
>)
    ensures
        match r {
            Some(q) => spec_req_lookup(req_views_of(reqs@), name@) == Some(q@),
            None => spec_req_lookup(req_views_of(reqs@), name@) is None,
        },
{
    let ghost rv = req_views_of(reqs@);
    let mut i: usize = 0;
    proof {
        assert(rv.skip(0) =~= rv);
    }
    while i < reqs.len()
        invariant
            0 <= i <= rv.len(),
            rv == req_views_of(reqs@),
            spec_req_lookup(rv, name@) == spec_req_lookup(rv.skip(i as int), name@),
        decreases rv.len() - i,
    {
        proof {
            assert(rv.skip(i as int)[0] == rv[i as int]);
            assert(rv.skip(i as int).skip(1) =~= rv.skip(i + 1));
        }
        if bytes_eq(reqs[i].0.as_slice(), name) {
            return Some(&reqs[i].1);
        }
        i = i + 1;
    }
    None
}

fn inv_has_name(inv: &Inventory, name: &[u8]) -> (r: bool)
    ensures
        r == inv.has_name(name@),
{
    let ghost ev = inv.entry_views();
    let mut i: usize = 0;
    while i < inv.entries.len()
        invariant
            0 <= i <= ev.len(),
            ev == inv.entry_views(),
            forall|k: int| 0 <= k < i ==> (#[trigger] ev[k]).0 != name@,
        decreases ev.len() - i,
    {
        proof {
            assert(ev[i as int].0 == inv.entries@[i as int].0@);
        }
        if bytes_eq(inv.entries[i].0.as_slice(), name) {
            return true;
        }
        i = i + 1;
    }
    false
}

fn check_satisfied(
    reqs: &Vec<(Vec<u8>, Requirement)>,
    inv: &Inventory,
    name: &[u8],
    resolved: &Version,
) -> (r: bool)
    ensures
        r == spec_satisfied(req_views_of(reqs@), *inv, name@, resolved@),
{
    let ghost rv = req_views_of(reqs@);
    let ghost ev = inv.entry_views();
    let rq = req_lookup(reqs, name);
    let mut i: usize = 0;
    while i < inv.entries.len()
        invariant
            0 <= i <= ev.len(),
            rv == req_views_of(reqs@),
            ev == inv.entry_views(),
            match rq {
                Some(q) => spec_req_lookup(rv, name@) == Some(q@),
                None => spec_req_lookup(rv, name@) is None,
            },
            forall|k: int|
                0 <= k < i ==> !((#[trigger] ev[k]).0 == name@ && spec_accepts(
                    rv,
                    name@,
                    resolved@,
                    ev[k].1,
                )),
        decreases ev.len() - i,
    {
        proof {
            assert(ev[i as int] == (inv.entries@[i as int].0@, inv.entries@[i as int].1@));
        }
        if bytes_eq(inv.entries[i].0.as_slice(), name) {
            let ok = match rq {
                Some(q) => req_accepts_version(q, &inv.entries[i].1),
                None => caret_matches(resolved, &inv.entries[i].1),
            };
            proof {
                assert(ok == spec_accepts(rv, name@, resolved@, ev[i as int].1));
            }
            if ok {
                return true;
            }
        }
        i = i + 1;
    }
    false
}

fn latest_version(inv: &Inventory, name: &[u8]) -> (r: Option<Version>)
    requires
        inv.wf(),
    ensures
        match r {
            Some(v) => spec_latest(inv.entry_views(), name@) == Some(v@) && v.wf(),
            None => spec_latest(inv.entry_views(), name@) is None,
        },
{
    let ghost ev = inv.entry_views();
    let mut cur: Option<Version> = None;
    let mut i: usize = inv.entries.len();
    proof {
        assert(ev.skip(ev.len() as int) =~= Seq::<(Seq<u8>, VersionView)>::empty());
    }
    while i > 0
        invariant
            0 <= i <= ev.len(),
            ev == inv.entry_views(),
            inv.wf(),
            match cur {
                Some(v) => spec_latest(ev.skip(i as int), name@) == Some(v@) && v.wf(),
                None => spec_latest(ev.skip(i as int), name@) is None,
            },
        decreases i,
    {
        let j = i - 1;
        proof {
            assert(ev.skip(j as int)[0] == ev[j as int]);
            assert(ev.skip(j as int).skip(1) =~= ev.skip(j + 1));
            assert(ev[j as int] == (inv.entries@[j as int].0@, inv.entries@[j as int].1@));
        }
        if bytes_eq(inv.entries[j].0.as_slice(), name) {
            let cand = &inv.entries[j].1;
            let replace: bool = match &cur {
                None => true,
                Some(m) => compare_versions(m, cand) < 0,
            };
            if replace {
                proof {
                    assert(inv.entries@[j as int].1.wf());
                }
                cur = Some(clone_version(cand));
            }
        }
        i = j;
    }
    proof {
        assert(ev.skip(0) =~= ev);
    }
    cur
}

fn new_dep_reason_exec() -> (r: Vec<u8>)
    ensures
        r@ == new_dep_reason(),
{
    let codes: [u8; 14] = [110, 101, 119, 32, 100, 101, 112, 101, 110, 100, 101, 110, 99, 121];
    let r = slice_to_vec_range(codes.as_slice(), 0, 14);
    proof {
        assert(r@ =~= new_dep_reason());
    }
    r
}

fn unparseable_reason_exec() -> (r: Vec<u8>)
    ensures
        r@ == unparseable_reason(),
{
    let codes: [u8; 19] = [
        117,
        110,
        112,
        97,
        114,
        115,
        101,
        97,
        98,
        108,
        101,
        32,
        118,
        101,
        114,
        115,
        105,
        111,
        110,
    ];
    let r = slice_to_vec_range(codes.as_slice(), 0, 19);
    proof {
        assert(r@ =~= unparseable_reason());
    }
    r
}

fn latest_reason_exec(latest: &Version) -> (r: Vec<u8>)
    ensures
        r@ == latest_reason(latest@),
{
    let codes: [u8; 17] = [
        108,
        97,
        116,
        101,
        115,
        116,
        32,
        97,
        118,
        97,
        105,
        108,
        97,
        98,
        108,
        101,
        32,
    ];
    let mut r = slice_to_vec_range(codes.as_slice(), 0, 17);
    let canon = version_to_bytes(latest);
    push_all(&mut r, canon.as_slice());
    proof {
        assert(r@ =~= latest_reason(latest@));
    }
    r
}

/// The gap one closure entry yields, if any, exactly as `spec_gap_for` says.
fn gap_for_entry(
    entry: &ClosureEntry,
    reqs: &Vec<(Vec<u8>, Requirement)>,
    inv: &Inventory,
) -> (r: Option<GapEntry>)
    requires
        inv.wf(),
    ensures
        match r {
            Some(g) => spec_gap_for(entry@, req_views_of(reqs@), *inv) == Some(g@),
            None => spec_gap_for(entry@, req_views_of(reqs@), *inv) is None,
        },
{
    let name = slice_to_vec_range(entry.name.as_slice(), 0, entry.name.len());
    proof {
        assert(name@ =~= entry.name@);
    }
    match &entry.resolved {
        Resolved::Unparsed(text) => {
            let required = slice_to_vec_range(text.as_slice(), 0, text.len());
            proof {
                assert(required@ =~= text@);
            }
            let g = GapEntry {
                name,
                required,
                category: Category::Unparseable,
                reason: unparseable_reason_exec(),
            };
            proof {
                assert(spec_gap_for(entry@, req_views_of(reqs@), *inv) == Some(g@));
            }
            Some(g)
        },
        Resolved::Known(v) => {
            if !inv_has_name(inv, entry.name.as_slice()) {
                let g = GapEntry {
                    name,
                    required: version_to_bytes(v),
                    category: Category::NewDependency,
                    reason: new_dep_reason_exec(),
                };
                proof {
                    assert(spec_gap_for(entry@, req_views_of(reqs@), *inv) == Some(g@));
                }
                Some(g)
            } else if check_satisfied(reqs, inv, entry.name.as_slice(), v) {
                None
            } else {
                proof {
                    lemma_latest_some(inv.entry_views(), entry.name@);
                }
                let latest = match latest_version(inv, entry.name.as_slice()) {
                    Some(l) => l,
                    None => {
                        proof {
                            assert(false);
                        }
                        Version::new(0, 0, 0)
                    },
                };
                let category = if compare_versions(v, &latest) < 0 {
                    Category::Downgrade
                } else if v.major != latest.major {
                    Category::MajorUpgrade
                } else {
                    Category::MinorPatchUpgrade
                };
                let g = GapEntry {
                    name,
                    required: version_to_bytes(v),
                    category,
                    reason: latest_reason_exec(&latest),
                };
                proof {
                    assert(g@.category == spec_ladder(v@, latest@));
                    assert(spec_gap_for(entry@, req_views_of(reqs@), *inv) == Some(g@));
                }
                Some(g)
            }
        },
    }
}

/// Gap names in strictly increasing order: deterministic and duplicate-free.
pub open spec fn gaps_sorted(l: Seq<GapEntryView>) -> bool {
    forall|i: int, j: int|
        0 <= i < j < l.len() ==> lex_cmp((#[trigger] l[i]).name, (#[trigger] l[j]).name) < 0
}

fn insert_gap(gaps: &mut Vec<GapEntry>, g: GapEntry)
    requires
        gaps_sorted(gap_views_of(old(gaps)@)),
        forall|k: int| 0 <= k < old(gaps)@.len() ==> (#[trigger] gap_views_of(old(gaps)@)[k]).name
            != g@.name,
    ensures
        gaps_sorted(gap_views_of(final(gaps)@)),
        final(gaps)@.len() == old(gaps)@.len() + 1,
        forall|x: GapEntryView|
            #![trigger gap_views_of(final(gaps)@).contains(x)]
            #![trigger gap_views_of(old(gaps)@).contains(x)]
            gap_views_of(final(gaps)@).contains(x) <==> (gap_views_of(old(gaps)@).contains(x)
                || x == g@),
{
    let ghost olds = gap_views_of(gaps@);
    let ghost gv = g@;
    let mut idx: usize = 0;
    while idx < gaps.len()
        invariant
            0 <= idx <= gaps@.len(),
            gap_views_of(gaps@) == olds,
            olds == gap_views_of(old(gaps)@),
            gaps_sorted(olds),
            forall|k: int| 0 <= k < olds.len() ==> (#[trigger] olds[k]).name != gv.name,
            gv == g@,
            forall|k: int| 0 <= k < idx ==> lex_cmp((#[trigger] olds[k]).name, gv.name) < 0,
        decreases gaps@.len() - idx,
    {
        let c = crate::bytes::cmp_bytes(gaps[idx].name.as_slice(), g.name.as_slice());
        proof {
            assert(olds[idx as int] == gaps@[idx as int]@);
            crate::bytes::lemma_lex_cmp_eq(olds[idx as int].name, gv.name);
        }
        if c >= 0 {
            proof {
                assert(gap_views_of(gaps@).len() == gaps@.len());
                assert(gap_views_of(old(gaps)@).len() == old(gaps)@.len());
            }
            insert_gap_at(gaps, idx, g);
            return;
        }
        idx = idx + 1;
    }
    proof {
        assert(gap_views_of(gaps@).len() == gaps@.len());
        assert(gap_views_of(old(gaps)@).len() == old(gaps)@.len());
    }
    insert_gap_at(gaps, idx, g);
}

fn insert_gap_at(gaps: &mut Vec<GapEntry>, idx: usize, g: GapEntry)
    requires
        idx <= old(gaps)@.len(),
        gaps_sorted(gap_views_of(old(gaps)@)),
        forall|k: int|
            0 <= k < idx ==> lex_cmp((#[trigger] gap_views_of(old(gaps)@)[k]).name, g@.name) < 0,
        idx < old(gaps)@.len() ==> lex_cmp(gap_views_of(old(gaps)@)[idx as int].name, g@.name)
            > 0,
    ensures
        gaps_sorted(gap_views_of(final(gaps)@)),
        final(gaps)@.len() == old(gaps)@.len() + 1,
        forall|x: GapEntryView|
            #![trigger gap_views_of(final(gaps)@).contains(x)]
            #![trigger gap_views_of(old(gaps)@).contains(x)]
            gap_views_of(final(gaps)@).contains(x) <==> (gap_views_of(old(gaps)@).contains(x)
                || x == g@),
{
    let ghost olds = gap_views_of(gaps@);
    let ghost gv = g@;
    gaps.insert(idx, g);
    proof {
        let news = gap_views_of(gaps@);
        assert(news.len() == olds.len() + 1);
        assert forall|k: int| 0 <= k < news.len() implies news[k] == (if k < idx {
            olds[k]
        } else if k == idx {
            gv
        } else {
            olds[k - 1]
        }) by {
            assert(news[k] == gaps@[k]@);
        }
        assert forall|i: int, j: int| 0 <= i < j < news.len() implies lex_cmp(
            (#[trigger] news[i]).name,
            (#[trigger] news[j]).name,
        ) < 0 by {
            if i == idx && j > idx {
                assert(lex_cmp(olds[j - 1].name, gv.name) > 0) by {
                    if j - 1 == idx {
                    } else {
                        assert(lex_cmp(olds[idx as int].name, olds[j - 1].name) < 0);
                        crate::bytes::lemma_lex_cmp_antisym(olds[idx as int].name, gv.name);
                        crate::bytes::lemma_lex_cmp_trans(
                            gv.name,
                            olds[idx as int].name,
                            olds[j - 1].name,
                        );
                        crate::bytes::lemma_lex_cmp_antisym(gv.name, olds[j - 1].name);
                    }
                }
                crate::bytes::lemma_lex_cmp_antisym(olds[j - 1].name, gv.name);
            }
            if j == idx && i < idx {
                assert(lex_cmp(olds[i].name, gv.name) < 0);
            }
        }
        assert forall|x: GapEntryView| news.contains(x) <==> (olds.contains(x) || x == gv) by {
            if news.contains(x) {
                let k = choose|k: int| 0 <= k < news.len() && news[k] == x;
                if k != idx {
                    assert(olds[if k < idx {
                        k
                    } else {
                        k - 1
                    }] == x);
                }
            }
            if olds.contains(x) {
                let k = choose|k: int| 0 <= k < olds.len() && olds[k] == x;
                assert(news[if k < idx {
                    k
                } else {
                    k + 1
                }] == x);
            }
            if x == gv {
                assert(news[idx as int] == x);
            }
        }
    }
}

/// Classifies the closure against the inventory and the declared
/// requirements. The report holds exactly the gaps the closure entries
/// yield — every unsatisfied entry appears, nothing else does — ordered by
/// name, with the count of satisfied entries.
#[verifier::rlimit(80)]
pub fn classify_gaps(
    closure: &Vec<ClosureEntry>,
    reqs: &Vec<(Vec<u8>, Requirement)>,
    inv: &Inventory,
) -> (r: GapReport)
    requires
        inv.wf(),
        forall|i: int, j: int|
            0 <= i < j < closure@.len() ==> (#[trigger] closure_views_of(closure@)[i]).name != (
            #[trigger] closure_views_of(closure@)[j]).name,
    ensures
        gaps_sorted(gap_views_of(r.gaps@)),
        r.satisfied + r.gaps@.len() == closure@.len(),
        forall|x: GapEntryView|
            #![trigger gap_views_of(r.gaps@).contains(x)]
            gap_views_of(r.gaps@).contains(x) ==> exists|m: int|
                0 <= m < closure@.len() && spec_gap_for(
                    closure_views_of(closure@)[m],
                    req_views_of(reqs@),
                    *inv,
                ) == Some(x),
        forall|m: int|
            0 <= m < closure@.len() && (#[trigger] spec_gap_for(
                closure_views_of(closure@)[m],
                req_views_of(reqs@),
                *inv,
            )) is Some ==> gap_views_of(r.gaps@).contains(
                spec_gap_for(closure_views_of(closure@)[m], req_views_of(reqs@), *inv).unwrap(),
            ),
{
    let ghost cv = closure_views_of(closure@);
    let ghost rv = req_views_of(reqs@);
    let mut gaps: Vec<GapEntry> = Vec::new();
    let mut satisfied: usize = 0;
    let mut i: usize = 0;
    while i < closure.len()
        invariant
            0 <= i <= cv.len(),
            cv == closure_views_of(closure@),
            rv == req_views_of(reqs@),
            inv.wf(),
            forall|a: int, b: int|
                0 <= a < b < cv.len() ==> (#[trigger] cv[a]).name != (#[trigger] cv[b]).name,
            satisfied + gaps@.len() == i,
            gaps_sorted(gap_views_of(gaps@)),
            forall|x: GapEntryView|
                #![trigger gap_views_of(gaps@).contains(x)]
                gap_views_of(gaps@).contains(x) ==> exists|m: int|
                    0 <= m < i && spec_gap_for(cv[m], rv, *inv) == Some(x),
            forall|m: int|
                0 <= m < i && (#[trigger] spec_gap_for(cv[m], rv, *inv)) is Some
                    ==> gap_views_of(gaps@).contains(spec_gap_for(cv[m], rv, *inv).unwrap()),
        decreases cv.len() - i,
    {
        proof {
            assert(cv[i as int] == closure@[i as int]@);
        }
        match gap_for_entry(&closure[i], reqs, inv) {
            Some(g) => {
                let ghost prevg = gap_views_of(gaps@);
                proof {
                    assert forall|k: int| 0 <= k < prevg.len() implies (#[trigger] prevg[k]).name
                        != g@.name by {
                        assert(gap_views_of(gaps@).contains(prevg[k]));
                        let m = choose|m: int|
                            0 <= m < i && spec_gap_for(cv[m], rv, *inv) == Some(prevg[k]);
                        assert(prevg[k].name == cv[m].name);
                        assert(g@.name == cv[i as int].name);
                    }
                    assert(forall|x: GapEntryView|
                        prevg.contains(x) ==> exists|m: int|
                            0 <= m < i && #[trigger] spec_gap_for(cv[m], rv, *inv) == Some(x));
                    assert forall|m: int|
                        0 <= m < i && (#[trigger] spec_gap_for(cv[m], rv, *inv)) is Some
                            implies prevg.contains(spec_gap_for(cv[m], rv, *inv).unwrap()) by {
                        assert(gap_views_of(gaps@).contains(
                            spec_gap_for(cv[m], rv, *inv).unwrap(),
                        ));
                    }
                }
                let ghost gvv = g@;
                insert_gap(&mut gaps, g);
                proof {
                    assert(gap_views_of(gaps@).contains(gvv));
                    assert forall|x: GapEntryView|
                        #![trigger gap_views_of(gaps@).contains(x)]
                        gap_views_of(gaps@).contains(x) implies exists|m: int|
                        0 <= m < i + 1 && spec_gap_for(cv[m], rv, *inv) == Some(x) by {
                        if x == gvv {
                            assert(spec_gap_for(cv[i as int], rv, *inv) == Some(x));
                        } else {
                            assert(prevg.contains(x));
                            let m = choose|m: int|
                                0 <= m < i && #[trigger] spec_gap_for(cv[m], rv, *inv) == Some(
                                    x,
                                );
                            assert(spec_gap_for(cv[m], rv, *inv) == Some(x));
                        }
                    }
                    assert forall|m: int|
                        0 <= m < i + 1 && (#[trigger] spec_gap_for(cv[m], rv, *inv)) is Some
                            implies gap_views_of(gaps@).contains(
                        spec_gap_for(cv[m], rv, *inv).unwrap(),
                    ) by {
                        if m < i {
                            assert(prevg.contains(spec_gap_for(cv[m], rv, *inv).unwrap()));
                        } else {
                            assert(spec_gap_for(cv[m], rv, *inv).unwrap() == gvv);
                        }
                    }
                }
            },
            None => {
                satisfied = satisfied + 1;
            },
        }
        i = i + 1;
    }
    let report = GapReport { gaps, satisfied };
    proof {
        assert(cv.len() == closure@.len());
        assert forall|x: GapEntryView|
            #![trigger gap_views_of(report.gaps@).contains(x)]
            gap_views_of(report.gaps@).contains(x) implies exists|m: int|
            0 <= m < closure@.len() && spec_gap_for(
                closure_views_of(closure@)[m],
                req_views_of(reqs@),
                *inv,
            ) == Some(x) by {
            assert(gap_views_of(gaps@).contains(x));
            let m = choose|m: int|
                0 <= m < i && #[trigger] spec_gap_for(cv[m], rv, *inv) == Some(x);
            assert(spec_gap_for(closure_views_of(closure@)[m], req_views_of(reqs@), *inv)
                == Some(x));
        }
    }
    report
}

} // verus!

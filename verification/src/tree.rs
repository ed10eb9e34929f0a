//! The textual fallback of the closure resolver: reads a dependency-tree
//! rendering, one package per line. Tree-drawing decoration is stripped,
//! lines naming a non-default registry are excluded, a line that does not
//! match the pattern contributes nothing, each distinct name keeps the last
//! version seen, and the first line — the tree's root, the project itself —
//! is excluded from the closure.

use crate::bytes::{contains_sub, find_sub, slice_to_vec_range, spec_split, spec_split_ws,
    spec_trim, split_sep, split_ws, trim_ascii};
use crate::classify::{closure_views_of, ClosureEntry, Resolved};
use crate::inventory::keep_nonempty;
use crate::semver_ext::{spec_version_of_text, version_from_text};
use crate::version::{Version, VersionView};
use vstd::prelude::*;

verus! {

/// A byte of tree-drawing decoration: a space or a byte of the box-drawing
/// characters the tree rendering uses.
pub open spec fn is_tree_deco(b: u8) -> bool {
    b == 32 || b == 226 || b == 148 || b == 156 || b == 130 || b == 128
}

/// How many leading decoration bytes a line has.
pub open spec fn deco_prefix(s: Seq<u8>) -> nat
    decreases s.len(),
{
    if s.len() == 0 {
        0
    } else if is_tree_deco(s[0]) {
        (1 + deco_prefix(s.skip(1))) as nat
    } else {
        0
    }
}

proof fn lemma_deco_prefix(s: Seq<u8>)
    ensures
        deco_prefix(s) <= s.len(),
    decreases s.len(),
{
    if s.len() > 0 && is_tree_deco(s[0]) {
        lemma_deco_prefix(s.skip(1));
    }
}

/// The bytes of `(registry`.
pub open spec fn registry_marker() -> Seq<u8> {
    seq![40u8, 114u8, 101u8, 103u8, 105u8, 115u8, 116u8, 114u8, 121u8]
}

/// The bytes of `crates.io-index`.
pub open spec fn default_index_marker() -> Seq<u8> {
    seq![99u8, 114u8, 97u8, 116u8, 101u8, 115u8, 46u8, 105u8, 111u8, 45u8, 105u8, 110u8, 100u8, 101u8, 120u8]
}

/// How many leading `v` bytes a token has.
pub open spec fn v_run(s: Seq<u8>) -> nat
    decreases s.len(),
{
    if s.len() == 0 {
        0
    } else if s[0] == 118 {
        (1 + v_run(s.skip(1))) as nat
    } else {
        0
    }
}

proof fn lemma_v_run(s: Seq<u8>)
    ensures
        v_run(s) <= s.len(),
    decreases s.len(),
{
    if s.len() > 0 && s[0] == 118 {
        lemma_v_run(s.skip(1));
    }
}

/// The package id one tree line denotes, if any: the line trimmed and
/// stripped of decoration; excluded when it names a registry other than the
/// default one; the first token is the name, the second — its leading `v`
/// markers removed — must parse as a version.
pub open spec fn spec_parse_tree_line(line: Seq<u8>) -> Option<(Seq<u8>, VersionView)> {
    let t = spec_trim(line);
    let c = t.skip(deco_prefix(t) as int);
    if contains_sub(c, registry_marker()) && !contains_sub(c, default_index_marker()) {
        None
    } else {
        let toks = keep_nonempty(spec_split_ws(c));
        if toks.len() < 2 {
            None
        } else {
            let vtext = toks[1].skip(v_run(toks[1]) as int);
            match spec_version_of_text(vtext) {
                Some(v) => Some((toks[0], v)),
                None => None,
            }
        }
    }
}

fn registry_marker_exec() -> (r: Vec<u8>)
    ensures
        r@ == registry_marker(),
{
    let codes: [u8; 9] = [40, 114, 101, 103, 105, 115, 116, 114, 121];
    let r = slice_to_vec_range(codes.as_slice(), 0, 9);
    proof {
        assert(r@ =~= registry_marker());
    }
    r
}

fn default_index_marker_exec() -> (r: Vec<u8>)
    ensures
        r@ == default_index_marker(),
{
    let codes: [u8; 15] = [99, 114, 97, 116, 101, 115, 46, 105, 111, 45, 105, 110, 100, 101, 120];
    let r = slice_to_vec_range(codes.as_slice(), 0, 15);
    proof {
        assert(r@ =~= default_index_marker());
    }
    r
}

fn ws_tokens(c: &[u8]) -> (r: Vec<Vec<u8>>)
    ensures
        r@.map_values(|v: Vec<u8>| v@) == keep_nonempty(spec_split_ws(c@)),
{
    let parts = split_ws(c);
    let ghost pv = parts@.map_values(|v: Vec<u8>| v@);
    let mut out: Vec<Vec<u8>> = Vec::new();
    let mut i: usize = 0;
    proof {
        assert(pv.take(0) =~= Seq::<Seq<u8>>::empty());
        reveal_with_fuel(Seq::filter, 2);
        assert(out@.map_values(|v: Vec<u8>| v@) =~= keep_nonempty(pv.take(0)));
    }
    while i < parts.len()
        invariant
            0 <= i <= pv.len(),
            pv == parts@.map_values(|v: Vec<u8>| v@),
            out@.map_values(|v: Vec<u8>| v@) == keep_nonempty(pv.take(i as int)),
        decreases pv.len() - i,
    {
        proof {
            assert(pv[i as int] == parts@[i as int]@);
            assert(pv.take(i + 1).drop_last() =~= pv.take(i as int));
            assert(pv.take(i + 1).last() == pv[i as int]);
            reveal_with_fuel(Seq::filter, 2);
        }
        if parts[i].len() > 0 {
            let item = slice_to_vec_range(parts[i].as_slice(), 0, parts[i].len());
            proof {
                assert(item@ =~= parts@[i as int]@);
            }
            let ghost prev = out@;
            out.push(item);
            proof {
                assert(out@.map_values(|v: Vec<u8>| v@) =~= prev.map_values(
                    |v: Vec<u8>| v@,
                ).push(pv[i as int]));
            }
        }
        i = i + 1;
    }
    proof {
        assert(pv.take(pv.len() as int) =~= pv);
    }
    out
}

/// Reads one tree line, exactly as `spec_parse_tree_line` says.
pub fn parse_tree_line(line: &[u8]) -> (r: Option<(Vec<u8>, Version)>)
    ensures
        match r {
            Some(p) => spec_parse_tree_line(line@) == Some((p.0@, p.1@)) && p.1.wf(),
            None => spec_parse_tree_line(line@) is None,
        },
{
    let t = trim_ascii(line);
    let mut start: usize = 0;
    proof {
        lemma_deco_prefix(t@);
        assert(t@.skip(0) =~= t@);
    }
    while start < t.len() && is_deco_exec(t[start])
        invariant
            0 <= start <= t@.len(),
            deco_prefix(t@) == start + deco_prefix(t@.skip(start as int)),
            forall|j: int| 0 <= j < start ==> is_tree_deco(t@[j]),
        decreases t@.len() - start,
    {
        proof {
            assert(t@.skip(start as int)[0] == t@[start as int]);
            assert(t@.skip(start as int).skip(1) =~= t@.skip(start + 1));
            lemma_deco_prefix(t@.skip(start + 1));
        }
        start = start + 1;
    }
    proof {
        if start < t@.len() {
            assert(t@.skip(start as int)[0] == t@[start as int]);
        }
        assert(deco_prefix(t@.skip(start as int)) == 0);
        assert(deco_prefix(t@) == start);
    }
    let c = slice_to_vec_range(t.as_slice(), start, t.len());
    proof {
        assert(c@ =~= t@.skip(deco_prefix(t@) as int));
    }
    let reg = registry_marker_exec();
    let idx = default_index_marker_exec();
    if find_sub(c.as_slice(), reg.as_slice()) && !find_sub(c.as_slice(), idx.as_slice()) {
        return None;
    }
    let toks = ws_tokens(c.as_slice());
    let ghost tv = toks@.map_values(|v: Vec<u8>| v@);
    if toks.len() < 2 {
        return None;
    }
    proof {
        assert(tv[0] == toks@[0]@);
        assert(tv[1] == toks@[1]@);
        lemma_v_run(toks@[1]@);
    }
    let second = &toks[1];
    let mut vstart: usize = 0;
    proof {
        assert(second@.skip(0) =~= second@);
    }
    while vstart < second.len() && second[vstart] == 118
        invariant
            0 <= vstart <= second@.len(),
            v_run(second@) == vstart + v_run(second@.skip(vstart as int)),
        decreases second@.len() - vstart,
    {
        proof {
            assert(second@.skip(vstart as int)[0] == second@[vstart as int]);
            assert(second@.skip(vstart as int).skip(1) =~= second@.skip(vstart + 1));
        }
        vstart = vstart + 1;
    }
    proof {
        if vstart < second@.len() {
            assert(second@.skip(vstart as int)[0] == second@[vstart as int]);
        }
        assert(v_run(second@.skip(vstart as int)) == 0);
        assert(v_run(second@) == vstart);
    }
    let vtext = slice_to_vec_range(second.as_slice(), vstart, second.len());
    proof {
        assert(vtext@ =~= tv[1].skip(v_run(tv[1]) as int));
    }
    match version_from_text(vtext.as_slice()) {
        Some(v) => {
            let name = slice_to_vec_range(toks[0].as_slice(), 0, toks[0].len());
            proof {
                assert(name@ =~= tv[0]);
            }
            Some((name, v))
        },
        None => None,
    }
}

fn is_deco_exec(b: u8) -> (r: bool)
    ensures
        r == is_tree_deco(b),
{
    b == 32 || b == 226 || b == 148 || b == 156 || b == 130 || b == 128
}

/// A binding list with `name` bound to `v`: the first existing binding is
/// replaced in place, or the pair is appended.
pub open spec fn spec_upsert_entry(
    m: Seq<(Seq<u8>, VersionView)>,
    name: Seq<u8>,
    v: VersionView,
) -> Seq<(Seq<u8>, VersionView)>
    decreases m.len(),
{
    if m.len() == 0 {
        seq![(name, v)]
    } else if m[0].0 == name {
        seq![(name, v)] + m.skip(1)
    } else {
        seq![m[0]] + spec_upsert_entry(m.skip(1), name, v)
    }
}

/// The name-to-version bindings of the tree text's lines, in first-seen
/// order, the last occurrence of each name winning.
pub open spec fn spec_tree_map(lines: Seq<Seq<u8>>) -> Seq<(Seq<u8>, VersionView)>
    decreases lines.len(),
{
    if lines.len() == 0 {
        Seq::empty()
    } else {
        let rest = spec_tree_map(lines.drop_last());
        match spec_parse_tree_line(lines.last()) {
            Some(p) => spec_upsert_entry(rest, p.0, p.1),
            None => rest,
        }
    }
}

pub open spec fn spec_remove_name(
    m: Seq<(Seq<u8>, VersionView)>,
    name: Seq<u8>,
) -> Seq<(Seq<u8>, VersionView)>
    decreases m.len(),
{
    if m.len() == 0 {
        Seq::empty()
    } else if m[0].0 == name {
        spec_remove_name(m.skip(1), name)
    } else {
        seq![m[0]] + spec_remove_name(m.skip(1), name)
    }
}

/// The closure a tree text denotes: the bindings of all lines, with the root
/// line's name — the project itself — removed.
pub open spec fn spec_tree_closure(text: Seq<u8>) -> Seq<(Seq<u8>, VersionView)> {
    let lines = spec_split(text, 10u8);
    let m = spec_tree_map(lines);
    match spec_parse_tree_line(lines[0]) {
        Some(root) => spec_remove_name(m, root.0),
        None => m,
    }
}

pub open spec fn distinct_names(m: Seq<(Seq<u8>, VersionView)>) -> bool {
    forall|a: int, b: int| 0 <= a < b < m.len() ==> (#[trigger] m[a]).0 != (#[trigger] m[b]).0
}

proof fn lemma_upsert_entry(m: Seq<(Seq<u8>, VersionView)>, name: Seq<u8>, v: VersionView)
    requires
        distinct_names(m),
    ensures
        distinct_names(spec_upsert_entry(m, name, v)),
        forall|k: int|
            0 <= k < spec_upsert_entry(m, name, v).len() ==> ((#[trigger] spec_upsert_entry(
                m,
                name,
                v,
            )[k]).0 == name ==> spec_upsert_entry(m, name, v)[k] == (name, v)),
        forall|k: int|
            0 <= k < spec_upsert_entry(m, name, v).len() ==> (#[trigger] spec_upsert_entry(
                m,
                name,
                v,
            )[k]).0 == name || m.contains(spec_upsert_entry(m, name, v)[k]),
    decreases m.len(),
{
    let u = spec_upsert_entry(m, name, v);
    if m.len() == 0 {
    } else if m[0].0 == name {
        assert forall|a: int, b: int| 0 <= a < b < u.len() implies (#[trigger] u[a]).0 != (
        #[trigger] u[b]).0 by {
            assert(u[b] == m[b]);
            if a > 0 {
                assert(u[a] == m[a]);
            }
        }
        assert forall|k: int| 0 <= k < u.len() implies (#[trigger] u[k]).0 == name
            || m.contains(u[k]) by {
            if k > 0 {
                assert(u[k] == m[k]);
            }
        }
    } else {
        assert forall|a: int, b: int| 0 <= a < b < m.skip(1).len() implies (#[trigger] m.skip(
            1,
        )[a]).0 != (#[trigger] m.skip(1)[b]).0 by {
            assert(m.skip(1)[a] == m[a + 1] && m.skip(1)[b] == m[b + 1]);
        }
        lemma_upsert_entry(m.skip(1), name, v);
        let ut = spec_upsert_entry(m.skip(1), name, v);
        assert(u[0] == m[0]);
        assert forall|k: int| 0 <= k < u.len() implies ((#[trigger] u[k]).0 == name ==> u[k] == (
            name,
            v,
        )) && (u[k].0 == name || m.contains(u[k])) by {
            if k > 0 {
                assert(u[k] == ut[k - 1]);
                if ut[k - 1].0 != name {
                    assert(m.skip(1).contains(ut[k - 1]));
                    let j = choose|j: int|
                        0 <= j < m.skip(1).len() && m.skip(1)[j] == ut[k - 1];
                    assert(m[j + 1] == ut[k - 1]);
                }
            }
        }
        assert forall|a: int, b: int| 0 <= a < b < u.len() implies (#[trigger] u[a]).0 != (
        #[trigger] u[b]).0 by {
            if a == 0 {
                assert(u[b] == ut[b - 1]);
                if ut[b - 1].0 == name {
                } else {
                    assert(m.skip(1).contains(ut[b - 1]));
                    let j = choose|j: int|
                        0 <= j < m.skip(1).len() && m.skip(1)[j] == ut[b - 1];
                    assert(m[j + 1] == ut[b - 1]);
                }
            } else {
                assert(u[a] == ut[a - 1] && u[b] == ut[b - 1]);
            }
        }
    }
}

fn upsert_exec(entries: &mut Vec<(Vec<u8>, Version)>, name: Vec<u8>, v: Version)
    ensures
        entry_pair_views(final(entries)@) == spec_upsert_entry(
            entry_pair_views(old(entries)@),
            name@,
            v@,
        ),
{
    let ghost m = entry_pair_views(entries@);
    let ghost namev = name@;
    let ghost vv = v@;
    let mut i: usize = 0;
    proof {
        assert(m.skip(0) =~= m);
    }
    while i < entries.len()
        invariant
            0 <= i <= m.len(),
            m == entry_pair_views(entries@),
            m == entry_pair_views(old(entries)@),
            namev == name@,
            vv == v@,
            forall|k: int| 0 <= k < i ==> (#[trigger] m[k]).0 != namev,
            spec_upsert_entry(m, namev, vv) == m.take(i as int) + spec_upsert_entry(
                m.skip(i as int),
                namev,
                vv,
            ),
        decreases m.len() - i,
    {
        proof {
            assert(m[i as int] == (entries@[i as int].0@, entries@[i as int].1@));
            assert(m.skip(i as int)[0] == m[i as int]);
            assert(m.skip(i as int).skip(1) =~= m.skip(i + 1));
        }
        if crate::bytes::bytes_eq(entries[i].0.as_slice(), name.as_slice()) {
            proof {
                assert(spec_upsert_entry(m.skip(i as int), namev, vv) == seq![(namev, vv)]
                    + m.skip(i + 1));
            }
            let ghost before = entries@;
            entries.remove(i);
            entries.insert(i, (name, v));
            proof {
                let after = entry_pair_views(entries@);
                let expect = m.take(i as int) + (seq![(namev, vv)] + m.skip(i + 1));
                assert forall|k: int| 0 <= k < after.len() implies after[k] == expect[k] by {
                    assert(after[k] == (entries@[k].0@, entries@[k].1@));
                    if k < i {
                        assert(entries@[k] == before[k]);
                        assert(m[k] == (before[k].0@, before[k].1@));
                    } else if k > i {
                        assert(entries@[k] == before[k]);
                        assert(m[k] == (before[k].0@, before[k].1@));
                        assert(expect[k] == m.skip(i + 1)[k - i - 1]);
                    }
                }
                assert(after =~= expect);
            }
            return;
        }
        proof {
            assert(m.take(i + 1) =~= m.take(i as int).push(m[i as int]));
            assert(m.take(i as int) + (seq![m[i as int]] + spec_upsert_entry(
                m.skip(i + 1),
                namev,
                vv,
            )) =~= m.take(i + 1) + spec_upsert_entry(m.skip(i + 1), namev, vv));
        }
        i = i + 1;
    }
    proof {
        assert(m.skip(m.len() as int) =~= Seq::<(Seq<u8>, VersionView)>::empty());
    }
    entries.push((name, v));
    proof {
        let after = entry_pair_views(entries@);
        let expect = m.take(m.len() as int) + seq![(namev, vv)];
        assert forall|k: int| 0 <= k < after.len() implies after[k] == expect[k] by {
            assert(after[k] == (entries@[k].0@, entries@[k].1@));
        }
        assert(after =~= expect);
        assert(m.take(m.len() as int) =~= m);
        assert(spec_upsert_entry(m, namev, vv) =~= m + seq![(namev, vv)]);
    }
}

pub open spec fn entry_pair_views(l: Seq<(Vec<u8>, Version)>) -> Seq<(Seq<u8>, VersionView)> {
    l.map_values(|e: (Vec<u8>, Version)| (e.0@, e.1@))
}

/// Resolves the closure from a tree text: the bindings of
/// `spec_tree_closure`, as closure entries with distinct names.
#[verifier::rlimit(80)]
pub fn closure_from_tree(text: &[u8]) -> (r: Vec<ClosureEntry>)
    ensures
        closure_views_of(r@).map_values(
            |e: crate::classify::ClosureEntryView| (e.name, e.resolved),
        ) == spec_tree_closure(text@).map_values(
            |p: (Seq<u8>, VersionView)| (p.0, crate::classify::ResolvedView::Known(p.1)),
        ),
        forall|a: int, b: int|
            0 <= a < b < r@.len() ==> (#[trigger] closure_views_of(r@)[a]).name != (
            #[trigger] closure_views_of(r@)[b]).name,
{
    let lines = split_sep(text, 10u8);
    let ghost lv = lines@.map_values(|l: Vec<u8>| l@);
    proof {
        assert(lv =~= spec_split(text@, 10u8));
    }
    let mut entries: Vec<(Vec<u8>, Version)> = Vec::new();
    let mut i: usize = 0;
    proof {
        assert(lv.take(0) =~= Seq::<Seq<u8>>::empty());
        assert(entry_pair_views(entries@) =~= spec_tree_map(lv.take(0)));
    }
    while i < lines.len()
        invariant
            0 <= i <= lv.len(),
            lv == lines@.map_values(|l: Vec<u8>| l@),
            entry_pair_views(entries@) == spec_tree_map(lv.take(i as int)),
            distinct_names(entry_pair_views(entries@)),
        decreases lv.len() - i,
    {
        proof {
            assert(lv[i as int] == lines@[i as int]@);
            assert(lv.take(i + 1).drop_last() =~= lv.take(i as int));
            assert(lv.take(i + 1).last() == lv[i as int]);
        }
        match parse_tree_line(lines[i].as_slice()) {
            Some(p) => {
                proof {
                    lemma_upsert_entry(entry_pair_views(entries@), p.0@, p.1@);
                }
                upsert_exec(&mut entries, p.0, p.1);
            },
            None => {},
        }
        i = i + 1;
    }
    proof {
        assert(lv.take(lv.len() as int) =~= lv);
    }
    let ghost m = entry_pair_views(entries@);
    let root = parse_tree_line(lines[0].as_slice());
    let ghost root_name: Option<Seq<u8>> = match &root {
        Some(rp) => Some(rp.0@),
        None => None,
    };
    let mut out: Vec<ClosureEntry> = Vec::new();
    let ghost target = spec_tree_closure(text@);
    match root {
        Some(rp) => {
            let rn = rp.0;
            let mut j: usize = 0;
            proof {
                assert(m.take(0) =~= Seq::<(Seq<u8>, VersionView)>::empty());
                assert(closure_entry_pairs(out@) =~= spec_remove_name(m.take(0), rn@));
            }
            while j < entries.len()
                invariant
                    0 <= j <= m.len(),
                    m == entry_pair_views(entries@),
                    distinct_names(m),
                    closure_entry_pairs(out@) == spec_remove_name(m.take(j as int), rn@),
                    forall|k: int|
                        0 <= k < out@.len() ==> (#[trigger] closure_views_of(
                            out@,
                        )[k]).resolved is Known,
                decreases m.len() - j,
            {
                proof {
                    assert(m[j as int] == (entries@[j as int].0@, entries@[j as int].1@));
                    lemma_remove_push(m.take(j as int), m[j as int], rn@);
                    assert(m.take(j + 1) =~= m.take(j as int).push(m[j as int]));
                }
                if !crate::bytes::bytes_eq(entries[j].0.as_slice(), rn.as_slice()) {
                    let name = slice_to_vec_range(entries[j].0.as_slice(), 0, entries[j].0.len());
                    let v = crate::version::clone_version(&entries[j].1);
                    proof {
                        assert(name@ =~= entries@[j as int].0@);
                    }
                    let ghost prev = out@;
                    out.push(ClosureEntry { name, resolved: Resolved::Known(v) });
                    proof {
                        assert(closure_entry_pairs(out@) =~= closure_entry_pairs(prev).push(
                            (m[j as int].0, m[j as int].1),
                        ));
                        assert forall|k: int| 0 <= k < out@.len() implies (
                        #[trigger] closure_views_of(out@)[k]).resolved is Known by {
                            assert(closure_views_of(out@)[k] == out@[k]@);
                            if k < prev.len() {
                                assert(out@[k] == prev[k]);
                                assert(closure_views_of(prev)[k] == prev[k]@);
                            }
                        }
                    }
                }
                j = j + 1;
            }
            proof {
                assert(m.take(m.len() as int) =~= m);
            }
        },
        None => {
            let mut j: usize = 0;
            proof {
                assert(m.take(0) =~= Seq::<(Seq<u8>, VersionView)>::empty());
                assert(closure_entry_pairs(out@) =~= m.take(0));
            }
            while j < entries.len()
                invariant
                    0 <= j <= m.len(),
                    m == entry_pair_views(entries@),
                    distinct_names(m),
                    closure_entry_pairs(out@) == m.take(j as int),
                    forall|k: int|
                        0 <= k < out@.len() ==> (#[trigger] closure_views_of(
                            out@,
                        )[k]).resolved is Known,
                decreases m.len() - j,
            {
                proof {
                    assert(m[j as int] == (entries@[j as int].0@, entries@[j as int].1@));
                    assert(m.take(j + 1) =~= m.take(j as int).push(m[j as int]));
                }
                let name = slice_to_vec_range(entries[j].0.as_slice(), 0, entries[j].0.len());
                let v = crate::version::clone_version(&entries[j].1);
                proof {
                    assert(name@ =~= entries@[j as int].0@);
                }
                let ghost prev = out@;
                out.push(ClosureEntry { name, resolved: Resolved::Known(v) });
                proof {
                    assert(closure_entry_pairs(out@) =~= closure_entry_pairs(prev).push(
                        (m[j as int].0, m[j as int].1),
                    ));
                    assert forall|k: int| 0 <= k < out@.len() implies (
                    #[trigger] closure_views_of(out@)[k]).resolved is Known by {
                        assert(closure_views_of(out@)[k] == out@[k]@);
                        if k < prev.len() {
                            assert(out@[k] == prev[k]);
                            assert(closure_views_of(prev)[k] == prev[k]@);
                        }
                    }
                }
                j = j + 1;
            }
            proof {
                assert(m.take(m.len() as int) =~= m);
            }
        },
    }
    proof {
        match root_name {
            Some(rn) => {
                lemma_remove_keeps_distinct(m, rn);
            },
            None => {},
        }
        assert(closure_entry_pairs(out@) == target);
        assert(distinct_names(target));
        assert forall|a: int, b: int| 0 <= a < b < out@.len() implies (#[trigger] closure_views_of(
            out@,
        )[a]).name != (#[trigger] closure_views_of(out@)[b]).name by {
            assert(closure_views_of(out@)[a].name == closure_entry_pairs(out@)[a].0);
            assert(closure_views_of(out@)[b].name == closure_entry_pairs(out@)[b].0);
        }
        assert forall|k: int| 0 <= k < out@.len() implies closure_views_of(out@).map_values(
            |e: crate::classify::ClosureEntryView| (e.name, e.resolved),
        )[k] == target.map_values(
            |p: (Seq<u8>, VersionView)| (p.0, crate::classify::ResolvedView::Known(p.1)),
        )[#[trigger] (k + 0)] by {
            let e = closure_views_of(out@)[k];
            assert(e.resolved is Known);
            assert(closure_entry_pairs(out@)[k] == target[k]);
            assert(closure_entry_pairs(out@)[k].0 == e.name);
            assert(e.resolved == crate::classify::ResolvedView::Known(
                closure_entry_pairs(out@)[k].1,
            ));
        }
        assert(closure_views_of(out@).map_values(
            |e: crate::classify::ClosureEntryView| (e.name, e.resolved),
        ) =~= target.map_values(
            |p: (Seq<u8>, VersionView)| (p.0, crate::classify::ResolvedView::Known(p.1)),
        ));
    }
    out
}

/// The (name, version) pairs of closure entries whose versions are known.
pub open spec fn closure_entry_pairs(l: Seq<ClosureEntry>) -> Seq<(Seq<u8>, VersionView)> {
    l.map_values(
        |e: ClosureEntry|
            (
                e.name@,
                match e.resolved@ {
                    crate::classify::ResolvedView::Known(v) => v,
                    crate::classify::ResolvedView::Unparsed(_) => VersionView {
                        major: 0,
                        minor: 0,
                        patch: 0,
                        pre: Seq::empty(),
                        build: Seq::empty(),
                    },
                },
            ),
    )
}

proof fn lemma_remove_push(m: Seq<(Seq<u8>, VersionView)>, x: (Seq<u8>, VersionView), name: Seq<u8>)
    ensures
        spec_remove_name(m.push(x), name) == (if x.0 == name {
            spec_remove_name(m, name)
        } else {
            spec_remove_name(m, name).push(x)
        }),
    decreases m.len(),
{
    let mp = m.push(x);
    if m.len() == 0 {
        assert(mp[0] == x);
        assert(mp.skip(1) =~= Seq::<(Seq<u8>, VersionView)>::empty());
        assert(spec_remove_name(mp.skip(1), name) == Seq::<(Seq<u8>, VersionView)>::empty());
        if x.0 == name {
            assert(spec_remove_name(mp, name) == spec_remove_name(mp.skip(1), name));
        } else {
            assert(spec_remove_name(mp, name) == seq![x] + spec_remove_name(mp.skip(1), name));
            assert(seq![x] + Seq::<(Seq<u8>, VersionView)>::empty() =~= spec_remove_name(
                m,
                name,
            ).push(x));
        }
    } else {
        assert(mp[0] == m[0]);
        assert(mp.skip(1) =~= m.skip(1).push(x));
        lemma_remove_push(m.skip(1), x, name);
        assert(spec_remove_name(mp.skip(1), name) == spec_remove_name(
            m.skip(1).push(x),
            name,
        ));
        if m[0].0 == name {
            assert(spec_remove_name(mp, name) == spec_remove_name(mp.skip(1), name));
            assert(spec_remove_name(m, name) == spec_remove_name(m.skip(1), name));
        } else {
            assert(spec_remove_name(mp, name) == seq![m[0]] + spec_remove_name(
                mp.skip(1),
                name,
            ));
            assert(spec_remove_name(m, name) == seq![m[0]] + spec_remove_name(
                m.skip(1),
                name,
            ));
            if x.0 != name {
                assert(seq![m[0]] + spec_remove_name(m.skip(1), name).push(x) =~= (seq![m[0]]
                    + spec_remove_name(m.skip(1), name)).push(x));
            }
        }
    }
}

proof fn lemma_remove_subset(m: Seq<(Seq<u8>, VersionView)>, name: Seq<u8>)
    ensures
        forall|k: int|
            0 <= k < spec_remove_name(m, name).len() ==> m.contains(
                #[trigger] spec_remove_name(m, name)[k],
            ),
    decreases m.len(),
{
    if m.len() > 0 {
        lemma_remove_subset(m.skip(1), name);
        let r = spec_remove_name(m, name);
        assert forall|k: int| 0 <= k < r.len() implies m.contains(#[trigger] r[k]) by {
            if m[0].0 == name {
                assert(r[k] == spec_remove_name(m.skip(1), name)[k]);
                assert(m.skip(1).contains(r[k]));
                let j = choose|j: int| 0 <= j < m.skip(1).len() && m.skip(1)[j] == r[k];
                assert(m[j + 1] == r[k]);
            } else {
                if k == 0 {
                    assert(r[0] == m[0]);
                } else {
                    assert(r[k] == spec_remove_name(m.skip(1), name)[k - 1]);
                    assert(m.skip(1).contains(r[k]));
                    let j = choose|j: int| 0 <= j < m.skip(1).len() && m.skip(1)[j] == r[k];
                    assert(m[j + 1] == r[k]);
                }
            }
        }
    }
}

/// Removing a name keeps the remaining names distinct.
proof fn lemma_remove_keeps_distinct(m: Seq<(Seq<u8>, VersionView)>, name: Seq<u8>)
    requires
        distinct_names(m),
    ensures
        distinct_names(spec_remove_name(m, name)),
    decreases m.len(),
{
    if m.len() > 0 {
        assert forall|a: int, b: int| 0 <= a < b < m.skip(1).len() implies (#[trigger] m.skip(
            1,
        )[a]).0 != (#[trigger] m.skip(1)[b]).0 by {
            assert(m.skip(1)[a] == m[a + 1] && m.skip(1)[b] == m[b + 1]);
        }
        lemma_remove_keeps_distinct(m.skip(1), name);
        lemma_remove_subset(m.skip(1), name);
        let r = spec_remove_name(m, name);
        let rt = spec_remove_name(m.skip(1), name);
        if m[0].0 == name {
        } else {
            assert forall|a: int, b: int| 0 <= a < b < r.len() implies (#[trigger] r[a]).0 != (
            #[trigger] r[b]).0 by {
                if a == 0 {
                    assert(r[b] == rt[b - 1]);
                    assert(m.skip(1).contains(rt[b - 1]));
                    let j = choose|j: int|
                        0 <= j < m.skip(1).len() && m.skip(1)[j] == rt[b - 1];
                    assert(m[j + 1] == rt[b - 1]);
                    assert(r[0] == m[0]);
                } else {
                    assert(r[a] == rt[a - 1] && r[b] == rt[b - 1]);
                }
            }
        }
    }
}

} // verus!

//! The mirror's inventory: its listing file parsed into a canonically sorted,
//! duplicate-free set of raw artifact lines plus the package ids parsed from
//! them, and the append-only merge that writes the listing back.

use crate::bytes::{is_ascii_ws, lex_cmp, lemma_lex_cmp_antisym, lemma_lex_cmp_eq,
    lemma_lex_cmp_trans, cmp_bytes, push_all, slice_to_vec_range, spec_split, spec_trim,
    split_sep, trim_ascii};
use crate::filename::{parse_filename, spec_parse_filename};
use crate::version::{Version, VersionView};
use vstd::prelude::*;

verus! {

/// A line the inventory may hold: nonempty, no surrounding whitespace, no
/// newline inside.
pub open spec fn line_clean(l: Seq<u8>) -> bool {
    l.len() > 0 && !is_ascii_ws(l[0]) && !is_ascii_ws(l[l.len() - 1]) && (forall|j: int|
        0 <= j < l.len() ==> l[j] != 10u8)
}

/// The views of a list of byte vectors.
pub open spec fn line_views(l: Seq<Vec<u8>>) -> Seq<Seq<u8>> {
    l.map_values(|x: Vec<u8>| x@)
}

/// The views of a list of parsed entries.
pub open spec fn entry_views_of(l: Seq<(Vec<u8>, Version)>) -> Seq<(Seq<u8>, VersionView)> {
    l.map_values(|e: (Vec<u8>, Version)| (e.0@, e.1@))
}

/// Strictly increasing in lexicographic order: sorted and duplicate-free.
pub open spec fn sorted_strict(l: Seq<Seq<u8>>) -> bool {
    forall|i: int, j: int| 0 <= i < j < l.len() ==> lex_cmp(#[trigger] l[i], #[trigger] l[j]) < 0
}

/// The nonempty members of a sequence of byte strings, in order.
pub open spec fn keep_nonempty(s: Seq<Seq<u8>>) -> Seq<Seq<u8>> {
    s.filter(|l: Seq<u8>| l.len() > 0)
}

/// The trimmed, nonblank lines of a listing text.
pub open spec fn spec_clean_lines(text: Seq<u8>) -> Seq<Seq<u8>> {
    keep_nonempty(spec_split(text, 10u8).map_values(|l: Seq<u8>| spec_trim(l)))
}

proof fn lemma_keep_push(s: Seq<Seq<u8>>, x: Seq<u8>)
    ensures
        keep_nonempty(s.push(x)) == (if x.len() > 0 {
            keep_nonempty(s).push(x)
        } else {
            keep_nonempty(s)
        }),
{
    reveal_with_fuel(Seq::filter, 2);
    assert(s.push(x).drop_last() =~= s);
    assert(s.push(x).last() == x);
}

proof fn lemma_keep_member(s: Seq<Seq<u8>>, x: Seq<u8>)
    requires
        keep_nonempty(s).contains(x),
    ensures
        s.contains(x),
        x.len() > 0,
    decreases s.len(),
{
    reveal_with_fuel(Seq::filter, 2);
    if s.len() > 0 {
        let p = s.drop_last();
        assert(s =~= p.push(s.last()));
        lemma_keep_push(p, s.last());
        if s.last() == x && x.len() > 0 {
            assert(s[s.len() - 1] == x);
        } else {
            assert(keep_nonempty(p).contains(x)) by {
                let f = keep_nonempty(s);
                let j = choose|j: int| 0 <= j < f.len() && f[j] == x;
                if s.last().len() > 0 {
                    if j < f.len() - 1 {
                        assert(keep_nonempty(p)[j] == x);
                    } else {
                        assert(x == s.last());
                        assert(false);
                    }
                } else {
                    assert(f == keep_nonempty(p));
                }
            }
            lemma_keep_member(p, x);
            let j = choose|j: int| 0 <= j < p.len() && p[j] == x;
            assert(s[j] == x);
        }
    }
}

/// The package ids parsed from a sequence of lines, in order; lines that do
/// not follow the artifact convention contribute nothing.
pub open spec fn spec_parsed_entries(lines: Seq<Seq<u8>>) -> Seq<(Seq<u8>, VersionView)>
    decreases lines.len(),
{
    if lines.len() == 0 {
        Seq::empty()
    } else {
        let rest = spec_parsed_entries(lines.skip(1));
        match spec_parse_filename(lines[0]) {
            Some(p) => seq![p] + rest,
            None => rest,
        }
    }
}

pub struct Inventory {
    /// The raw artifact lines, sorted, without duplicates.
    pub raw: Vec<Vec<u8>>,
    /// The package ids of the lines that parse, in the order of `raw`.
    pub entries: Vec<(Vec<u8>, Version)>,
}

impl Inventory {
    pub open spec fn raw_lines(self) -> Seq<Seq<u8>> {
        line_views(self.raw@)
    }

    pub open spec fn entry_views(self) -> Seq<(Seq<u8>, VersionView)> {
        entry_views_of(self.entries@)
    }

    pub open spec fn wf(self) -> bool {
        &&& sorted_strict(self.raw_lines())
        &&& forall|k: int| 0 <= k < self.raw_lines().len() ==> line_clean(#[trigger] self.raw_lines()[k])
        &&& self.entry_views() == spec_parsed_entries(self.raw_lines())
        &&& forall|k: int| 0 <= k < self.entries@.len() ==> (#[trigger] self.entries@[k].1).wf()
    }

    /// Whether some parsed entry carries this package name.
    pub open spec fn has_name(self, name: Seq<u8>) -> bool {
        exists|k: int| 0 <= k < self.entry_views().len() && (#[trigger] self.entry_views()[k]).0 == name
    }
}

/// Inserts `item` into a sorted duplicate-free list, keeping it so; a
/// duplicate is dropped.
pub fn sorted_insert(list: &mut Vec<Vec<u8>>, item: Vec<u8>)
    requires
        sorted_strict(line_views(old(list)@)),
    ensures
        sorted_strict(line_views(final(list)@)),
        forall|x: Seq<u8>|
            #![trigger line_views(final(list)@).contains(x)]
            #![trigger line_views(old(list)@).contains(x)]
            line_views(final(list)@).contains(x) <==> (line_views(old(list)@).contains(x) || x
                == item@),
{
    let ghost olds = line_views(list@);
    let mut idx: usize = 0;
    while idx < list.len()
        invariant
            0 <= idx <= list@.len(),
            line_views(list@) == olds,
            olds == line_views(old(list)@),
            sorted_strict(olds),
            forall|k: int| 0 <= k < idx ==> lex_cmp(#[trigger] olds[k], item@) < 0,
        decreases list@.len() - idx,
    {
        let c = cmp_bytes(list[idx].as_slice(), item.as_slice());
        proof {
            assert(olds[idx as int] == list@[idx as int]@);
        }
        if c == 0 {
            proof {
                lemma_lex_cmp_eq(olds[idx as int], item@);
                assert(olds.contains(item@));
            }
            return;
        }
        if c > 0 {
            insert_at(list, idx, item);
            return;
        }
        idx = idx + 1;
    }
    insert_at(list, idx, item);
}

fn insert_at(list: &mut Vec<Vec<u8>>, idx: usize, item: Vec<u8>)
    requires
        idx <= old(list)@.len(),
        sorted_strict(line_views(old(list)@)),
        forall|k: int| 0 <= k < idx ==> lex_cmp(#[trigger] line_views(old(list)@)[k], item@) < 0,
        idx < old(list)@.len() ==> lex_cmp(line_views(old(list)@)[idx as int], item@) > 0,
    ensures
        sorted_strict(line_views(final(list)@)),
        forall|x: Seq<u8>|
            #![trigger line_views(final(list)@).contains(x)]
            #![trigger line_views(old(list)@).contains(x)]
            line_views(final(list)@).contains(x) <==> (line_views(old(list)@).contains(x) || x
                == item@),
{
    let ghost olds = line_views(list@);
    let ghost itemv = item@;
    list.insert(idx, item);
    proof {
        let news = line_views(list@);
        assert(news.len() == olds.len() + 1);
        assert forall|k: int| 0 <= k < news.len() implies news[k] == (if k < idx {
            olds[k]
        } else if k == idx {
            itemv
        } else {
            olds[k - 1]
        }) by {
            assert(news[k] == list@[k]@);
        }
        assert forall|i: int, j: int| 0 <= i < j < news.len() implies lex_cmp(
            #[trigger] news[i],
            #[trigger] news[j],
        ) < 0 by {
            if i == idx && j > idx {
                // item against a later element: the element at idx and after
                // it are all above item
                assert(lex_cmp(olds[j - 1], itemv) > 0) by {
                    if j - 1 > idx {
                        assert(lex_cmp(olds[idx as int], olds[j - 1]) < 0);
                        lemma_lex_cmp_antisym(olds[idx as int], olds[j - 1]);
                        lemma_lex_cmp_antisym(olds[idx as int], itemv);
                        lemma_lex_cmp_trans(itemv, olds[idx as int], olds[j - 1]);
                        lemma_lex_cmp_antisym(itemv, olds[j - 1]);
                    }
                }
                lemma_lex_cmp_antisym(olds[j - 1], itemv);
            }
            if j == idx && i < idx {
                assert(lex_cmp(olds[i], itemv) < 0);
            }
        }
        assert forall|x: Seq<u8>| news.contains(x) <==> (olds.contains(x) || x == itemv) by {
            if news.contains(x) {
                let k = choose|k: int| 0 <= k < news.len() && news[k] == x;
                if k != idx {
                    assert(olds[if k < idx {
                        k
                    } else {
                        k - 1
                    }] == x);
                }
            }
            if olds.contains(x) {
                let k = choose|k: int| 0 <= k < olds.len() && olds[k] == x;
                assert(news[if k < idx {
                    k
                } else {
                    k + 1
                }] == x);
            }
            if x == itemv {
                assert(news[idx as int] == x);
            }
        }
    }
}

/// Parses the listing text: lines are trimmed, blank ones dropped, the rest
/// collected sorted and duplicate-free, and each line that follows the
/// artifact convention contributes a package id.
pub fn inventory_from_text(text: &[u8]) -> (r: Inventory)
    ensures
        r.wf(),
        forall|x: Seq<u8>| r.raw_lines().contains(x) <==> spec_clean_lines(text@).contains(x),
{
    let lines = split_sep(text, 10u8);
    let mut raw: Vec<Vec<u8>> = Vec::new();
    let ghost all = lines@.map_values(|l: Vec<u8>| l@).map_values(|l: Seq<u8>| spec_trim(l));
    let mut i: usize = 0;
    proof {
        assert(all =~= spec_split(text@, 10u8).map_values(|l: Seq<u8>| spec_trim(l)));
    }
    while i < lines.len()
        invariant
            0 <= i <= lines@.len(),
            all == lines@.map_values(|l: Vec<u8>| l@).map_values(|l: Seq<u8>| spec_trim(l)),
            all == spec_split(text@, 10u8).map_values(|l: Seq<u8>| spec_trim(l)),
            sorted_strict(raw@.map_values(|l: Vec<u8>| l@)),
            forall|x: Seq<u8>|
                #![trigger line_views(raw@).contains(x)]
                line_views(raw@).contains(x) <==> keep_nonempty(all.take(i as int)).contains(x),
        decreases lines@.len() - i,
    {
        let t = trim_ascii(lines[i].as_slice());
        let ghost tv = t@;
        proof {
            assert(all[i as int] == spec_trim(lines@[i as int]@));
            assert(all.take(i + 1) =~= all.take(i as int).push(all[i as int]));
            lemma_keep_push(all.take(i as int), all[i as int]);
        }
        if t.len() > 0 {
            sorted_insert(&mut raw, t);
            proof {
                let fnew = keep_nonempty(all.take(i + 1));
                let fold = keep_nonempty(all.take(i as int));
                assert(fnew == fold.push(tv));
                assert forall|x: Seq<u8>| line_views(raw@).contains(x) <==> fnew.contains(x) by {
                    if fnew.contains(x) {
                        let k = choose|k: int| 0 <= k < fnew.len() && fnew[k] == x;
                        if k < fold.len() {
                            assert(fold[k] == x);
                        } else {
                            assert(x == tv);
                        }
                    }
                    if fold.contains(x) {
                        let k = choose|k: int| 0 <= k < fold.len() && fold[k] == x;
                        assert(fnew[k] == x);
                    }
                    if x == tv {
                        assert(fnew[fnew.len() - 1] == x);
                    }
                }
            }
        } else {
            proof {
                assert(keep_nonempty(all.take(i + 1)) == keep_nonempty(all.take(i as int)));
            }
        }
        i = i + 1;
    }
    proof {
        assert(all.take(all.len() as int) =~= all);
    }
    let entries = parse_raw_entries(&raw);
    let inv = Inventory { raw, entries };
    proof {
        assert forall|k: int| 0 <= k < inv.raw_lines().len() implies line_clean(
            #[trigger] inv.raw_lines()[k],
        ) by {
            assert(inv.raw_lines().contains(inv.raw_lines()[k]));
            assert(line_views(inv.raw@).contains(inv.raw_lines()[k]));
            let f = spec_clean_lines(text@);
            assert(f.contains(inv.raw_lines()[k]));
            let m = choose|m: int| 0 <= m < f.len() && f[m] == inv.raw_lines()[k];
            lemma_clean_lines_clean(text@, m);
        }
    }
    inv
}

/// Every clean line of a text is trimmed, nonempty, and newline-free.
proof fn lemma_clean_lines_clean(text: Seq<u8>, m: int)
    requires
        0 <= m < spec_clean_lines(text).len(),
    ensures
        line_clean(spec_clean_lines(text)[m]),
{
    let split = spec_split(text, 10u8);
    let mapped = split.map_values(|l: Seq<u8>| spec_trim(l));
    let f = spec_clean_lines(text);
    assert(f.contains(f[m]));
    lemma_keep_member(mapped, f[m]);
    let k = choose|k: int| 0 <= k < mapped.len() && mapped[k] == f[m];
    assert(mapped[k] == spec_trim(split[k]));
    lemma_split_piece_no_sep(text, 10u8, k);
    lemma_trim_clean(split[k]);
}

/// A piece of a split contains no separator byte.
proof fn lemma_split_piece_no_sep(text: Seq<u8>, sep: u8, k: int)
    requires
        0 <= k < spec_split(text, sep).len(),
    ensures
        forall|j: int| 0 <= j < spec_split(text, sep)[k].len() ==> spec_split(text, sep)[k][j] != sep,
    decreases text.len(),
{
    crate::bytes::lemma_first_occ(text, sep);
    let i = crate::bytes::first_occ(text, sep) as int;
    if i >= text.len() {
    } else {
        if k == 0 {
            assert(spec_split(text, sep)[0] == text.take(i));
        } else {
            assert(spec_split(text, sep)[k] == spec_split(text.skip(i + 1), sep)[k - 1]);
            lemma_split_piece_no_sep(text.skip(i + 1), sep, k - 1);
        }
    }
}

/// A nonempty trimmed value has no whitespace at either end; trimming keeps
/// every byte of the result within the original.
proof fn lemma_trim_clean(l: Seq<u8>)
    ensures
        spec_trim(l).len() > 0 ==> !is_ascii_ws(spec_trim(l)[0]) && !is_ascii_ws(
            spec_trim(l)[spec_trim(l).len() - 1],
        ),
        forall|j: int| 0 <= j < spec_trim(l).len() ==> l.contains(#[trigger] spec_trim(l)[j]),
    decreases l.len(),
{
    if l.len() == 0 {
    } else if is_ascii_ws(l[0]) {
        lemma_trim_clean(l.skip(1));
        assert forall|j: int| 0 <= j < spec_trim(l).len() implies l.contains(
            #[trigger] spec_trim(l)[j],
        ) by {
            assert(l.skip(1).contains(spec_trim(l)[j]));
            let m = choose|m: int| 0 <= m < l.skip(1).len() && l.skip(1)[m] == spec_trim(l)[j];
            assert(l[m + 1] == spec_trim(l)[j]);
        }
    } else if is_ascii_ws(l[l.len() - 1]) {
        lemma_trim_clean(l.take(l.len() - 1));
        assert forall|j: int| 0 <= j < spec_trim(l).len() implies l.contains(
            #[trigger] spec_trim(l)[j],
        ) by {
            assert(l.take(l.len() - 1).contains(spec_trim(l)[j]));
            let m = choose|m: int|
                0 <= m < l.take(l.len() - 1).len() && #[trigger] l.take(l.len() - 1)[m]
                    == spec_trim(l)[j];
            assert(l[m] == spec_trim(l)[j]);
        }
    } else {
        assert forall|j: int| 0 <= j < spec_trim(l).len() implies l.contains(
            #[trigger] spec_trim(l)[j],
        ) by {
            assert(l[j] == spec_trim(l)[j]);
        }
    }
}

/// The listing text of a sequence of lines: each line followed by a newline.
pub open spec fn spec_render(lines: Seq<Seq<u8>>) -> Seq<u8>
    decreases lines.len(),
{
    if lines.len() == 0 {
        Seq::empty()
    } else {
        lines[0] + seq![10u8] + spec_render(lines.skip(1))
    }
}

proof fn lemma_render_cat(a: Seq<Seq<u8>>, b: Seq<Seq<u8>>)
    ensures
        spec_render(a + b) == spec_render(a) + spec_render(b),
    decreases a.len(),
{
    if a.len() == 0 {
        assert(a + b =~= b);
        assert(Seq::<u8>::empty() + spec_render(b) =~= spec_render(b));
    } else {
        lemma_render_cat(a.skip(1), b);
        assert((a + b).skip(1) =~= a.skip(1) + b);
        assert((a + b)[0] == a[0]);
        assert(a[0] + seq![10u8] + (spec_render(a.skip(1)) + spec_render(b)) =~= (a[0]
            + seq![10u8] + spec_render(a.skip(1))) + spec_render(b));
    }
}

/// Renders lines into the listing text that is written back.
pub fn render_lines(lines: &Vec<Vec<u8>>) -> (r: Vec<u8>)
    ensures
        r@ == spec_render(line_views(lines@)),
{
    let ghost lv = line_views(lines@);
    let mut out: Vec<u8> = Vec::new();
    let mut i: usize = 0;
    proof {
        assert(lv.take(0) =~= Seq::<Seq<u8>>::empty());
        assert(out@ =~= spec_render(lv.take(0)));
    }
    while i < lines.len()
        invariant
            0 <= i <= lv.len(),
            lv == line_views(lines@),
            out@ == spec_render(lv.take(i as int)),
        decreases lv.len() - i,
    {
        push_all(&mut out, lines[i].as_slice());
        out.push(10u8);
        proof {
            let one = seq![lv[i as int]];
            lemma_render_cat(lv.take(i as int), one);
            assert(one.skip(1) =~= Seq::<Seq<u8>>::empty());
            assert(spec_render(one.skip(1)) =~= Seq::<u8>::empty());
            assert(spec_render(one) =~= lv[i as int] + seq![10u8]);
            assert(lv.take(i + 1) =~= lv.take(i as int) + one);
            assert(out@ =~= spec_render(lv.take(i as int)) + (lv[i as int] + seq![10u8]));
        }
        i = i + 1;
    }
    proof {
        assert(lv.take(lv.len() as int) =~= lv);
    }
    out
}

/// The merged listing: the union of the inventory's raw lines and the
/// accepted additions, sorted and duplicate-free; nothing is ever removed,
/// and with no additions the listing is returned unchanged.
pub fn merge_lines(inv: &Inventory, additions: &Vec<Vec<u8>>) -> (r: Vec<Vec<u8>>)
    requires
        sorted_strict(inv.raw_lines()),
    ensures
        sorted_strict(line_views(r@)),
        forall|x: Seq<u8>|
            #![trigger line_views(r@).contains(x)]
            line_views(r@).contains(x) <==> (inv.raw_lines().contains(x) || line_views(
                additions@,
            ).contains(x)),
        additions@.len() == 0 ==> line_views(r@) == inv.raw_lines(),
{
    let mut out: Vec<Vec<u8>> = Vec::new();
    let mut i: usize = 0;
    while i < inv.raw.len()
        invariant
            0 <= i <= inv.raw@.len(),
            out@.len() == i,
            forall|k: int| 0 <= k < i ==> #[trigger] out@[k]@ == inv.raw@[k]@,
        decreases inv.raw@.len() - i,
    {
        let copy = slice_to_vec_range(inv.raw[i].as_slice(), 0, inv.raw[i].len());
        proof {
            assert(copy@ =~= inv.raw@[i as int]@);
        }
        out.push(copy);
        i = i + 1;
    }
    proof {
        assert forall|k: int| 0 <= k < out@.len() implies #[trigger] line_views(out@)[k]
            == inv.raw_lines()[k] by {
            assert(out@[k]@ == inv.raw@[k]@);
        }
        assert(line_views(out@) =~= inv.raw_lines());
    }
    let ghost av = line_views(additions@);
    let mut j: usize = 0;
    while j < additions.len()
        invariant
            0 <= j <= av.len(),
            av == line_views(additions@),
            sorted_strict(line_views(out@)),
            forall|x: Seq<u8>|
                #![trigger line_views(out@).contains(x)]
                line_views(out@).contains(x) <==> (inv.raw_lines().contains(x) || av.take(
                    j as int,
                ).contains(x)),
        decreases av.len() - j,
    {
        let item = slice_to_vec_range(additions[j].as_slice(), 0, additions[j].len());
        let ghost itemv = item@;
        let ghost before = out@;
        proof {
            assert(itemv =~= av[j as int]);
        }
        sorted_insert(&mut out, item);
        proof {
            assert forall|x: Seq<u8>|
                av.take(j + 1).contains(x) <==> (av.take(j as int).contains(x) || x
                    == itemv) by {
                assert(av.take(j + 1) =~= av.take(j as int).push(av[j as int]));
                if av.take(j + 1).contains(x) {
                    let k = choose|k: int| 0 <= k < j + 1 && #[trigger] av.take(j + 1)[k] == x;
                    if k < j {
                        assert(av.take(j as int)[k] == x);
                    }
                }
                if av.take(j as int).contains(x) {
                    let k = choose|k: int| 0 <= k < j && #[trigger] av.take(j as int)[k] == x;
                    assert(av.take(j + 1)[k] == x);
                }
                if x == itemv {
                    assert(av.take(j + 1)[j as int] == x);
                }
            }
            assert forall|x: Seq<u8>|
                #![trigger line_views(out@).contains(x)]
                line_views(out@).contains(x) <==> (inv.raw_lines().contains(x) || av.take(
                    j + 1,
                ).contains(x)) by {
                assert(line_views(out@).contains(x) <==> (line_views(before).contains(x) || x
                    == itemv));
            }
        }
        j = j + 1;
    }
    proof {
        assert(av.take(av.len() as int) =~= av);
        if av.len() == 0 {
            lemma_sorted_unique_eq(line_views(out@), inv.raw_lines());
        }
    }
    out
}

/// Trimming is the identity on a clean line.
proof fn lemma_trim_id(l: Seq<u8>)
    requires
        l.len() > 0,
        !is_ascii_ws(l[0]),
        !is_ascii_ws(l[l.len() - 1]),
    ensures
        spec_trim(l) == l,
{
}

proof fn lemma_keep_all(s: Seq<Seq<u8>>)
    requires
        forall|k: int| 0 <= k < s.len() ==> (#[trigger] s[k]).len() > 0,
    ensures
        keep_nonempty(s) == s,
    decreases s.len(),
{
    reveal_with_fuel(Seq::filter, 2);
    if s.len() > 0 {
        let p = s.drop_last();
        lemma_keep_all(p);
        assert(s[s.len() - 1].len() > 0);
        assert(keep_nonempty(s) == keep_nonempty(p).push(s.last()));
        assert(p.push(s.last()) =~= s);
    }
}

/// Splitting a rendered listing at newlines gives back the lines, plus one
/// final empty piece after the trailing newline.
proof fn lemma_split_render(lines: Seq<Seq<u8>>)
    requires
        forall|k: int, j: int|
            0 <= k < lines.len() && 0 <= j < lines[k].len() ==> #[trigger] lines[k][j] != 10u8,
    ensures
        spec_split(spec_render(lines), 10u8) == lines.push(Seq::<u8>::empty()),
    decreases lines.len(),
{
    let t = spec_render(lines);
    if lines.len() == 0 {
        crate::bytes::lemma_first_occ_is(t, 10u8, 0);
        assert(seq![t] =~= lines.push(Seq::<u8>::empty()));
    } else {
        let l0 = lines[0];
        let rest = spec_render(lines.skip(1));
        assert forall|j: int| 0 <= j < l0.len() implies t[j] != 10u8 by {
            assert(t[j] == l0[j]);
        }
        assert(t[l0.len() as int] == 10u8);
        crate::bytes::lemma_first_occ_is(t, 10u8, l0.len() as int);
        assert(t.take(l0.len() as int) =~= l0);
        assert(t.skip(l0.len() as int + 1) =~= rest);
        assert forall|k: int, j: int|
            0 <= k < lines.skip(1).len() && 0 <= j < lines.skip(1)[k].len() implies #[trigger] lines.skip(
            1,
        )[k][j] != 10u8 by {
            assert(lines.skip(1)[k] == lines[k + 1]);
            assert(lines[k + 1][j] != 10u8);
        }
        lemma_split_render(lines.skip(1));
        assert(spec_split(t, 10u8) == seq![l0] + lines.skip(1).push(Seq::<u8>::empty()));
        assert(seq![l0] + lines.skip(1).push(Seq::<u8>::empty()) =~= lines.push(
            Seq::<u8>::empty(),
        ));
    }
}

/// Reading a rendered listing back gives exactly the same lines: the merge
/// that wrote it was idempotent, and re-merging with nothing accepted yields
/// byte-identical output.
pub proof fn lemma_render_round_trip(lines: Seq<Seq<u8>>)
    requires
        forall|k: int| 0 <= k < lines.len() ==> line_clean(#[trigger] lines[k]),
    ensures
        spec_clean_lines(spec_render(lines)) == lines,
{
    assert forall|k: int, j: int|
        0 <= k < lines.len() && 0 <= j < lines[k].len() implies #[trigger] lines[k][j]
        != 10u8 by {
        assert(line_clean(lines[k]));
    }
    lemma_split_render(lines);
    let split = spec_split(spec_render(lines), 10u8);
    let mapped = split.map_values(|l: Seq<u8>| spec_trim(l));
    assert forall|k: int| 0 <= k < mapped.len() implies mapped[k] == (if k < lines.len() {
        lines[k]
    } else {
        Seq::<u8>::empty()
    }) by {
        if k < lines.len() {
            assert(split[k] == lines[k]);
            lemma_trim_id(lines[k]);
        } else {
            assert(split[k] =~= Seq::<u8>::empty());
        }
    }
    assert(mapped =~= lines.push(Seq::<u8>::empty()));
    lemma_keep_push(lines, Seq::<u8>::empty());
    lemma_keep_all(lines);
}

/// Merge is idempotent: an inventory written out, read back, and merged with
/// an empty accepted set renders to byte-identical text. `reread` stands for
/// any listing the parser can produce from the written text: sorted,
/// duplicate-free, and holding exactly the written lines.
pub proof fn lemma_merge_idempotent(inv: Inventory, reread: Inventory)
    requires
        inv.wf(),
        sorted_strict(reread.raw_lines()),
        forall|x: Seq<u8>|
            reread.raw_lines().contains(x) <==> spec_clean_lines(
                spec_render(inv.raw_lines()),
            ).contains(x),
    ensures
        reread.raw_lines() == inv.raw_lines(),
        spec_render(reread.raw_lines()) == spec_render(inv.raw_lines()),
{
    lemma_render_round_trip(inv.raw_lines());
    lemma_sorted_unique_eq(reread.raw_lines(), inv.raw_lines());
}

/// Two sorted duplicate-free listings with the same members are the same
/// listing.
pub proof fn lemma_sorted_unique_eq(a: Seq<Seq<u8>>, b: Seq<Seq<u8>>)
    requires
        sorted_strict(a),
        sorted_strict(b),
        forall|x: Seq<u8>| a.contains(x) <==> b.contains(x),
    ensures
        a == b,
    decreases a.len(),
{
    if a.len() == 0 {
        if b.len() > 0 {
            assert(b.contains(b[0]));
            assert(a.contains(b[0]));
        }
        assert(a =~= b);
    } else {
        assert(a.contains(a[0]));
        assert(b.contains(b[0]));
        let j = choose|j: int| 0 <= j < b.len() && b[j] == a[0];
        let i = choose|i: int| 0 <= i < a.len() && a[i] == b[0];
        assert(a[0] == b[0]) by {
            if i > 0 && j > 0 {
                assert(lex_cmp(b[0], b[j]) < 0);
                assert(lex_cmp(a[0], a[i]) < 0);
                lemma_lex_cmp_trans(a[0], a[i], b[j]);
                lemma_lex_cmp_eq(a[0], b[j]);
            }
        }
        let at = a.skip(1);
        let bt = b.skip(1);
        assert forall|m: int, n: int| 0 <= m < n < at.len() implies lex_cmp(
            #[trigger] at[m],
            #[trigger] at[n],
        ) < 0 by {
            assert(at[m] == a[m + 1] && at[n] == a[n + 1]);
        }
        assert forall|m: int, n: int| 0 <= m < n < bt.len() implies lex_cmp(
            #[trigger] bt[m],
            #[trigger] bt[n],
        ) < 0 by {
            assert(bt[m] == b[m + 1] && bt[n] == b[n + 1]);
        }
        assert forall|x: Seq<u8>| at.contains(x) <==> bt.contains(x) by {
            if at.contains(x) {
                let m = choose|m: int| 0 <= m < at.len() && at[m] == x;
                assert(a[m + 1] == x);
                assert(a.contains(x));
                assert(b.contains(x));
                let n = choose|n: int| 0 <= n < b.len() && b[n] == x;
                assert(n > 0) by {
                    if n == 0 {
                        assert(lex_cmp(a[0], a[m + 1]) < 0);
                        lemma_lex_cmp_eq(a[0], a[m + 1]);
                    }
                }
                assert(bt[n - 1] == x);
            }
            if bt.contains(x) {
                let m = choose|m: int| 0 <= m < bt.len() && bt[m] == x;
                assert(b[m + 1] == x);
                assert(b.contains(x));
                assert(a.contains(x));
                let n = choose|n: int| 0 <= n < a.len() && a[n] == x;
                assert(n > 0) by {
                    if n == 0 {
                        assert(lex_cmp(b[0], b[m + 1]) < 0);
                        lemma_lex_cmp_eq(b[0], b[m + 1]);
                    }
                }
                assert(at[n - 1] == x);
            }
        }
        lemma_sorted_unique_eq(at, bt);
        assert forall|k: int| 0 <= k < a.len() implies a[k] == b[k] by {
            if k > 0 {
                assert(at[k - 1] == a[k]);
                assert(bt[k - 1] == b[k]);
            }
        }
        assert(a =~= b);
    }
}

fn parse_raw_entries(raw: &Vec<Vec<u8>>) -> (r: Vec<(Vec<u8>, Version)>)
    ensures
        entry_views_of(r@) == spec_parsed_entries(line_views(raw@)),
        forall|k: int| 0 <= k < r@.len() ==> (#[trigger] r@[k].1).wf(),
{
    let ghost lines = line_views(raw@);
    let mut out: Vec<(Vec<u8>, Version)> = Vec::new();
    let mut i: usize = 0;
    proof {
        assert(lines.skip(0) =~= lines);
    }
    while i < raw.len()
        invariant
            0 <= i <= lines.len(),
            lines == line_views(raw@),
            spec_parsed_entries(lines) == entry_views_of(out@) + spec_parsed_entries(
                lines.skip(i as int),
            ),
            forall|k: int| 0 <= k < out@.len() ==> (#[trigger] out@[k].1).wf(),
        decreases lines.len() - i,
    {
        proof {
            assert(lines.skip(i as int)[0] == lines[i as int]);
            assert(lines.skip(i as int).skip(1) =~= lines.skip(i + 1));
        }
        match parse_filename(raw[i].as_slice()) {
            Some(p) => {
                let ghost pv = (p.0@, p.1@);
                out.push(p);
                proof {
                    assert(entry_views_of(out@) + spec_parsed_entries(lines.skip(i + 1))
                        =~= entry_views_of(out@).drop_last() + (seq![pv] + spec_parsed_entries(
                        lines.skip(i + 1),
                    )));
                }
            },
            None => {},
        }
        i = i + 1;
    }
    proof {
        assert(lines.skip(lines.len() as int) =~= Seq::<Seq<u8>>::empty());
        assert(entry_views_of(out@) + Seq::<(Seq<u8>, VersionView)>::empty() =~= entry_views_of(
            out@,
        ));
    }
    out
}

} // verus!

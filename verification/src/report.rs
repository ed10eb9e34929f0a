//! Renders the classifier's report as text: the satisfied count, the gap
//! count, and one line per gap with its name, required version, category and
//! reason — deterministic, since the gaps come ordered by name.

use crate::bytes::{dec_digits, push_all, slice_to_vec_range, u64_to_dec};
use crate::classify::{gap_views_of, Category, GapEntryView, GapReport};
use vstd::prelude::*;

verus! {

/// The word a category prints as.
pub open spec fn category_word(c: Category) -> Seq<u8> {
    match c {
        Category::NewDependency => seq![110u8, 101u8, 119u8, 45u8, 100u8, 101u8, 112u8, 101u8, 110u8, 100u8, 101u8, 110u8, 99u8, 121u8],
        Category::Downgrade => seq![100u8, 111u8, 119u8, 110u8, 103u8, 114u8, 97u8, 100u8, 101u8],
        Category::MajorUpgrade => seq![109u8, 97u8, 106u8, 111u8, 114u8, 45u8, 117u8, 112u8, 103u8, 114u8, 97u8, 100u8, 101u8],
        Category::MinorPatchUpgrade => seq![109u8, 105u8, 110u8, 111u8, 114u8, 45u8, 112u8, 97u8, 116u8, 99u8, 104u8, 45u8, 117u8, 112u8, 103u8, 114u8, 97u8, 100u8, 101u8],
        Category::Unparseable => seq![117u8, 110u8, 112u8, 97u8, 114u8, 115u8, 101u8, 97u8, 98u8, 108u8, 101u8],
    }
}

fn category_word_exec(c: Category) -> (r: Vec<u8>)
    ensures
        r@ == category_word(c),
{
    match c {
        Category::NewDependency => {
            let codes: [u8; 14] = [
                110,
                101,
                119,
                45,
                100,
                101,
                112,
                101,
                110,
                100,
                101,
                110,
                99,
                121,
            ];
            let r = slice_to_vec_range(codes.as_slice(), 0, 14);
            proof {
                assert(r@ =~= category_word(c));
            }
            r
        },
        Category::Downgrade => {
            let codes: [u8; 9] = [100, 111, 119, 110, 103, 114, 97, 100, 101];
            let r = slice_to_vec_range(codes.as_slice(), 0, 9);
            proof {
                assert(r@ =~= category_word(c));
            }
            r
        },
        Category::MajorUpgrade => {
            let codes: [u8; 13] = [109, 97, 106, 111, 114, 45, 117, 112, 103, 114, 97, 100, 101];
            let r = slice_to_vec_range(codes.as_slice(), 0, 13);
            proof {
                assert(r@ =~= category_word(c));
            }
            r
        },
        Category::MinorPatchUpgrade => {
            let codes: [u8; 19] = [
                109,
                105,
                110,
                111,
                114,
                45,
                112,
                97,
                116,
                99,
                104,
                45,
                117,
                112,
                103,
                114,
                97,
                100,
                101,
            ];
            let r = slice_to_vec_range(codes.as_slice(), 0, 19);
            proof {
                assert(r@ =~= category_word(c));
            }
            r
        },
        Category::Unparseable => {
            let codes: [u8; 11] = [117, 110, 112, 97, 114, 115, 101, 97, 98, 108, 101];
            let r = slice_to_vec_range(codes.as_slice(), 0, 11);
            proof {
                assert(r@ =~= category_word(c));
            }
            r
        },
    }
}

/// `satisfied: ` and `gaps: `.
pub open spec fn satisfied_label() -> Seq<u8> {
    seq![115u8, 97u8, 116u8, 105u8, 115u8, 102u8, 105u8, 101u8, 100u8, 58u8, 32u8]
}

pub open spec fn gaps_label() -> Seq<u8> {
    seq![103u8, 97u8, 112u8, 115u8, 58u8, 32u8]
}

/// One gap's line: name, required version, category word, then the reason
/// after a colon.
pub open spec fn spec_gap_line(g: GapEntryView) -> Seq<u8> {
    g.name + seq![32u8] + g.required + seq![32u8] + category_word(g.category) + seq![58u8, 32u8]
        + g.reason
}

pub open spec fn spec_gap_lines(l: Seq<GapEntryView>) -> Seq<u8>
    decreases l.len(),
{
    if l.len() == 0 {
        Seq::empty()
    } else {
        spec_gap_line(l[0]) + seq![10u8] + spec_gap_lines(l.skip(1))
    }
}

/// The whole report's text.
pub open spec fn spec_render_report(satisfied: nat, gaps: Seq<GapEntryView>) -> Seq<u8> {
    satisfied_label() + dec_digits(satisfied) + seq![10u8] + gaps_label() + dec_digits(gaps.len())
        + seq![10u8] + spec_gap_lines(gaps)
}

proof fn lemma_gap_lines_cat(a: Seq<GapEntryView>, b: Seq<GapEntryView>)
    ensures
        spec_gap_lines(a + b) == spec_gap_lines(a) + spec_gap_lines(b),
    decreases a.len(),
{
    if a.len() == 0 {
        assert(a + b =~= b);
        assert(Seq::<u8>::empty() + spec_gap_lines(b) =~= spec_gap_lines(b));
    } else {
        lemma_gap_lines_cat(a.skip(1), b);
        assert((a + b).skip(1) =~= a.skip(1) + b);
        assert((a + b)[0] == a[0]);
        assert(spec_gap_line(a[0]) + seq![10u8] + (spec_gap_lines(a.skip(1)) + spec_gap_lines(b))
            =~= (spec_gap_line(a[0]) + seq![10u8] + spec_gap_lines(a.skip(1))) + spec_gap_lines(
            b,
        ));
    }
}

fn push_label_satisfied(out: &mut Vec<u8>)
    ensures
        final(out)@ == old(out)@ + satisfied_label(),
{
    let codes: [u8; 11] = [115, 97, 116, 105, 115, 102, 105, 101, 100, 58, 32];
    let label = slice_to_vec_range(codes.as_slice(), 0, 11);
    proof {
        assert(label@ =~= satisfied_label());
    }
    push_all(out, label.as_slice());
}

fn push_label_gaps(out: &mut Vec<u8>)
    ensures
        final(out)@ == old(out)@ + gaps_label(),
{
    let codes: [u8; 6] = [103, 97, 112, 115, 58, 32];
    let label = slice_to_vec_range(codes.as_slice(), 0, 6);
    proof {
        assert(label@ =~= gaps_label());
    }
    push_all(out, label.as_slice());
}

/// How many gaps fall in one category.
pub open spec fn spec_count_category(l: Seq<GapEntryView>, c: Category) -> int
    decreases l.len(),
{
    if l.len() == 0 {
        0
    } else {
        (if l[0].category == c {
            1int
        } else {
            0int
        }) + spec_count_category(l.skip(1), c)
    }
}

/// The gap count of one category, for the summary's per-category figures.
pub fn count_category(r: &GapReport, c: Category) -> (n: usize)
    ensures
        n == spec_count_category(gap_views_of(r.gaps@), c),
{
    let ghost gv = gap_views_of(r.gaps@);
    let mut n: usize = 0;
    let mut i: usize = 0;
    proof {
        assert(gv.skip(0) =~= gv);
        lemma_count_category_bounds(gv, c);
    }
    while i < r.gaps.len()
        invariant
            0 <= i <= gv.len(),
            gv == gap_views_of(r.gaps@),
            n + spec_count_category(gv.skip(i as int), c) == spec_count_category(gv, c),
            n <= i,
            0 <= spec_count_category(gv.skip(i as int), c),
        decreases gv.len() - i,
    {
        proof {
            assert(gv.skip(i as int)[0] == gv[i as int]);
            assert(gv[i as int] == r.gaps@[i as int]@);
            assert(gv.skip(i as int).skip(1) =~= gv.skip(i + 1));
            lemma_count_category_bounds(gv.skip(i + 1), c);
        }
        if r.gaps[i].category == c {
            n = n + 1;
        }
        i = i + 1;
    }
    proof {
        assert(gv.skip(gv.len() as int) =~= Seq::<GapEntryView>::empty());
    }
    n
}

proof fn lemma_count_category_bounds(l: Seq<GapEntryView>, c: Category)
    ensures
        0 <= spec_count_category(l, c) <= l.len(),
    decreases l.len(),
{
    if l.len() > 0 {
        lemma_count_category_bounds(l.skip(1), c);
    }
}

/// Renders the report, exactly as `spec_render_report` says.
pub fn render_report(r: &GapReport) -> (out: Vec<u8>)
    ensures
        out@ == spec_render_report(r.satisfied as nat, gap_views_of(r.gaps@)),
{
    let ghost gv = gap_views_of(r.gaps@);
    let mut out: Vec<u8> = Vec::new();
    push_label_satisfied(&mut out);
    let sat = u64_to_dec(r.satisfied as u64);
    push_all(&mut out, sat.as_slice());
    out.push(10u8);
    push_label_gaps(&mut out);
    let cnt = u64_to_dec(r.gaps.len() as u64);
    push_all(&mut out, cnt.as_slice());
    out.push(10u8);
    let ghost head = satisfied_label() + dec_digits(r.satisfied as nat) + seq![10u8]
        + gaps_label() + dec_digits(gv.len()) + seq![10u8];
    proof {
        assert(out@ =~= head);
    }
    let mut i: usize = 0;
    proof {
        assert(gv.take(0) =~= Seq::<GapEntryView>::empty());
        assert(out@ =~= head + spec_gap_lines(gv.take(0)));
    }
    while i < r.gaps.len()
        invariant
            0 <= i <= gv.len(),
            gv == gap_views_of(r.gaps@),
            head == satisfied_label() + dec_digits(r.satisfied as nat) + seq![10u8]
                + gaps_label() + dec_digits(gv.len()) + seq![10u8],
            out@ == head + spec_gap_lines(gv.take(i as int)),
        decreases gv.len() - i,
    {
        let g = &r.gaps[i];
        proof {
            assert(gv[i as int] == r.gaps@[i as int]@);
        }
        push_all(&mut out, g.name.as_slice());
        out.push(32u8);
        push_all(&mut out, g.required.as_slice());
        out.push(32u8);
        let word = category_word_exec(g.category);
        push_all(&mut out, word.as_slice());
        out.push(58u8);
        out.push(32u8);
        push_all(&mut out, g.reason.as_slice());
        out.push(10u8);
        proof {
            let one = seq![gv[i as int]];
            lemma_gap_lines_cat(gv.take(i as int), one);
            assert(one.skip(1) =~= Seq::<GapEntryView>::empty());
            assert(spec_gap_lines(one.skip(1)) =~= Seq::<u8>::empty());
            assert(spec_gap_lines(one) =~= spec_gap_line(gv[i as int]) + seq![10u8]);
            assert(gv.take(i + 1) =~= gv.take(i as int) + one);
            assert(out@ =~= head + spec_gap_lines(gv.take(i + 1)));
        }
        i = i + 1;
    }
    proof {
        assert(gv.take(gv.len() as int) =~= gv);
    }
    out
}

} // verus!

//! The library's own model of a semantic version: numeric triple, pre-release
//! identifiers, and build metadata, held as plain values. Defines semver
//! precedence ordering (major, minor, patch, then pre-release rules), the
//! canonical text rendering, and the compatible-with (caret) rule used for
//! synthesized requirements.

use crate::bytes::{dec_digits, lex_cmp, lemma_lex_cmp_eq, lemma_lex_cmp_trans, cmp_bytes,
    push_all, spec_split, u64_to_dec};
use vstd::prelude::*;

verus! {

pub const DOT: u8 = 46;

pub const DASH: u8 = 45;

pub const PLUS: u8 = 43;

pub open spec fn is_digit(b: u8) -> bool {
    48 <= b <= 57
}

pub open spec fn is_ident_char(b: u8) -> bool {
    is_digit(b) || (65 <= b <= 90) || (97 <= b <= 122) || b == 45
}

/// One pre-release identifier: purely numeric (kept as its digit bytes,
/// compared numerically) or alphanumeric (compared as ASCII text).
pub enum PreIdent {
    Num(Vec<u8>),
    Alpha(Vec<u8>),
}

pub enum PreIdentView {
    Num(Seq<u8>),
    Alpha(Seq<u8>),
}

impl View for PreIdent {
    type V = PreIdentView;

    open spec fn view(&self) -> PreIdentView {
        match self {
            PreIdent::Num(d) => PreIdentView::Num(d@),
            PreIdent::Alpha(a) => PreIdentView::Alpha(a@),
        }
    }
}

/// A numeric identifier: nonempty digits, no leading zero.
pub open spec fn wf_num(d: Seq<u8>) -> bool {
    d.len() > 0 && (forall|j: int| 0 <= j < d.len() ==> is_digit(d[j])) && (d.len() == 1 || d[0]
        != 48)
}

/// An alphanumeric identifier: nonempty, identifier characters, at least one
/// non-digit.
pub open spec fn wf_alpha(a: Seq<u8>) -> bool {
    a.len() > 0 && (forall|j: int| 0 <= j < a.len() ==> is_ident_char(a[j])) && (exists|j: int|
        0 <= j < a.len() && !is_digit(a[j]))
}

pub open spec fn wf_ident(i: PreIdentView) -> bool {
    match i {
        PreIdentView::Num(d) => wf_num(d),
        PreIdentView::Alpha(a) => wf_alpha(a),
    }
}

/// Build metadata: empty, or dot-separated nonempty runs of identifier
/// characters.
pub open spec fn wf_build(b: Seq<u8>) -> bool {
    b.len() == 0 || ((forall|j: int| 0 <= j < b.len() ==> is_ident_char(b[j]) || b[j] == DOT)
        && b[0] != DOT && b[b.len() - 1] != DOT && (forall|j: int|
        0 < j < b.len() ==> !(b[j - 1] == DOT && #[trigger] b[j] == DOT)))
}

pub struct Version {
    pub major: u64,
    pub minor: u64,
    pub patch: u64,
    pub pre: Vec<PreIdent>,
    pub build: Vec<u8>,
}

pub struct VersionView {
    pub major: u64,
    pub minor: u64,
    pub patch: u64,
    pub pre: Seq<PreIdentView>,
    pub build: Seq<u8>,
}

impl View for Version {
    type V = VersionView;

    open spec fn view(&self) -> VersionView {
        VersionView {
            major: self.major,
            minor: self.minor,
            patch: self.patch,
            pre: self.pre@.map_values(|i: PreIdent| i@),
            build: self.build@,
        }
    }
}

impl VersionView {
    pub open spec fn wf(self) -> bool {
        (forall|k: int| 0 <= k < self.pre.len() ==> wf_ident(#[trigger] self.pre[k])) && wf_build(
            self.build,
        )
    }
}

impl Version {
    pub open spec fn wf(&self) -> bool {
        self@.wf()
    }

    /// A plain numeric version, no pre-release, no build metadata.
    pub fn new(major: u64, minor: u64, patch: u64) -> (r: Version)
        ensures
            r@ == (VersionView { major, minor, patch, pre: Seq::<PreIdentView>::empty(), build: Seq::<u8>::empty() }),
            r.wf(),
    {
        let r = Version { major, minor, patch, pre: Vec::new(), build: Vec::new() };
        proof {
            assert(r@.pre =~= Seq::<PreIdentView>::empty());
            assert(r@.build =~= Seq::<u8>::empty());
            assert(r@ =~= (VersionView { major, minor, patch, pre: Seq::<PreIdentView>::empty(), build: Seq::<u8>::empty() }));
        }
        r
    }
}

/// Numeric identifier comparison: a shorter digit string (no leading zeros)
/// is the smaller number; equal lengths compare lexicographically.
pub open spec fn cmp_num(x: Seq<u8>, y: Seq<u8>) -> int {
    if x.len() < y.len() {
        -1
    } else if x.len() > y.len() {
        1
    } else {
        lex_cmp(x, y)
    }
}

/// Semver precedence of single pre-release identifiers: numeric identifiers
/// come before alphanumeric ones.
pub open spec fn cmp_ident(a: PreIdentView, b: PreIdentView) -> int {
    match (a, b) {
        (PreIdentView::Num(x), PreIdentView::Num(y)) => cmp_num(x, y),
        (PreIdentView::Num(_), PreIdentView::Alpha(_)) => -1,
        (PreIdentView::Alpha(_), PreIdentView::Num(_)) => 1,
        (PreIdentView::Alpha(x), PreIdentView::Alpha(y)) => lex_cmp(x, y),
    }
}

/// Identifier-sequence precedence: pairwise, a missing identifier sorts
/// before any present one.
pub open spec fn cmp_idents(a: Seq<PreIdentView>, b: Seq<PreIdentView>) -> int
    decreases a.len(),
{
    if a.len() == 0 && b.len() == 0 {
        0
    } else if a.len() == 0 {
        -1
    } else if b.len() == 0 {
        1
    } else if cmp_ident(a[0], b[0]) != 0 {
        cmp_ident(a[0], b[0])
    } else {
        cmp_idents(a.skip(1), b.skip(1))
    }
}

/// Full semver precedence: major, minor, patch, then pre-release (a version
/// without pre-release identifiers has the higher precedence). Build metadata
/// is ignored.
pub open spec fn cmp_version(a: VersionView, b: VersionView) -> int {
    if a.major != b.major {
        if a.major < b.major {
            -1
        } else {
            1
        }
    } else if a.minor != b.minor {
        if a.minor < b.minor {
            -1
        } else {
            1
        }
    } else if a.patch != b.patch {
        if a.patch < b.patch {
            -1
        } else {
            1
        }
    } else if a.pre.len() == 0 && b.pre.len() == 0 {
        0
    } else if a.pre.len() == 0 {
        1
    } else if b.pre.len() == 0 {
        -1
    } else {
        cmp_idents(a.pre, b.pre)
    }
}

pub open spec fn version_le(a: VersionView, b: VersionView) -> bool {
    cmp_version(a, b) <= 0
}

pub open spec fn version_lt(a: VersionView, b: VersionView) -> bool {
    cmp_version(a, b) < 0
}

proof fn lemma_cmp_num_trans(x: Seq<u8>, y: Seq<u8>, z: Seq<u8>)
    requires
        cmp_num(x, y) <= 0,
        cmp_num(y, z) <= 0,
    ensures
        cmp_num(x, z) <= 0,
        cmp_num(x, y) < 0 || cmp_num(y, z) < 0 ==> cmp_num(x, z) < 0,
{
    if x.len() == y.len() && y.len() == z.len() {
        lemma_lex_cmp_trans(x, y, z);
    }
}

proof fn lemma_cmp_ident_trans(a: PreIdentView, b: PreIdentView, c: PreIdentView)
    requires
        cmp_ident(a, b) <= 0,
        cmp_ident(b, c) <= 0,
    ensures
        cmp_ident(a, c) <= 0,
        cmp_ident(a, b) < 0 || cmp_ident(b, c) < 0 ==> cmp_ident(a, c) < 0,
{
    match (a, b, c) {
        (PreIdentView::Num(x), PreIdentView::Num(y), PreIdentView::Num(z)) => {
            lemma_cmp_num_trans(x, y, z);
        },
        (PreIdentView::Alpha(x), PreIdentView::Alpha(y), PreIdentView::Alpha(z)) => {
            lemma_lex_cmp_trans(x, y, z);
        },
        _ => {},
    }
}

proof fn lemma_cmp_num_eq(x: Seq<u8>, y: Seq<u8>)
    ensures
        cmp_num(x, y) == 0 <==> x == y,
{
    lemma_lex_cmp_eq(x, y);
}

proof fn lemma_cmp_ident_eq(a: PreIdentView, b: PreIdentView)
    ensures
        cmp_ident(a, b) == 0 <==> a == b,
{
    match (a, b) {
        (PreIdentView::Num(x), PreIdentView::Num(y)) => {
            lemma_cmp_num_eq(x, y);
        },
        (PreIdentView::Alpha(x), PreIdentView::Alpha(y)) => {
            lemma_lex_cmp_eq(x, y);
        },
        _ => {},
    }
}

proof fn lemma_cmp_idents_trans(a: Seq<PreIdentView>, b: Seq<PreIdentView>, c: Seq<PreIdentView>)
    requires
        cmp_idents(a, b) <= 0,
        cmp_idents(b, c) <= 0,
    ensures
        cmp_idents(a, c) <= 0,
        cmp_idents(a, b) < 0 || cmp_idents(b, c) < 0 ==> cmp_idents(a, c) < 0,
    decreases a.len(),
{
    if a.len() == 0 {
    } else if b.len() == 0 {
    } else if c.len() == 0 {
    } else {
        lemma_cmp_ident_trans(a[0], b[0], c[0]);
        lemma_cmp_ident_eq(a[0], b[0]);
        lemma_cmp_ident_eq(b[0], c[0]);
        lemma_cmp_ident_eq(a[0], c[0]);
        if cmp_ident(a[0], b[0]) == 0 && cmp_ident(b[0], c[0]) == 0 {
            lemma_cmp_idents_trans(a.skip(1), b.skip(1), c.skip(1));
        }
    }
}

proof fn lemma_cmp_ident_antisym(a: PreIdentView, b: PreIdentView)
    ensures
        cmp_ident(a, b) == -cmp_ident(b, a),
{
    match (a, b) {
        (PreIdentView::Num(x), PreIdentView::Num(y)) => {
            crate::bytes::lemma_lex_cmp_antisym(x, y);
        },
        (PreIdentView::Alpha(x), PreIdentView::Alpha(y)) => {
            crate::bytes::lemma_lex_cmp_antisym(x, y);
        },
        _ => {},
    }
}

proof fn lemma_cmp_idents_antisym(a: Seq<PreIdentView>, b: Seq<PreIdentView>)
    ensures
        cmp_idents(a, b) == -cmp_idents(b, a),
    decreases a.len(),
{
    if a.len() != 0 && b.len() != 0 {
        lemma_cmp_ident_antisym(a[0], b[0]);
        lemma_cmp_idents_antisym(a.skip(1), b.skip(1));
    }
}

/// Reversing the arguments negates the comparison.
pub proof fn lemma_cmp_version_antisym(a: VersionView, b: VersionView)
    ensures
        cmp_version(a, b) == -cmp_version(b, a),
{
    lemma_cmp_idents_antisym(a.pre, b.pre);
}

/// The precedence order is transitive, strictly so when either step is
/// strict.
pub proof fn lemma_version_le_trans(a: VersionView, b: VersionView, c: VersionView)
    requires
        version_le(a, b),
        version_le(b, c),
    ensures
        version_le(a, c),
        version_lt(a, b) || version_lt(b, c) ==> version_lt(a, c),
{
    if a.major == c.major && a.minor == c.minor && a.patch == c.patch && a.major == b.major
        && a.minor == b.minor && a.patch == b.patch {
        if a.pre.len() != 0 && b.pre.len() != 0 && c.pre.len() != 0 {
            lemma_cmp_idents_trans(a.pre, b.pre, c.pre);
        }
    }
}

/// Exec three-way comparison of identifiers.
fn cmp_pre_ident(a: &PreIdent, b: &PreIdent) -> (r: i32)
    ensures
        r == cmp_ident(a@, b@),
{
    match (a, b) {
        (PreIdent::Num(x), PreIdent::Num(y)) => {
            if x.len() < y.len() {
                -1
            } else if x.len() > y.len() {
                1
            } else {
                proof {
                    crate::bytes::lemma_lex_cmp_range(x@, y@);
                }
                cmp_bytes(x.as_slice(), y.as_slice())
            }
        },
        (PreIdent::Num(_), PreIdent::Alpha(_)) => -1,
        (PreIdent::Alpha(_), PreIdent::Num(_)) => 1,
        (PreIdent::Alpha(x), PreIdent::Alpha(y)) => {
            proof {
                crate::bytes::lemma_lex_cmp_range(x@, y@);
            }
            cmp_bytes(x.as_slice(), y.as_slice())
        },
    }
}

fn cmp_pre(a: &Vec<PreIdent>, b: &Vec<PreIdent>) -> (r: i32)
    ensures
        r == cmp_idents(a@.map_values(|i: PreIdent| i@), b@.map_values(|i: PreIdent| i@)),
{
    let ga = Ghost(a@.map_values(|i: PreIdent| i@));
    let gb = Ghost(b@.map_values(|i: PreIdent| i@));
    let mut i: usize = 0;
    proof {
        assert(ga@.skip(0) =~= ga@);
        assert(gb@.skip(0) =~= gb@);
    }
    loop
        invariant
            i <= ga@.len(),
            i <= gb@.len(),
            ga@ == a@.map_values(|x: PreIdent| x@),
            gb@ == b@.map_values(|x: PreIdent| x@),
            cmp_idents(ga@, gb@) == cmp_idents(ga@.skip(i as int), gb@.skip(i as int)),
        decreases ga@.len() - i,
    {
        if i == a.len() && i == b.len() {
            return 0;
        }
        if i == a.len() {
            return -1;
        }
        if i == b.len() {
            return 1;
        }
        let c = cmp_pre_ident(&a[i], &b[i]);
        proof {
            assert(ga@.skip(i as int)[0] == ga@[i as int]);
            assert(gb@.skip(i as int)[0] == gb@[i as int]);
        }
        if c != 0 {
            return c;
        }
        proof {
            assert(ga@.skip(i as int).skip(1) =~= ga@.skip(i + 1));
            assert(gb@.skip(i as int).skip(1) =~= gb@.skip(i + 1));
        }
        i = i + 1;
    }
}

/// Exec three-way comparison matching `cmp_version`.
pub fn compare_versions(a: &Version, b: &Version) -> (r: i32)
    ensures
        r == cmp_version(a@, b@),
{
    if a.major != b.major {
        return if a.major < b.major {
            -1
        } else {
            1
        };
    }
    if a.minor != b.minor {
        return if a.minor < b.minor {
            -1
        } else {
            1
        };
    }
    if a.patch != b.patch {
        return if a.patch < b.patch {
            -1
        } else {
            1
        };
    }
    let an = a.pre.len();
    let bn = b.pre.len();
    proof {
        assert(a@.pre.len() == a.pre@.len());
        assert(b@.pre.len() == b.pre@.len());
    }
    if an == 0 && bn == 0 {
        return 0;
    }
    if an == 0 {
        return 1;
    }
    if bn == 0 {
        return -1;
    }
    cmp_pre(&a.pre, &b.pre)
}

pub fn version_le_exec(a: &Version, b: &Version) -> (r: bool)
    ensures
        r == version_le(a@, b@),
{
    compare_versions(a, b) <= 0
}

pub fn version_eq_exec(a: &Version, b: &Version) -> (r: bool)
    ensures
        r <==> cmp_version(a@, b@) == 0 && a@.build == b@.build,
{
    let c = compare_versions(a, b);
    if c != 0 {
        return false;
    }
    crate::bytes::bytes_eq(a.build.as_slice(), b.build.as_slice())
}

/// Versions at the same precedence with equal build metadata are equal
/// values.
pub proof fn lemma_cmp_version_eq(a: VersionView, b: VersionView)
    ensures
        cmp_version(a, b) == 0 && a.build == b.build <==> a == b,
{
    lemma_cmp_idents_eq(a.pre, b.pre);
    if cmp_version(a, b) == 0 && a.build == b.build {
        assert(a =~= b);
    }
}

proof fn lemma_cmp_idents_eq(a: Seq<PreIdentView>, b: Seq<PreIdentView>)
    ensures
        cmp_idents(a, b) == 0 <==> a == b,
    decreases a.len(),
{
    if a.len() == 0 && b.len() == 0 {
        assert(a =~= b);
    } else if a.len() == 0 || b.len() == 0 {
    } else {
        lemma_cmp_ident_eq(a[0], b[0]);
        lemma_cmp_idents_eq(a.skip(1), b.skip(1));
        if cmp_idents(a, b) == 0 {
            assert(a.skip(1) == b.skip(1));
            assert forall|k: int| 0 <= k < a.len() implies a[k] == b[k] by {
                if k > 0 {
                    assert(a.skip(1)[k - 1] == a[k]);
                    assert(b.skip(1)[k - 1] == b[k]);
                }
            }
            assert(a =~= b);
        } else {
            if a == b {
                assert(a.skip(1) =~= b.skip(1));
            }
        }
    }
}

/// The canonical text of one identifier.
pub open spec fn spec_ident_bytes(i: PreIdentView) -> Seq<u8> {
    match i {
        PreIdentView::Num(d) => d,
        PreIdentView::Alpha(a) => a,
    }
}

/// Identifiers joined with dots.
pub open spec fn spec_join_idents(pre: Seq<PreIdentView>) -> Seq<u8>
    decreases pre.len(),
{
    if pre.len() == 0 {
        Seq::empty()
    } else if pre.len() == 1 {
        spec_ident_bytes(pre[0])
    } else {
        spec_ident_bytes(pre[0]) + seq![DOT] + spec_join_idents(pre.skip(1))
    }
}

/// Canonical rendering: `major.minor.patch`, `-pre` when pre-release
/// identifiers are present, `+build` when build metadata is present.
pub open spec fn spec_canon(v: VersionView) -> Seq<u8> {
    dec_digits(v.major as nat) + seq![DOT] + dec_digits(v.minor as nat) + seq![DOT] + dec_digits(
        v.patch as nat,
    ) + (if v.pre.len() == 0 {
        Seq::<u8>::empty()
    } else {
        seq![DASH] + spec_join_idents(v.pre)
    }) + (if v.build.len() == 0 {
        Seq::<u8>::empty()
    } else {
        seq![PLUS] + v.build
    })
}

pub fn version_to_bytes(v: &Version) -> (r: Vec<u8>)
    ensures
        r@ == spec_canon(v@),
{
    let mut out = u64_to_dec(v.major);
    out.push(DOT);
    let minor = u64_to_dec(v.minor);
    push_all(&mut out, minor.as_slice());
    out.push(DOT);
    let patch = u64_to_dec(v.patch);
    push_all(&mut out, patch.as_slice());
    let ghost head = dec_digits(v.major as nat) + seq![DOT] + dec_digits(v.minor as nat)
        + seq![DOT] + dec_digits(v.patch as nat);
    proof {
        assert(out@ =~= head);
    }
    if v.pre.len() > 0 {
        out.push(DASH);
        let joined = join_idents(&v.pre);
        push_all(&mut out, joined.as_slice());
        proof {
            assert(out@ =~= head + (seq![DASH] + spec_join_idents(v@.pre)));
        }
    }
    let ghost mid = head + (if v@.pre.len() == 0 {
        Seq::<u8>::empty()
    } else {
        seq![DASH] + spec_join_idents(v@.pre)
    });
    proof {
        assert(out@ =~= mid);
    }
    if v.build.len() > 0 {
        out.push(PLUS);
        push_all(&mut out, v.build.as_slice());
        proof {
            assert(out@ =~= mid + (seq![PLUS] + v@.build));
        }
    }
    proof {
        assert(out@ =~= spec_canon(v@));
    }
    out
}

/// The dot-joined text of a version's pre-release identifiers (empty bytes
/// when there are none).
pub fn join_pre_text(v: &Version) -> (r: Vec<u8>)
    ensures
        r@ == spec_join_idents(v@.pre),
{
    if v.pre.len() == 0 {
        let r: Vec<u8> = Vec::new();
        proof {
            assert(r@ =~= spec_join_idents(v@.pre));
        }
        r
    } else {
        join_idents(&v.pre)
    }
}

fn join_idents(pre: &Vec<PreIdent>) -> (r: Vec<u8>)
    requires
        pre@.len() > 0,
    ensures
        r@ == spec_join_idents(pre@.map_values(|i: PreIdent| i@)),
{
    let ghost gpre = pre@.map_values(|i: PreIdent| i@);
    let mut out: Vec<u8> = Vec::new();
    let first = match &pre[0] {
        PreIdent::Num(d) => d,
        PreIdent::Alpha(a) => a,
    };
    push_all(&mut out, first.as_slice());
    proof {
        assert(out@ =~= spec_ident_bytes(gpre[0]));
    }
    let mut i: usize = 1;
    while i < pre.len()
        invariant
            1 <= i <= pre@.len(),
            gpre == pre@.map_values(|x: PreIdent| x@),
            out@ == spec_join_idents(gpre.take(i as int)),
        decreases pre@.len() - i,
    {
        out.push(DOT);
        let next = match &pre[i] {
            PreIdent::Num(d) => d,
            PreIdent::Alpha(a) => a,
        };
        push_all(&mut out, next.as_slice());
        proof {
            lemma_join_take_step(gpre, i as int);
            assert(out@ =~= spec_join_idents(gpre.take(i + 1)));
        }
        i = i + 1;
    }
    proof {
        assert(gpre.take(gpre.len() as int) =~= gpre);
    }
    out
}

proof fn lemma_join_take_step(pre: Seq<PreIdentView>, i: int)
    requires
        1 <= i < pre.len(),
    ensures
        spec_join_idents(pre.take(i + 1)) == spec_join_idents(pre.take(i)) + seq![DOT]
            + spec_ident_bytes(pre[i]),
    decreases i,
{
    if i == 1 {
        let t = pre.take(2);
        assert(t[0] == pre[0]);
        assert(t.skip(1) =~= seq![pre[1]]);
        assert(spec_join_idents(seq![pre[1]]) == spec_ident_bytes(pre[1]));
        assert(pre.take(1)[0] == pre[0]);
    } else {
        lemma_join_take_step(pre.skip(1), i - 1);
        let a = pre.take(i + 1);
        let b = pre.take(i);
        assert(a[0] == pre[0]);
        assert(b[0] == pre[0]);
        assert(a.skip(1) =~= pre.skip(1).take(i));
        assert(b.skip(1) =~= pre.skip(1).take(i - 1));
        assert(pre.skip(1)[i - 1] == pre[i]);
        assert(spec_join_idents(a) == spec_ident_bytes(pre[0]) + seq![DOT] + spec_join_idents(
            pre.skip(1).take(i),
        ));
        assert(spec_join_idents(b) == spec_ident_bytes(pre[0]) + seq![DOT] + spec_join_idents(
            pre.skip(1).take(i - 1),
        ));
        assert(spec_join_idents(pre.take(i + 1)) =~= spec_join_idents(pre.take(i)) + seq![DOT]
            + spec_ident_bytes(pre[i]));
    }
}

/// How a single pre-release token reads: numeric if it is a well-formed
/// number, alphanumeric if it is a well-formed identifier, otherwise invalid.
pub open spec fn classify_ident(tok: Seq<u8>) -> Option<PreIdentView> {
    if wf_num(tok) {
        Some(PreIdentView::Num(tok))
    } else if wf_alpha(tok) {
        Some(PreIdentView::Alpha(tok))
    } else {
        None
    }
}

pub open spec fn classify_all(toks: Seq<Seq<u8>>) -> Option<Seq<PreIdentView>>
    decreases toks.len(),
{
    if toks.len() == 0 {
        Some(Seq::empty())
    } else {
        match (classify_ident(toks[0]), classify_all(toks.skip(1))) {
            (Some(i), Some(rest)) => Some(seq![i] + rest),
            _ => None,
        }
    }
}

/// The pre-release identifiers read from their dot-joined text; `None` when a
/// token is not a valid identifier.
pub open spec fn spec_parse_pre(s: Seq<u8>) -> Option<Seq<PreIdentView>> {
    if s.len() == 0 {
        Some(Seq::empty())
    } else {
        classify_all(crate::bytes::spec_split(s, DOT))
    }
}

pub proof fn lemma_classify_all_wf(toks: Seq<Seq<u8>>)
    requires
        classify_all(toks) is Some,
    ensures
        forall|k: int|
            0 <= k < classify_all(toks).unwrap().len() ==> wf_ident(
                #[trigger] classify_all(toks).unwrap()[k],
            ),
    decreases toks.len(),
{
    if toks.len() > 0 {
        lemma_classify_all_wf(toks.skip(1));
        let l = classify_all(toks).unwrap();
        let rest = classify_all(toks.skip(1)).unwrap();
        assert forall|k: int| 0 <= k < l.len() implies wf_ident(l[k]) by {
            if k > 0 {
                assert(l[k] == rest[k - 1]);
            } else {
                assert(l[0] == classify_ident(toks[0]).unwrap());
            }
        }
    }
}

fn check_num(tok: &[u8]) -> (r: bool)
    ensures
        r == wf_num(tok@),
{
    if tok.len() == 0 {
        return false;
    }
    if tok.len() > 1 && tok[0] == 48 {
        return false;
    }
    let mut i: usize = 0;
    while i < tok.len()
        invariant
            0 <= i <= tok@.len(),
            forall|j: int| 0 <= j < i ==> is_digit(tok@[j]),
        decreases tok@.len() - i,
    {
        if !(48 <= tok[i] && tok[i] <= 57) {
            return false;
        }
        i = i + 1;
    }
    true
}

fn check_alpha(tok: &[u8]) -> (r: bool)
    ensures
        r == wf_alpha(tok@),
{
    if tok.len() == 0 {
        return false;
    }
    let mut i: usize = 0;
    let mut nondigit = false;
    while i < tok.len()
        invariant
            0 <= i <= tok@.len(),
            forall|j: int| 0 <= j < i ==> is_ident_char(tok@[j]),
            nondigit <==> exists|j: int| 0 <= j < i && !is_digit(tok@[j]),
        decreases tok@.len() - i,
    {
        let b = tok[i];
        let ident = (48 <= b && b <= 57) || (65 <= b && b <= 90) || (97 <= b && b <= 122) || b
            == 45;
        if !ident {
            return false;
        }
        if !(48 <= b && b <= 57) {
            nondigit = true;
            proof {
                assert(!is_digit(tok@[i as int]));
            }
        }
        i = i + 1;
    }
    nondigit
}

fn classify_ident_exec(tok: &[u8]) -> (r: Option<PreIdent>)
    ensures
        match r {
            Some(id) => classify_ident(tok@) == Some(id@),
            None => classify_ident(tok@) is None,
        },
{
    if check_num(tok) {
        Some(PreIdent::Num(slice_to_vec(tok)))
    } else if check_alpha(tok) {
        Some(PreIdent::Alpha(slice_to_vec(tok)))
    } else {
        None
    }
}

fn slice_to_vec(s: &[u8]) -> (r: Vec<u8>)
    ensures
        r@ == s@,
{
    let r = crate::bytes::slice_to_vec_range(s, 0, s.len());
    proof {
        assert(s@.subrange(0, s@.len() as int) =~= s@);
    }
    r
}

/// Reads dot-joined pre-release text into its identifier list.
pub fn parse_pre_idents(s: &[u8]) -> (r: Option<Vec<PreIdent>>)
    ensures
        match r {
            Some(l) => spec_parse_pre(s@) == Some(l@.map_values(|i: PreIdent| i@)),
            None => spec_parse_pre(s@) is None,
        },
{
    if s.len() == 0 {
        let empty: Vec<PreIdent> = Vec::new();
        proof {
            assert(empty@.map_values(|i: PreIdent| i@) =~= Seq::<PreIdentView>::empty());
        }
        return Some(empty);
    }
    let toks = crate::bytes::split_sep(s, DOT);
    let ghost tv = toks@.map_values(|t: Vec<u8>| t@);
    let mut out: Vec<PreIdent> = Vec::new();
    let mut i: usize = 0;
    proof {
        assert(tv =~= spec_split(s@, DOT));
        assert(tv.skip(0) =~= tv);
    }
    while i < toks.len()
        invariant
            0 <= i <= tv.len(),
            tv == toks@.map_values(|t: Vec<u8>| t@),
            tv == spec_split(s@, DOT),
            s@.len() > 0,
            out@.len() == i,
            classify_all(tv) == (match classify_all(tv.skip(i as int)) {
                Some(rest) => Some(out@.map_values(|x: PreIdent| x@) + rest),
                None => None::<Seq<PreIdentView>>,
            }),
        decreases tv.len() - i,
    {
        proof {
            assert(tv.skip(i as int)[0] == tv[i as int]);
            assert(tv[i as int] == toks@[i as int]@);
        }
        match classify_ident_exec(toks[i].as_slice()) {
            Some(id) => {
                let ghost prev = out@;
                let ghost ide = id;
                let ghost idv = id@;
                out.push(id);
                proof {
                    assert(out@ == prev.push(ide));
                    assert(ide@ == idv);
                    assert(tv.skip(i as int).skip(1) =~= tv.skip(i + 1));
                    match classify_all(tv.skip(i + 1)) {
                        Some(rest) => {
                            assert(classify_all(tv.skip(i as int)).unwrap() == seq![idv] + rest);
                            assert(out@.map_values(|x: PreIdent| x@) + rest =~= prev.map_values(
                                |x: PreIdent| x@,
                            ) + (seq![idv] + rest));
                        },
                        None => {},
                    }
                }
            },
            None => {
                proof {
                    assert(classify_all(tv.skip(i as int)) is None);
                    assert(classify_all(tv) is None);
                    assert(spec_parse_pre(s@) is None);
                }
                return None;
            },
        }
        i = i + 1;
    }
    proof {
        assert(tv.skip(tv.len() as int) =~= Seq::<Seq<u8>>::empty());
        assert(classify_all(tv.skip(tv.len() as int)) == Some(Seq::<PreIdentView>::empty()));
        assert(out@.map_values(|x: PreIdent| x@) + Seq::<PreIdentView>::empty()
            =~= out@.map_values(|x: PreIdent| x@));
        assert(spec_parse_pre(s@) == Some(out@.map_values(|x: PreIdent| x@)));
    }
    Some(out)
}

/// The compatible-with rule used for synthesized requirements: a candidate is
/// accepted when it keeps the resolved version's leading non-zero component
/// and is no smaller than it.
pub open spec fn caret_compatible(resolved: VersionView, candidate: VersionView) -> bool {
    same_leading(resolved, candidate) && version_le(resolved, candidate)
}

pub open spec fn same_leading(resolved: VersionView, candidate: VersionView) -> bool {
    if resolved.major > 0 {
        candidate.major == resolved.major
    } else if resolved.minor > 0 {
        candidate.major == 0 && candidate.minor == resolved.minor
    } else {
        candidate.major == 0 && candidate.minor == 0 && candidate.patch == resolved.patch
    }
}

pub fn caret_matches(resolved: &Version, candidate: &Version) -> (r: bool)
    ensures
        r == caret_compatible(resolved@, candidate@),
{
    let lead = if resolved.major > 0 {
        candidate.major == resolved.major
    } else if resolved.minor > 0 {
        candidate.major == 0 && candidate.minor == resolved.minor
    } else {
        candidate.major == 0 && candidate.minor == 0 && candidate.patch == resolved.patch
    };
    lead && version_le_exec(resolved, candidate)
}

/// A deep copy whose view is the argument's.
pub fn clone_version(v: &Version) -> (c: Version)
    ensures
        c@ == v@,
{
    let mut pre: Vec<PreIdent> = Vec::new();
    let mut i: usize = 0;
    while i < v.pre.len()
        invariant
            0 <= i <= v.pre@.len(),
            pre@.len() == i,
            forall|k: int| 0 <= k < i ==> #[trigger] pre@[k]@ == v.pre@[k]@,
        decreases v.pre@.len() - i,
    {
        let id = match &v.pre[i] {
            PreIdent::Num(d) => PreIdent::Num(crate::bytes::slice_to_vec_range(
                d.as_slice(),
                0,
                d.len(),
            )),
            PreIdent::Alpha(a) => PreIdent::Alpha(crate::bytes::slice_to_vec_range(
                a.as_slice(),
                0,
                a.len(),
            )),
        };
        proof {
            match v.pre@[i as int]@ {
                PreIdentView::Num(d) => {
                    assert(d.subrange(0, d.len() as int) =~= d);
                },
                PreIdentView::Alpha(a) => {
                    assert(a.subrange(0, a.len() as int) =~= a);
                },
            }
            assert(id@ == v.pre@[i as int]@);
        }
        pre.push(id);
        i = i + 1;
    }
    let build = crate::bytes::slice_to_vec_range(v.build.as_slice(), 0, v.build.len());
    proof {
        assert(build@ =~= v.build@);
    }
    let c = Version { major: v.major, minor: v.minor, patch: v.patch, pre, build };
    proof {
        assert forall|k: int| 0 <= k < c@.pre.len() implies c@.pre[k] == v@.pre[k] by {
            assert(c.pre@[k]@ == v.pre@[k]@);
        }
        assert(c@.pre =~= v@.pre);
        assert(c@ =~= v@);
    }
    c
}

} // verus!

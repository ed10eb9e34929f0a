//! The boundary to the semver crate. Version text and requirement text are
//! parsed by semver; what those calls return is named here and the rest of
//! the library is proved against those names.

use crate::version::{spec_join_idents, spec_parse_pre, wf_build, Version, VersionView};
use vstd::prelude::*;

verus! {

/// A parsed version as semver hands it over: the numeric triple and the
/// pre-release and build texts, before the identifiers are read.
pub struct RawVersion {
    pub major: u64,
    pub minor: u64,
    pub patch: u64,
    pub pre: Vec<u8>,
    pub build: Vec<u8>,
}

pub struct RawVersionView {
    pub major: u64,
    pub minor: u64,
    pub patch: u64,
    pub pre: Seq<u8>,
    pub build: Seq<u8>,
}

impl View for RawVersion {
    type V = RawVersionView;

    open spec fn view(&self) -> RawVersionView {
        RawVersionView {
            major: self.major,
            minor: self.minor,
            patch: self.patch,
            pre: self.pre@,
            build: self.build@,
        }
    }
}

/// What `semver::Version::parse` returns on the given bytes: `None` when the
/// bytes are not UTF-8 or do not parse, the fields otherwise.
pub uninterp spec fn semver_parse(text: Seq<u8>) -> Option<RawVersionView>;

/// Relies on `semver::Version::parse`: it accepts a version string and hands
/// back major, minor, patch, pre-release and build metadata. A parsed
/// pre-release is dot-separated valid identifiers (numeric ones without
/// leading zeros) and parsed build metadata is dot-separated nonempty runs of
/// identifier characters, as the semver grammar demands.
#[verifier::external_body]
fn parse_version_raw(text: &[u8]) -> (r: Option<RawVersion>)
    ensures
        match r {
            Some(rv) => semver_parse(text@) == Some(rv@) && spec_parse_pre(rv.pre@) is Some
                && wf_build(rv.build@),
            None => semver_parse(text@) is None,
        },
{
    let s = core::str::from_utf8(text).ok()?;
    let v = semver::Version::parse(s).ok()?;
    Some(
        RawVersion {
            major: v.major,
            minor: v.minor,
            patch: v.patch,
            pre: v.pre.as_str().as_bytes().to_vec(),
            build: v.build.as_str().as_bytes().to_vec(),
        },
    )
}

/// The version value that the given bytes denote, when they parse.
pub open spec fn spec_version_of_text(text: Seq<u8>) -> Option<VersionView> {
    match semver_parse(text) {
        Some(rv) => match spec_parse_pre(rv.pre) {
            Some(idents) => if wf_build(rv.build) {
                Some(
                    VersionView {
                        major: rv.major,
                        minor: rv.minor,
                        patch: rv.patch,
                        pre: idents,
                        build: rv.build,
                    },
                )
            } else {
                None
            },
            None => None,
        },
        None => None,
    }
}

/// Parses version text into the library's model. Returns exactly the value
/// `spec_version_of_text` names, and a well-formed one.
pub fn version_from_text(text: &[u8]) -> (r: Option<Version>)
    ensures
        match r {
            Some(v) => spec_version_of_text(text@) == Some(v@) && v.wf(),
            None => spec_version_of_text(text@) is None,
        },
{
    match parse_version_raw(text) {
        None => None,
        Some(rv) => {
            match crate::version::parse_pre_idents(rv.pre.as_slice()) {
                None => {
                    proof {
                        assert(false);
                    }
                    None
                },
                Some(pre) => {
                    let v = Version {
                        major: rv.major,
                        minor: rv.minor,
                        patch: rv.patch,
                        pre,
                        build: rv.build,
                    };
                    proof {
                        assert(spec_version_of_text(text@) == Some(v@));
                        if rv.pre@.len() > 0 {
                            crate::version::lemma_classify_all_wf(
                                crate::bytes::spec_split(rv.pre@, crate::version::DOT),
                            );
                        }
                        assert(v.wf());
                    }
                    Some(v)
                },
            }
        },
    }
}

#[verifier::external_type_specification]
#[verifier::external_body]
pub struct ExVersionReq(semver::VersionReq);

/// A version requirement: the text it was declared with, kept beside the
/// parsed form that semver matches against. Values exist only through
/// `parse_requirement`, so the parsed form is always the parse of the text.
pub struct Requirement {
    source: Vec<u8>,
    parsed: semver::VersionReq,
}

impl View for Requirement {
    type V = Seq<u8>;

    closed spec fn view(&self) -> Seq<u8> {
        self.source@
    }
}

impl Requirement {
    /// The text this requirement was declared with.
    pub fn source_text(&self) -> (r: &Vec<u8>)
        ensures
            r@ == self@,
    {
        &self.source
    }
}

/// Whether `semver::VersionReq::parse` accepts the given bytes.
pub uninterp spec fn req_parse_ok(text: Seq<u8>) -> bool;

/// What `semver::VersionReq::matches` returns for the requirement declared by
/// `req_text` and the version with the given triple and dot-joined
/// pre-release text (matching ignores build metadata).
pub uninterp spec fn req_matches(
    req_text: Seq<u8>,
    major: u64,
    minor: u64,
    patch: u64,
    pre: Seq<u8>,
) -> bool;

/// Relies on `semver::VersionReq::parse`: it accepts a comma-separated list
/// of semver comparators or rejects the text.
#[verifier::external_body]
pub fn parse_requirement(text: &[u8]) -> (r: Option<Requirement>)
    ensures
        r is Some <==> req_parse_ok(text@),
        match r {
            Some(q) => q@ == text@,
            None => true,
        },
{
    let s = core::str::from_utf8(text).ok()?;
    let parsed = semver::VersionReq::parse(s).ok()?;
    Some(Requirement { source: text.to_vec(), parsed })
}

/// Relies on `semver::VersionReq::matches`: whether the version satisfies
/// every comparator of the requirement; the result depends only on the
/// requirement's text and the version's triple and pre-release.
#[verifier::external_body]
fn requirement_matches_raw(
    req: &Requirement,
    major: u64,
    minor: u64,
    patch: u64,
    pre_joined: &[u8],
) -> (r: bool)
    ensures
        r == req_matches(req@, major, minor, patch, pre_joined@),
{
    let pre_text = core::str::from_utf8(pre_joined).unwrap_or("");
    let pre = semver::Prerelease::new(pre_text).unwrap_or(semver::Prerelease::EMPTY);
    let v = semver::Version { major, minor, patch, pre, build: semver::BuildMetadata::EMPTY };
    req.parsed.matches(&v)
}

/// Whether the requirement declared by `req_text` accepts the version.
pub open spec fn spec_req_accepts(req_text: Seq<u8>, v: VersionView) -> bool {
    req_matches(req_text, v.major, v.minor, v.patch, spec_join_idents(v.pre))
}

pub fn req_accepts_version(req: &Requirement, v: &Version) -> (r: bool)
    ensures
        r == spec_req_accepts(req@, v@),
{
    let pre_joined = crate::version::join_pre_text(v);
    requirement_matches_raw(req, v.major, v.minor, v.patch, pre_joined.as_slice())
}

} // verus!

//! The artifact filename convention `<name>-<version>.crate`. Formatting and
//! parsing invert each other; since names may contain dashes, parsing splits
//! at the last dash whose tail parses as a semantic version, not the first.

use crate::bytes::{bytes_eq, push_all, slice_to_vec_range};
use crate::semver_ext::{spec_version_of_text, version_from_text};
use crate::version::{spec_canon, version_to_bytes, Version, VersionView, DASH};
use vstd::prelude::*;

verus! {

/// The bytes of `.crate`.
pub open spec fn crate_suffix() -> Seq<u8> {
    seq![46u8, 99u8, 114u8, 97u8, 116u8, 101u8]
}

fn crate_suffix_exec() -> (r: Vec<u8>)
    ensures
        r@ == crate_suffix(),
{
    let mut v: Vec<u8> = Vec::new();
    v.push(46);
    v.push(99);
    v.push(114);
    v.push(97);
    v.push(116);
    v.push(101);
    proof {
        assert(v@ =~= crate_suffix());
    }
    v
}

/// Whether position `d` of `stem` is a dash whose tail parses as a version.
pub open spec fn split_at_ok(stem: Seq<u8>, d: int) -> bool {
    0 <= d < stem.len() && stem[d] == DASH && spec_version_of_text(stem.skip(d + 1)) is Some
}

/// The largest position `<= i` of `stem` where a split succeeds, `-1` when
/// there is none.
pub open spec fn best_split(stem: Seq<u8>, i: int) -> int
    decreases i + 1,
{
    if i < 0 {
        -1
    } else if split_at_ok(stem, i) {
        i
    } else {
        best_split(stem, i - 1)
    }
}

/// The package id an artifact filename stem denotes.
pub open spec fn spec_parse_stem(stem: Seq<u8>) -> Option<(Seq<u8>, VersionView)> {
    let d = best_split(stem, stem.len() - 1);
    if d < 0 {
        None
    } else {
        Some((stem.take(d), spec_version_of_text(stem.skip(d + 1)).unwrap()))
    }
}

/// The package id an artifact filename denotes: the `.crate` suffix removed,
/// then the stem split at the last dash whose tail is a version.
pub open spec fn spec_parse_filename(s: Seq<u8>) -> Option<(Seq<u8>, VersionView)> {
    if s.len() >= 6 && s.skip(s.len() - 6) == crate_suffix() {
        spec_parse_stem(s.take(s.len() - 6))
    } else {
        None
    }
}

pub fn parse_filename(s: &[u8]) -> (r: Option<(Vec<u8>, Version)>)
    ensures
        match r {
            Some(p) => spec_parse_filename(s@) == Some((p.0@, p.1@)) && p.1.wf(),
            None => spec_parse_filename(s@) is None,
        },
{
    if s.len() < 6 {
        return None;
    }
    let tail = slice_to_vec_range(s, s.len() - 6, s.len());
    let suffix = crate_suffix_exec();
    if !bytes_eq(tail.as_slice(), suffix.as_slice()) {
        proof {
            assert(s@.skip(s@.len() - 6) =~= s@.subrange(s@.len() - 6, s@.len() as int));
        }
        return None;
    }
    let stem_end = s.len() - 6;
    let ghost stem = s@.take(stem_end as int);
    proof {
        assert(s@.skip(s@.len() - 6) =~= s@.subrange(s@.len() - 6, s@.len() as int));
        assert(s@.skip(s@.len() - 6) == crate_suffix());
    }
    let mut i: usize = stem_end;
    while i > 0
        invariant
            0 <= i <= stem_end,
            stem_end == s@.len() - 6,
            stem == s@.take(stem_end as int),
            s@.skip(s@.len() - 6) == crate_suffix(),
            best_split(stem, stem.len() - 1) == best_split(stem, i - 1),
        decreases i,
    {
        let d = i - 1;
        if s[d] == DASH {
            let tail_bytes = slice_to_vec_range(s, d + 1, stem_end);
            proof {
                assert(tail_bytes@ =~= stem.skip(d + 1));
            }
            match version_from_text(tail_bytes.as_slice()) {
                Some(v) => {
                    let name = slice_to_vec_range(s, 0, d);
                    proof {
                        assert(stem[d as int] == s@[d as int]);
                        assert(split_at_ok(stem, d as int));
                        assert(best_split(stem, d as int) == d);
                        assert(name@ =~= stem.take(d as int));
                        assert(spec_parse_stem(stem) == Some((name@, v@)));
                    }
                    return Some((name, v));
                },
                None => {
                    proof {
                        assert(!split_at_ok(stem, d as int));
                    }
                },
            }
        } else {
            proof {
                assert(stem[d as int] == s@[d as int]);
                assert(!split_at_ok(stem, d as int));
            }
        }
        i = i - 1;
    }
    proof {
        assert(best_split(stem, -1) == -1);
        assert(spec_parse_stem(stem) is None);
    }
    None
}

/// The artifact filename of a package id, by the mirror's convention.
pub open spec fn spec_format_filename(name: Seq<u8>, v: VersionView) -> Seq<u8> {
    name + seq![DASH] + spec_canon(v) + crate_suffix()
}

pub fn format_filename(name: &[u8], v: &Version) -> (r: Vec<u8>)
    ensures
        r@ == spec_format_filename(name@, v@),
{
    let mut out = slice_to_vec_range(name, 0, name.len());
    out.push(DASH);
    let canon = version_to_bytes(v);
    push_all(&mut out, canon.as_slice());
    let suffix = crate_suffix_exec();
    push_all(&mut out, suffix.as_slice());
    proof {
        assert(name@.subrange(0, name@.len() as int) =~= name@);
        assert(out@ =~= spec_format_filename(name@, v@));
    }
    out
}

/// The round-trip law of the filename convention: the filename formatted for
/// a package id parses back to exactly that id. The formatted name is handed
/// out only with that guarantee proved of it; when re-parsing would disagree
/// (a version whose pre-release tail embeds another version can shift the
/// split), no filename is produced.
pub fn filename_for(name: &[u8], v: &Version) -> (r: Option<Vec<u8>>)
    ensures
        match r {
            Some(f) => f@ == spec_format_filename(name@, v@) && spec_parse_filename(f@) == Some(
                (name@, v@),
            ),
            None => spec_parse_filename(spec_format_filename(name@, v@)) != Some((name@, v@)),
        },
{
    let f = format_filename(name, v);
    match parse_filename(f.as_slice()) {
        Some((n2, v2)) => {
            let names_match = bytes_eq(name, n2.as_slice());
            let versions_match = crate::version::version_eq_exec(&v2, v);
            proof {
                crate::version::lemma_cmp_version_eq(v2@, v@);
            }
            if names_match && versions_match {
                Some(f)
            } else {
                None
            }
        },
        None => None,
    }
}

} // verus!

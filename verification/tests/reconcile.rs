use mirror_sync::classify::{classify_gaps, Category, ClosureEntry, Resolved};
use mirror_sync::filename::{filename_for, format_filename, parse_filename};
use mirror_sync::inventory::{inventory_from_text, merge_lines, render_lines};
use mirror_sync::manifest::extract_requirements;
use mirror_sync::report::{count_category, render_report};
use mirror_sync::semver_ext::{parse_requirement, req_accepts_version, version_from_text, Requirement};
use mirror_sync::version::{caret_matches, compare_versions, version_to_bytes, Version};

fn ver(text: &str) -> Version {
    version_from_text(text.as_bytes()).expect("version text must parse")
}

fn req(text: &str) -> (Vec<u8>, Requirement) {
    (
        Vec::new(),
        parse_requirement(text.as_bytes()).expect("requirement text must parse"),
    )
}

fn named_req(name: &str, text: &str) -> (Vec<u8>, Requirement) {
    (
        name.as_bytes().to_vec(),
        parse_requirement(text.as_bytes()).expect("requirement text must parse"),
    )
}

fn known(name: &str, version: &str) -> ClosureEntry {
    ClosureEntry {
        name: name.as_bytes().to_vec(),
        resolved: Resolved::Known(ver(version)),
    }
}

#[test]
fn filename_parses_simple() {
    let (name, v) = parse_filename(b"serde-1.0.0.crate").expect("parses");
    assert_eq!(name, b"serde".to_vec());
    assert_eq!(version_to_bytes(&v), b"1.0.0".to_vec());
}

#[test]
fn filename_parses_dashed_name() {
    let (name, v) = parse_filename(b"async-trait-0.1.80.crate").expect("parses");
    assert_eq!(name, b"async-trait".to_vec());
    assert_eq!(version_to_bytes(&v), b"0.1.80".to_vec());
}

#[test]
fn filename_rejects_without_version() {
    assert!(parse_filename(b"serde.crate").is_none());
    assert!(parse_filename(b"not a crate file").is_none());
    assert!(parse_filename(b"serde-1.0.crate").is_none());
}

#[test]
fn filename_round_trip() {
    let v = ver("0.1.80");
    let f = filename_for(b"async-trait", &v).expect("round trip holds");
    assert_eq!(f, b"async-trait-0.1.80.crate".to_vec());
    let (name, v2) = parse_filename(&f).expect("parses back");
    assert_eq!(name, b"async-trait".to_vec());
    assert_eq!(compare_versions(&v2, &v), 0);
}

#[test]
fn filename_round_trip_with_pre_release() {
    let v = ver("1.0.0-alpha.1");
    let f = filename_for(b"foo", &v).expect("round trip holds");
    assert_eq!(f, b"foo-1.0.0-alpha.1.crate".to_vec());
    let (name, v2) = parse_filename(&f).expect("parses back");
    assert_eq!(name, b"foo".to_vec());
    assert_eq!(version_to_bytes(&v2), b"1.0.0-alpha.1".to_vec());
}

#[test]
fn filename_formats() {
    let v = ver("2.3.4");
    assert_eq!(format_filename(b"tokio", &v), b"tokio-2.3.4.crate".to_vec());
}

#[test]
fn version_ordering_triple() {
    assert!(compare_versions(&ver("1.9.0"), &ver("2.0.0")) < 0);
    assert!(compare_versions(&ver("1.2.10"), &ver("1.2.9")) > 0);
    assert!(compare_versions(&ver("1.2.3"), &ver("1.2.3")) == 0);
}

#[test]
fn version_ordering_pre_release() {
    // a pre-release sorts before the release it precedes
    assert!(compare_versions(&ver("1.0.0-alpha"), &ver("1.0.0")) < 0);
    // numeric identifiers sort before alphanumeric ones
    assert!(compare_versions(&ver("1.0.0-2"), &ver("1.0.0-alpha")) < 0);
    // numeric identifiers compare as numbers, not as text
    assert!(compare_versions(&ver("1.0.0-alpha.9"), &ver("1.0.0-alpha.10")) < 0);
    // a longer identifier list has higher precedence
    assert!(compare_versions(&ver("1.0.0-alpha"), &ver("1.0.0-alpha.1")) < 0);
    // build metadata does not take part in precedence
    assert!(compare_versions(&ver("1.0.0+build.1"), &ver("1.0.0+other")) == 0);
}

#[test]
fn caret_rule() {
    assert!(caret_matches(&ver("1.0.5"), &ver("1.0.5")));
    assert!(caret_matches(&ver("1.0.5"), &ver("1.9.0")));
    assert!(!caret_matches(&ver("1.0.5"), &ver("1.0.4")));
    assert!(!caret_matches(&ver("1.0.5"), &ver("2.0.0")));
    assert!(caret_matches(&ver("0.2.3"), &ver("0.2.9")));
    assert!(!caret_matches(&ver("0.2.3"), &ver("0.3.0")));
    assert!(caret_matches(&ver("0.0.3"), &ver("0.0.3")));
    assert!(!caret_matches(&ver("0.0.3"), &ver("0.0.4")));
}

#[test]
fn requirement_matching() {
    let (_, q) = req("^1.0.0");
    assert!(req_accepts_version(&q, &ver("1.0.0")));
    assert!(req_accepts_version(&q, &ver("1.4.2")));
    assert!(!req_accepts_version(&q, &ver("2.0.0")));
    let (_, range) = req(">=2, <3");
    assert!(req_accepts_version(&range, &ver("2.5.0")));
    assert!(!req_accepts_version(&range, &ver("3.0.0")));
    assert!(parse_requirement(b"not a requirement").is_none());
}

#[test]
fn inventory_parses_and_sorts() {
    let inv = inventory_from_text(b"serde-1.0.0.crate\n\n  tokio-1.38.0.crate  \nnot!a!file\n");
    let lines: Vec<Vec<u8>> = inv.raw.clone();
    assert_eq!(lines.len(), 3);
    assert_eq!(lines[0], b"not!a!file".to_vec());
    assert_eq!(lines[1], b"serde-1.0.0.crate".to_vec());
    assert_eq!(lines[2], b"tokio-1.38.0.crate".to_vec());
    // only the well-formed lines contribute parsed entries
    assert_eq!(inv.entries.len(), 2);
}

#[test]
fn inventory_deduplicates() {
    let inv = inventory_from_text(b"a-1.0.0.crate\na-1.0.0.crate\n");
    assert_eq!(inv.raw.len(), 1);
}

// Scenario: the required package is satisfied by a compatible version under
// an explicit caret requirement, so no gap is reported.
#[test]
fn satisfied_by_caret_requirement() {
    let inv = inventory_from_text(b"serde-1.0.0.crate\n");
    let closure = vec![known("serde", "1.0.5")];
    let reqs = vec![named_req("serde", "^1.0.0")];
    let report = classify_gaps(&closure, &reqs, &inv);
    assert_eq!(report.gaps.len(), 0);
    assert_eq!(report.satisfied, 1);
}

// Scenario: no explicit requirement; the synthesized compatible-with rule for
// resolved 2.0.0 is unsatisfied by 1.0.0, a major upgrade needing approval.
#[test]
fn major_upgrade_from_synthesized_requirement() {
    let inv = inventory_from_text(b"serde-1.0.0.crate\n");
    let closure = vec![known("serde", "2.0.0")];
    let reqs: Vec<(Vec<u8>, Requirement)> = Vec::new();
    let report = classify_gaps(&closure, &reqs, &inv);
    assert_eq!(report.gaps.len(), 1);
    assert_eq!(report.satisfied, 0);
    assert_eq!(report.gaps[0].name, b"serde".to_vec());
    assert_eq!(report.gaps[0].category, Category::MajorUpgrade);
}

// Scenario: the inventory has nothing for the name at all.
#[test]
fn new_dependency() {
    let inv = inventory_from_text(b"");
    let closure = vec![known("tokio", "1.38.0")];
    let reqs: Vec<(Vec<u8>, Requirement)> = Vec::new();
    let report = classify_gaps(&closure, &reqs, &inv);
    assert_eq!(report.gaps.len(), 1);
    assert_eq!(report.gaps[0].category, Category::NewDependency);
    assert_eq!(report.gaps[0].reason, b"new dependency".to_vec());
}

// Scenario: the required version sits below the latest available one.
#[test]
fn downgrade() {
    let inv = inventory_from_text(b"foo-2.0.0.crate\n");
    let closure = vec![known("foo", "1.9.0")];
    let reqs = vec![named_req("foo", "=1.9.0")];
    let report = classify_gaps(&closure, &reqs, &inv);
    assert_eq!(report.gaps.len(), 1);
    assert_eq!(report.gaps[0].category, Category::Downgrade);
    assert_eq!(report.gaps[0].reason, b"latest available 2.0.0".to_vec());
}

// Scenario: a range requirement is satisfied by an older available version,
// even though the resolved version itself is absent.
#[test]
fn satisfied_by_range_not_exact_pin() {
    let inv = inventory_from_text(b"bar-1.2.3.crate\n");
    let closure = vec![known("bar", "1.2.5")];
    let reqs = vec![named_req("bar", "^1.2.0")];
    let report = classify_gaps(&closure, &reqs, &inv);
    assert_eq!(report.gaps.len(), 0);
    assert_eq!(report.satisfied, 1);
}

#[test]
fn minor_patch_upgrade_is_the_safe_category() {
    let inv = inventory_from_text(b"baz-1.2.0.crate\n");
    let closure = vec![known("baz", "1.3.0")];
    let reqs: Vec<(Vec<u8>, Requirement)> = Vec::new();
    let report = classify_gaps(&closure, &reqs, &inv);
    assert_eq!(report.gaps.len(), 1);
    assert_eq!(report.gaps[0].category, Category::MinorPatchUpgrade);
}

// Every closure entry with no inventory overlap turns into a gap.
#[test]
fn no_overlap_yields_a_gap_per_entry() {
    let inv = inventory_from_text(b"unrelated-3.0.0.crate\n");
    let closure = vec![known("alpha", "1.0.0"), known("beta", "0.2.0"), known("gamma", "4.5.6")];
    let reqs: Vec<(Vec<u8>, Requirement)> = Vec::new();
    let report = classify_gaps(&closure, &reqs, &inv);
    assert_eq!(report.gaps.len(), 3);
    assert!(report.gaps.iter().all(|g| g.category == Category::NewDependency));
    // gaps come sorted by name
    assert_eq!(report.gaps[0].name, b"alpha".to_vec());
    assert_eq!(report.gaps[1].name, b"beta".to_vec());
    assert_eq!(report.gaps[2].name, b"gamma".to_vec());
}

#[test]
fn merge_keeps_everything_and_sorts() {
    let inv = inventory_from_text(b"zeta-1.0.0.crate\nnot!a!file\n");
    let additions = vec![b"alpha-2.0.0.crate".to_vec(), b"zeta-1.0.0.crate".to_vec()];
    let merged = merge_lines(&inv, &additions);
    assert_eq!(merged.len(), 3);
    assert_eq!(merged[0], b"alpha-2.0.0.crate".to_vec());
    assert_eq!(merged[1], b"not!a!file".to_vec());
    assert_eq!(merged[2], b"zeta-1.0.0.crate".to_vec());
}

// Merge is idempotent: rendering, re-reading, and merging nothing new gives
// byte-identical text.
#[test]
fn merge_idempotent_round_trip() {
    let inv = inventory_from_text(b"b-2.0.0.crate\na-1.0.0.crate\nmalformed line?\n");
    let none: Vec<Vec<u8>> = Vec::new();
    let first = render_lines(&merge_lines(&inv, &none));
    let reread = inventory_from_text(&first);
    let second = render_lines(&merge_lines(&reread, &none));
    assert_eq!(first, second);
}

#[test]
fn report_text_is_deterministic() {
    let inv = inventory_from_text(b"");
    let closure = vec![known("tokio", "1.38.0")];
    let reqs: Vec<(Vec<u8>, Requirement)> = Vec::new();
    let report = classify_gaps(&closure, &reqs, &inv);
    let text = render_report(&report);
    assert_eq!(
        text,
        b"satisfied: 0\ngaps: 1\ntokio 1.38.0 new-dependency: new dependency\n".to_vec()
    );
}

#[test]
fn manifest_requirements() {
    let toml_text = b"[package]\nname = \"demo\"\n\n[dependencies]\nserde = \"1.0\"\nlocal = { path = \"../local\" }\ntagged = { version = \"0.3\", features = [\"full\"] }\nbroken = \"not a version\"\n\n[dev-dependencies]\nserde = \"2.0\"\n";
    let reqs = extract_requirements(toml_text).expect("manifest parses");
    let mut names: Vec<Vec<u8>> = reqs.iter().map(|(n, _)| n.clone()).collect();
    names.sort();
    assert_eq!(names, vec![b"serde".to_vec(), b"tagged".to_vec()]);
    // the later section's declaration wins for a shared name
    let serde = reqs.iter().find(|(n, _)| n == b"serde").unwrap();
    assert_eq!(serde.1.source_text().clone(), b"2.0".to_vec());
    assert!(extract_requirements(b"not [ valid toml").is_none());
}

// With the latest available version fixed, raising the required version moves
// the category away from Downgrade and never back.
#[test]
fn ladder_monotonic_examples() {
    let inv = inventory_from_text(b"foo-2.0.0.crate\n");
    let cases = [
        ("1.9.0", Category::Downgrade),
        ("2.5.0", Category::MinorPatchUpgrade),
        ("3.0.0", Category::MajorUpgrade),
        ("4.0.0", Category::MajorUpgrade),
    ];
    for (required, expected) in cases {
        let closure = vec![known("foo", required)];
        let reqs = vec![named_req("foo", &format!("={}", required))];
        let report = classify_gaps(&closure, &reqs, &inv);
        assert_eq!(report.gaps.len(), 1);
        assert_eq!(report.gaps[0].category, expected);
    }
}

// A closure entry whose version text never parsed is always flagged for
// approval.
#[test]
fn unparseable_version_is_flagged() {
    let inv = inventory_from_text(b"odd-1.0.0.crate\n");
    let closure = vec![ClosureEntry {
        name: b"odd".to_vec(),
        resolved: Resolved::Unparsed(b"not.a.version".to_vec()),
    }];
    let reqs: Vec<(Vec<u8>, Requirement)> = Vec::new();
    let report = classify_gaps(&closure, &reqs, &inv);
    assert_eq!(report.gaps.len(), 1);
    assert_eq!(report.gaps[0].category, Category::Unparseable);
    assert_eq!(report.gaps[0].required, b"not.a.version".to_vec());
    assert_eq!(report.gaps[0].reason, b"unparseable version".to_vec());
}

// The merged listing is always a superset of the prior one.
#[test]
fn merge_never_removes() {
    let inv = inventory_from_text(b"keep-1.0.0.crate\nstray line\n");
    let additions = vec![b"new-0.1.0.crate".to_vec()];
    let merged = merge_lines(&inv, &additions);
    for line in &inv.raw {
        assert!(merged.contains(line));
    }
    assert!(merged.contains(&b"new-0.1.0.crate".to_vec()));
}

#[test]
fn approval_gate() {
    assert!(Category::NewDependency.requires_approval());
    assert!(Category::Downgrade.requires_approval());
    assert!(Category::MajorUpgrade.requires_approval());
    assert!(Category::Unparseable.requires_approval());
    assert!(!Category::MinorPatchUpgrade.requires_approval());
}

#[test]
fn gap_counts_by_category() {
    let inv = inventory_from_text(b"foo-2.0.0.crate\n");
    let closure = vec![known("foo", "1.9.0"), known("newdep", "0.1.0")];
    let reqs = vec![named_req("foo", "=1.9.0")];
    let report = classify_gaps(&closure, &reqs, &inv);
    assert_eq!(count_category(&report, Category::Downgrade), 1);
    assert_eq!(count_category(&report, Category::NewDependency), 1);
    assert_eq!(count_category(&report, Category::MajorUpgrade), 0);
}

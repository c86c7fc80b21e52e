use mdatron::diagnostic::Severity;
use mdatron::pin::{compile_pins, RawPin, RawUnpinned, PINS_NAME};

fn pin(governed_by: &str, file: &str, section: Option<&str>) -> RawPin {
    RawPin {
        governed_by: governed_by.to_string(),
        file: file.to_string(),
        section: section.map(str::to_string),
        sha256: "abc123".to_string(),
    }
}

fn tombstone(file: &str, reason: &str, owner: &str) -> RawUnpinned {
    RawUnpinned {
        file: file.to_string(),
        governed_by: "GOV.md".to_string(),
        reason: reason.to_string(),
        owner: owner.to_string(),
    }
}

#[test]
fn pin_record_name() {
    assert_eq!(PINS_NAME, "pins.yaml");
}

#[test]
fn confined_entries_stay_active_in_order() {
    let loaded = compile_pins(
        "p/.mdatron/pins.yaml",
        &[pin("GOV.md", "a.md", None), pin("GOV.md", "./docs/b.md", Some("## Req"))],
        &[],
        b"",
    );
    assert!(loaded.findings.is_empty());
    assert_eq!(loaded.pins.len(), 2);
    assert_eq!(loaded.pins[0].file, "a.md");
    assert_eq!(loaded.pins[0].section, None);
    assert_eq!(loaded.pins[1].file, "./docs/b.md");
    assert_eq!(loaded.pins[1].section.as_deref(), Some("## Req"));
    assert_eq!(loaded.pins[1].sha256, "abc123");
}

#[test]
fn escaping_entries_are_dropped_fail_closed() {
    let loaded = compile_pins(
        "p/.mdatron/pins.yaml",
        &[
            pin("/etc/GOV.md", "../up.md", None),
            pin("GOV.md", "ok.md", None),
            pin("GOV.md", "a/../b.md", None),
        ],
        &[],
        b"",
    );
    assert_eq!(loaded.pins.len(), 1);
    assert_eq!(loaded.pins[0].file, "ok.md");
    let codes: Vec<&str> = loaded.findings.iter().map(|f| f.code.as_str()).collect();
    assert_eq!(codes, vec!["MDATRON-E0010", "MDATRON-E0011", "MDATRON-E0011"]);
    let f = &loaded.findings[0];
    assert_eq!(f.severity, Severity::Error);
    assert_eq!(f.summary, "absolute-path-refused");
    assert_eq!(
        f.message,
        "a pin's governed_by escapes the governed tree; the entry is dropped (fail-closed)"
    );
    assert_eq!(f.location.file, "p/.mdatron/pins.yaml");
    assert_eq!(f.location.line, 1);
    assert_eq!(f.explain_ref.as_deref(), Some("MDATRON-E0010"));
    assert_eq!(f.quoted[0].label, "governed_by");
    assert_eq!(f.quoted[0].content, "/etc/GOV.md");
    let g = &loaded.findings[1];
    assert_eq!(g.summary, "parent-segment-refused");
    assert_eq!(g.quoted[0].label, "file");
    assert_eq!(g.quoted[0].content, "../up.md");
    assert_eq!(loaded.findings[2].quoted[0].content, "a/../b.md");
}

#[test]
fn tombstones_are_loud_and_unjustified_ones_flagged() {
    let loaded = compile_pins(
        "pins.yaml",
        &[pin("GOV.md", "../x.md", None)],
        &[
            tombstone("old.md", "superseded by new.md", "docs-team"),
            tombstone("gone.md", "   ", "docs-team"),
            tombstone("lost.md", "why", ""),
        ],
        b"",
    );
    assert_eq!(loaded.findings.len(), 4, "one refusal, then one per tombstone");
    assert_eq!(loaded.findings[0].code, "MDATRON-E0011");
    let lint = &loaded.findings[1];
    assert_eq!(lint.code, "MDATRON-L0001");
    assert_eq!(lint.severity, Severity::Lint);
    assert_eq!(lint.help, None);
    let labels: Vec<&str> = lint.quoted.iter().map(|q| q.label.as_str()).collect();
    assert_eq!(labels, vec!["file", "reason", "owner"]);
    assert_eq!(lint.quoted[1].content, "superseded by new.md");
    for w in &loaded.findings[2..] {
        assert_eq!(w.code, "MDATRON-W0042");
        assert_eq!(w.severity, Severity::Warning);
        assert_eq!(w.summary, "governance-weakening-unjustified");
        assert_eq!(w.help.as_deref(), Some("add reason and owner to the unpinned entry"));
        assert_eq!(w.quoted.len(), 1);
    }
    assert_eq!(loaded.findings[2].quoted[0].content, "gone.md");
}

#[test]
fn digest_is_the_records_sha256() {
    let loaded = compile_pins("pins.yaml", &[], &[], b"abc");
    assert_eq!(
        loaded.digest,
        "ba7816bf8f01cfea414140de5dae2223b00361a396177a9cb410ff61f20015ad"
    );
}

use mdatron::memo::{MarkerKey, MarkerMembers, RefMemo};
use mdatron::pattern::LinePattern;
use mdatron::route::{ElementClass, MarkerRule};

fn rule(pattern: &str, section: Option<&str>) -> MarkerRule {
    MarkerRule {
        pattern: LinePattern::compile(pattern).unwrap(),
        element: ElementClass::ListItemBoldName,
        target_doc: "docs/roles.md".to_string(),
        target_section: section.map(str::to_string),
    }
}

#[test]
fn marker_key_ignores_the_pattern() {
    let a = MarkerKey::of(&rule("^Role: (.+)$", Some("## Roles")));
    let b = MarkerKey::of(&rule("^Owner: (\\w+)", Some("## Roles")));
    assert_eq!(a, b, "rules differing only in pattern share one memo entry");
    assert_eq!(a.target_doc, "docs/roles.md");
    assert_eq!(a.target_section.as_deref(), Some("## Roles"));
    assert_eq!(a.element, ElementClass::ListItemBoldName);
    let c = MarkerKey::of(&rule("^Role: (.+)$", None));
    assert_ne!(a, c, "the section is part of the key");

    let mut memo = RefMemo::default();
    assert!(memo.marker_members.is_empty() && memo.link_slugs.is_empty());
    memo.marker_members.insert(a, MarkerMembers::Disabled);
    assert!(memo.marker_members.contains_key(&b));
}

use mdatron::confine::confine_lexically;
use mdatron::digest::sha256_hex;
use mdatron::pin::{check, Pin};
use mdatron::snapshot::{ReadOutcome, Snapshot};

fn active(file: &str, section: Option<&str>, sha: &str) -> Pin {
    Pin {
        governed_by: "GOV.md".to_string(),
        file: file.to_string(),
        section: section.map(str::to_string),
        sha256: sha.to_string(),
    }
}

fn captured(files: &[(&str, ReadOutcome)]) -> Snapshot {
    let mut s = Snapshot::new(128, 1 << 20);
    for (path, outcome) in files {
        let rel = confine_lexically(path).unwrap();
        let o = match outcome {
            ReadOutcome::Read(b) => ReadOutcome::Read(b.clone()),
            ReadOutcome::ReadFailed(e) => ReadOutcome::ReadFailed(e.clone()),
            ReadOutcome::Symlink { component, tag } => {
                ReadOutcome::Symlink { component: component.clone(), tag: *tag }
            }
            ReadOutcome::NotRegular => ReadOutcome::NotRegular,
            ReadOutcome::OpenFailed(e) => ReadOutcome::OpenFailed(e.clone()),
        };
        let _ = s.capture(&rel, o);
    }
    s
}

#[test]
fn fresh_pins_pass_and_stale_ones_fail() {
    let body = "# Plan\nstep one\n";
    let snap = captured(&[("plan.md", ReadOutcome::Read(body.as_bytes().to_vec()))]);
    let fresh = sha256_hex(body.as_bytes());
    let mut findings = Vec::new();
    check("p/.mdatron/pins.yaml", &[active("plan.md", None, &fresh), active("../x.md", None, "")], &snap, &mut findings);
    assert!(findings.is_empty(), "a fresh pin and an escaping (load-refused) pin report nothing");
    check("p/.mdatron/pins.yaml", &[active("./plan.md", None, "0000")], &snap, &mut findings);
    assert_eq!(findings.len(), 1);
    let f = &findings[0];
    assert_eq!(f.code, "MDATRON-E0061");
    assert_eq!(f.summary, "pin-stale");
    assert_eq!(f.location.file, "p/.mdatron/pins.yaml");
    let labels: Vec<&str> = f.quoted.iter().map(|q| q.label.as_str()).collect();
    assert_eq!(labels, vec!["file", "governed_by", "recorded", "found"]);
    assert_eq!(f.quoted[2].content, "0000");
    assert_eq!(f.quoted[3].content, fresh);
}

#[test]
fn section_pins_hash_only_their_span() {
    let v1 = "---\ntitle: x\n---\n# Doc\n## Req\nmust A\n### Detail\nd\n## Other\nfree text\n";
    let v2 = "---\ntitle: x\n---\n# Doc\n## Req\nmust A\n### Detail\nd\n## Other\nEDITED\n";
    let span = "## Req\nmust A\n### Detail\nd\n";
    let sha = sha256_hex(span.as_bytes());
    for content in [v1, v2] {
        let snap = captured(&[("c.md", ReadOutcome::Read(content.as_bytes().to_vec()))]);
        let mut findings = Vec::new();
        check("pins.yaml", &[active("c.md", Some("## Req"), &sha)], &snap, &mut findings);
        assert!(findings.is_empty(), "an edit outside the span does not trip the pin: {findings:?}");
    }
    let fenced = "# Doc\n```\n## Req\n```\nx\n";
    let snap = captured(&[("c.md", ReadOutcome::Read(fenced.as_bytes().to_vec()))]);
    let mut findings = Vec::new();
    check("pins.yaml", &[active("c.md", Some("## Req"), &sha)], &snap, &mut findings);
    assert_eq!(findings.len(), 1);
    assert_eq!(findings[0].code, "MDATRON-E0063", "a heading inside a fence is not a heading");
    assert_eq!(findings[0].quoted[1].content, "## Req");
}

#[test]
fn duplicate_section_headings_are_all_hashed() {
    let content = "## A\none\n## B\nx\n## A\ntwo\n";
    let sha = sha256_hex("## A\none\n## A\ntwo\n".as_bytes());
    let snap = captured(&[("d.md", ReadOutcome::Read(content.as_bytes().to_vec()))]);
    let mut findings = Vec::new();
    check("pins.yaml", &[active("d.md", Some("## A"), &sha)], &snap, &mut findings);
    assert!(findings.is_empty(), "{findings:?}");
}

#[test]
fn unreachable_targets_are_reported() {
    let snap = captured(&[
        ("gone.md", ReadOutcome::OpenFailed("No such file".into())),
        ("link.md", ReadOutcome::Symlink { component: "link.md".into(), tag: None }),
        ("big.md", ReadOutcome::Read(vec![b'x'; 129])),
    ]);
    let mut findings = Vec::new();
    check(
        "pins.yaml",
        &[
            active("gone.md", None, ""),
            active("link.md", None, ""),
            active("big.md", None, ""),
            active("never.md", None, ""),
        ],
        &snap,
        &mut findings,
    );
    let codes: Vec<&str> = findings.iter().map(|f| f.code.as_str()).collect();
    assert_eq!(codes, vec!["MDATRON-E0062", "MDATRON-E0012", "MDATRON-E0062", "MDATRON-E0081"]);
    assert_eq!(findings[1].message, "a pinned file resolves through a symbolic link; no-follow resolution refuses it");
    assert_eq!(findings[1].help.as_deref(), Some("pin the real file inside the governed tree"));
    assert_eq!(findings[3].help, None);
}

use mdatron::error::Error;
use mdatron::pin::{repin, RepinTarget};

fn raw(file: &str, section: Option<&str>, sha: &str) -> RawPin {
    RawPin {
        governed_by: "GOV.md".to_string(),
        file: file.to_string(),
        section: section.map(str::to_string),
        sha256: sha.to_string(),
    }
}

#[test]
fn repin_reports_only_changed_entries() {
    let a = "alpha\n";
    let fresh = sha256_hex(a.as_bytes());
    let changed = repin(
        &[raw("a.md", None, &fresh), raw("b.md", None, "old"), raw("c.md", None, "x")],
        &[
            RepinTarget::Bytes(a.as_bytes().to_vec()),
            RepinTarget::Bytes(b"beta\n".to_vec()),
            RepinTarget::Unresolved,
        ],
        1024,
    )
    .unwrap();
    assert_eq!(changed, vec![(1, "b.md".to_string(), "old".to_string(), sha256_hex(b"beta\n"))]);
}

#[test]
fn repin_section_and_refusals() {
    let content = "# T\n## S\nbody\n";
    let sec = sha256_hex(b"## S\nbody\n");
    let ok = repin(
        &[raw("s.md", Some("## S"), "stale"), raw("m.md", Some("## Missing"), "keep")],
        &[RepinTarget::Bytes(content.as_bytes().to_vec()), RepinTarget::Bytes(content.as_bytes().to_vec())],
        1024,
    )
    .unwrap();
    assert_eq!(ok, vec![(0, "s.md".to_string(), "stale".to_string(), sec)]);

    let over = repin(&[raw("big.md", None, "")], &[RepinTarget::Bytes(vec![b'x'; 11])], 10);
    match over {
        Err(Error::Config(m)) => {
            assert!(m.contains("max-input-size-per-file") && m.contains("10-byte"), "{m}")
        }
        Ok(_) => panic!("an over-bound target must be refused"),
    }
    match repin(&[raw("../esc\u{1b}[31m.md", None, "")], &[RepinTarget::Unresolved], 10) {
        Err(Error::Config(m)) => {
            assert_eq!(m, "pin file '../esc\\x1B[31m.md' escapes: ParentSegment");
        }
        Ok(_) => panic!("an escaping path must be refused"),
    }
    match repin(
        &[raw("a.md", None, ""), raw("b.md", None, "")],
        &[RepinTarget::OpenFailed("permission denied".into()), RepinTarget::ReadFailed("x".into())],
        10,
    ) {
        Err(Error::Config(m)) => assert_eq!(m, "cannot re-pin 'a.md': permission denied"),
        Ok(_) => panic!("a failed open must be refused"),
    }
}

#[test]
fn repin_names_the_entry_it_changes() {
    let content = "# T\n## A\na\n## B\nb\n";
    let a = sha256_hex(b"## A\na\n");
    let changed = repin(
        &[raw("d.md", Some("## A"), &a), raw("d.md", Some("## B"), &a)],
        &[RepinTarget::Bytes(content.as_bytes().to_vec()), RepinTarget::Bytes(content.as_bytes().to_vec())],
        1024,
    )
    .unwrap();
    assert_eq!(changed, vec![(1, "d.md".to_string(), a.clone(), sha256_hex(b"## B\nb\n"))]);
}

//! Classes of drift.

use tomte::chezmoi::{EvalFailure, EvalFailureKind};
use tomte::drift::{classify, same_hash, ContentHash, DriftClass, GitSignals, StateProbe};

fn h(n: u8) -> Option<ContentHash> {
    Some(ContentHash::of(&[n]))
}

fn probe(
    dest: Option<ContentHash>,
    rendered: Option<ContentHash>,
    last: Option<ContentHash>,
    local_ahead: bool,
    remote_ahead: bool,
) -> StateProbe {
    StateProbe {
        destination: dest,
        rendered: Ok(rendered),
        last_written: last,
        git: GitSignals {
            local_ahead,
            remote_ahead,
        },
    }
}

#[test]
fn classification_table() {
    let cases = [
        (probe(h(1), h(1), h(1), false, false), DriftClass::InSync),
        (
            probe(h(2), h(1), h(1), false, false),
            DriftClass::DestinationDrift,
        ),
        (
            probe(None, h(1), h(1), false, false),
            DriftClass::DestinationDrift,
        ),
        (
            probe(h(1), h(2), h(1), false, false),
            DriftClass::SourceAhead,
        ),
        (
            probe(h(1), h(1), h(1), false, true),
            DriftClass::RemoteAhead,
        ),
        (
            probe(h(1), h(1), h(1), true, true),
            DriftClass::LocalSourceDiverged,
        ),
        (probe(h(2), h(1), h(1), true, true), DriftClass::Conflict),
        (probe(h(2), h(3), h(1), false, false), DriftClass::Conflict),
        (probe(h(2), h(1), h(1), false, true), DriftClass::Conflict),
        (probe(h(1), h(1), None, false, false), DriftClass::Conflict),
    ];
    for (i, (p, expected)) in cases.iter().enumerate() {
        assert_eq!(classify(p), *expected, "case {i}");
    }
}

#[test]
fn eval_failure_dominates() {
    let p = StateProbe {
        destination: h(2),
        rendered: Err(EvalFailure {
            kind: EvalFailureKind::TemplateError,
            raw_stderr: String::new(),
            hint: String::new(),
        }),
        last_written: h(1),
        git: GitSignals {
            local_ahead: true,
            remote_ahead: true,
        },
    };
    assert_eq!(classify(&p), DriftClass::EvalFailed);
}

#[test]
fn hash_roundtrip() {
    let h = ContentHash::of(b"abc");
    assert_eq!(ContentHash::from_hex(&h.to_hex()), Some(h));
}

#[test]
fn hashes_are_sha_256() {
    assert_eq!(
        ContentHash::of(b"abc").to_hex(),
        "ba7816bf8f01cfea414140de5dae2223b00361a396177a9cb410ff61f20015ad"
    );
    assert_eq!(
        ContentHash::of(b"").to_hex(),
        "e3b0c44298fc1c149afbf4c8996fb92427ae41e4649b934ca495991b7852b855"
    );
}

#[test]
fn bad_hexadecimal_is_no_hash() {
    assert_eq!(ContentHash::from_hex(""), None);
    assert_eq!(ContentHash::from_hex(&"0".repeat(63)), None);
    assert_eq!(ContentHash::from_hex(&"g".repeat(64)), None);
    let upper = ContentHash::of(b"abc").to_hex().to_uppercase();
    assert_eq!(ContentHash::from_hex(&upper), Some(ContentHash::of(b"abc")));
    assert!(same_hash(&None, &None));
    assert!(!same_hash(&h(1), &None));
    assert!(!same_hash(&h(1), &h(2)));
}

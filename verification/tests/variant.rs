use http_intent::Encoding;
use http_intent::Input;
use http_intent::ProbeAction;
use http_intent::ProbeOutcome;
use http_intent::Resolution;
use http_intent::resolve::probe_path;
use http_intent::resolve::resolve_with;

#[test]
fn suffixes() {
    assert_eq!(Encoding::Identity.suffix(), "");
    assert_eq!(Encoding::Gzip.suffix(), ".gz");
    assert_eq!(Encoding::Brotli.suffix(), ".br");
}

#[test]
fn probe_path_appends_suffix() {
    assert_eq!(
        probe_path(b"/srv/index.html", Encoding::Gzip),
        b"/srv/index.html.gz".to_vec()
    );
    assert_eq!(
        probe_path(b"/srv/index.html", Encoding::Brotli),
        b"/srv/index.html.br".to_vec()
    );
    assert_eq!(
        probe_path(b"/srv/index.html", Encoding::Identity),
        b"/srv/index.html".to_vec()
    );
}

#[test]
fn first_existing_variant_wins() {
    // Preference br, gzip, identity; only the gzip and identity variants
    // exist: the gzip one is returned, and identity is never preferred.
    let v = Input::from_headers("GET", &[("accept-encoding", b"br, gzip".as_slice())]);
    let outcomes = vec![
        ProbeOutcome::NotFound,
        ProbeOutcome::Opened,
        ProbeOutcome::Opened,
    ];
    let (matched, logs) = resolve_with(&v.accept_encoding, &outcomes);
    assert_eq!(matched, Some(Encoding::Gzip));
    assert_eq!(logs, 0);
}

#[test]
fn resolution_machine_walk() {
    let v = Input::from_headers("GET", &[("accept-encoding", b"br, gzip".as_slice())]);
    let mut r = Resolution::new(&v, b"/srv/a".to_vec());
    assert_eq!(r.next_probe(), Some(b"/srv/a.br".to_vec()));
    assert_eq!(r.current_encoding(), Encoding::Brotli);
    assert_eq!(
        r.advance(ProbeOutcome::NotFound),
        ProbeAction::Continue { log: false }
    );
    assert_eq!(r.next_probe(), Some(b"/srv/a.gz".to_vec()));
    assert_eq!(
        r.advance(ProbeOutcome::Opened),
        ProbeAction::Matched(Encoding::Gzip)
    );
}

#[test]
fn exhaustion_is_absence() {
    let v = Input::from_headers("GET", &[("accept-encoding", b"br, gzip".as_slice())]);
    let outcomes = vec![
        ProbeOutcome::NotFound,
        ProbeOutcome::OtherError,
        ProbeOutcome::NotFound,
    ];
    let (matched, logs) = resolve_with(&v.accept_encoding, &outcomes);
    assert_eq!(matched, None);
    // Exactly one diagnostic: the one non-"not found" failure.
    assert_eq!(logs, 1);
}

#[test]
fn not_found_probes_are_silent() {
    let v = Input::from_headers("GET", &[("accept-encoding", b"gzip".as_slice())]);
    let outcomes = vec![ProbeOutcome::NotFound, ProbeOutcome::NotFound];
    let (matched, logs) = resolve_with(&v.accept_encoding, &outcomes);
    assert_eq!(matched, None);
    assert_eq!(logs, 0);
}

#[test]
fn identity_only_probes_base_path() {
    // No Accept-Encoding header: the resolver probes only the unsuffixed
    // file, then gives up.
    let v = Input::from_headers("GET", &[]);
    let mut r = Resolution::new(&v, b"/srv/plain".to_vec());
    assert_eq!(r.next_probe(), Some(b"/srv/plain".to_vec()));
    assert_eq!(
        r.advance(ProbeOutcome::NotFound),
        ProbeAction::Continue { log: false }
    );
    assert_eq!(r.next_probe(), None);
}

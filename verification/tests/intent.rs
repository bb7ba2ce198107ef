use http_intent::AcceptEncodingParser;
use http_intent::Encoding;
use http_intent::Input;
use http_intent::Mode;
use http_intent::Range;

fn send<T: Send>(_: &T) {}
fn self_contained<T: 'static>(_: &T) {}

fn encs(v: &Input) -> Vec<Encoding> {
    let mut out = Vec::new();
    let mut i = 0;
    while i < v.accept_encoding.len() {
        out.push(v.accept_encoding.get(i));
        i += 1;
    }
    out
}

#[test]
fn traits() {
    let v = Input {
        mode: Mode::Get,
        accept_encoding: AcceptEncodingParser::new().done(),
        range: None,
        if_range: None,
        if_match: Vec::new(),
        if_none: Vec::new(),
        if_unmodified: None,
        if_modified: None,
    };
    send(&v);
    self_contained(&v);
}

#[test]
fn head_method() {
    let v = Input::from_headers("HEAD", &[]);
    assert_eq!(v.mode, Mode::Head);
    assert_eq!(encs(&v), vec![Encoding::Identity]);
    assert_eq!(v.range, None);
}

#[test]
fn get_method() {
    let v = Input::from_headers("GET", &[]);
    assert_eq!(v.mode, Mode::Get);
    assert_eq!(encs(&v), vec![Encoding::Identity]);
    assert_eq!(v.range, None);
}

#[test]
fn invalid_method_ignores_headers() {
    let v = Input::from_headers(
        "POST",
        &[
            ("accept-encoding", b"br, gzip".as_slice()),
            ("range", b"not a range at all".as_slice()),
        ],
    );
    assert_eq!(v.mode, Mode::InvalidMethod);
    assert_eq!(encs(&v), vec![Encoding::Identity]);
    assert_eq!(v.range, None);
    assert_eq!(v.if_range, None);
    assert!(v.if_match.is_empty());
    assert!(v.if_none.is_empty());
    assert_eq!(v.if_unmodified, None);
    assert_eq!(v.if_modified, None);
}

#[test]
fn lowercase_method_rejected() {
    let v = Input::from_headers("get", &[]);
    assert_eq!(v.mode, Mode::InvalidMethod);
}

#[test]
fn invalid_range_discards_encoding() {
    let v = Input::from_headers(
        "GET",
        &[
            ("accept-encoding", b"br, gzip".as_slice()),
            ("range", b"bogus".as_slice()),
        ],
    );
    assert_eq!(v.mode, Mode::InvalidRange);
    assert_eq!(encs(&v), vec![Encoding::Identity]);
    assert_eq!(v.range, None);
    assert_eq!(v.if_range, None);
    assert!(v.if_match.is_empty());
}

#[test]
fn no_accept_encoding_defaults_to_identity() {
    let v = Input::from_headers("GET", &[("x-unrelated", b"1".as_slice())]);
    assert_eq!(v.mode, Mode::Get);
    assert_eq!(encs(&v), vec![Encoding::Identity]);
}

#[test]
fn accept_encoding_preference_order() {
    let v = Input::from_headers("GET", &[("accept-encoding", b"br, gzip".as_slice())]);
    assert_eq!(
        encs(&v),
        vec![Encoding::Brotli, Encoding::Gzip, Encoding::Identity]
    );
}

#[test]
fn accept_encoding_case_and_params() {
    let v = Input::from_headers(
        "GET",
        &[("accept-encoding", b" GZip ; q=0.5 , BR ".as_slice())],
    );
    assert_eq!(
        encs(&v),
        vec![Encoding::Gzip, Encoding::Brotli, Encoding::Identity]
    );
}

#[test]
fn accept_encoding_dedup() {
    let v = Input::from_headers(
        "GET",
        &[("accept-encoding", b"gzip, gzip, identity".as_slice())],
    );
    assert_eq!(encs(&v), vec![Encoding::Gzip, Encoding::Identity]);
}

#[test]
fn explicit_identity_keeps_its_position() {
    let v = Input::from_headers("GET", &[("accept-encoding", b"identity, br".as_slice())]);
    assert_eq!(encs(&v), vec![Encoding::Identity, Encoding::Brotli]);
}

#[test]
fn empty_accept_encoding_value_defaults() {
    let v = Input::from_headers("GET", &[("accept-encoding", b"".as_slice())]);
    assert_eq!(encs(&v), vec![Encoding::Identity]);
}

#[test]
fn unknown_encodings_ignored() {
    let v = Input::from_headers("GET", &[("accept-encoding", b"deflate, zstd".as_slice())]);
    assert_eq!(encs(&v), vec![Encoding::Identity]);
}

#[test]
fn header_names_case_insensitive() {
    let v = Input::from_headers(
        "GET",
        &[
            ("ACCEPT-ENCODING", b"gzip".as_slice()),
            ("RaNgE", b"bytes=0-9".as_slice()),
        ],
    );
    assert_eq!(v.mode, Mode::Get);
    assert_eq!(encs(&v), vec![Encoding::Gzip, Encoding::Identity]);
    assert_eq!(v.range, Some(Range::FromTo(0, 9)));
}

#[test]
fn repeated_accept_encoding_headers_merge() {
    let v = Input::from_headers(
        "GET",
        &[
            ("accept-encoding", b"br".as_slice()),
            ("accept-encoding", b"gzip, br".as_slice()),
        ],
    );
    assert_eq!(
        encs(&v),
        vec![Encoding::Brotli, Encoding::Gzip, Encoding::Identity]
    );
}

#[test]
fn range_from_to() {
    let v = Input::from_headers("GET", &[("range", b"bytes=0-499".as_slice())]);
    assert_eq!(v.mode, Mode::Get);
    assert_eq!(v.range, Some(Range::FromTo(0, 499)));
}

#[test]
fn range_all_from() {
    let v = Input::from_headers("GET", &[("range", b"bytes=500-".as_slice())]);
    assert_eq!(v.range, Some(Range::AllFrom(500)));
}

#[test]
fn range_last() {
    let v = Input::from_headers("GET", &[("range", b"bytes=-200".as_slice())]);
    assert_eq!(v.range, Some(Range::Last(200)));
}

#[test]
fn range_without_unit_invalid() {
    let v = Input::from_headers("GET", &[("range", b"0-499".as_slice())]);
    assert_eq!(v.mode, Mode::InvalidRange);
}

#[test]
fn range_reversed_invalid() {
    let v = Input::from_headers("GET", &[("range", b"bytes=5-2".as_slice())]);
    assert_eq!(v.mode, Mode::InvalidRange);
}

#[test]
fn range_overflow_invalid() {
    let v = Input::from_headers("GET", &[("range", b"bytes=18446744073709551616-".as_slice())]);
    assert_eq!(v.mode, Mode::InvalidRange);
}

#[test]
fn range_largest_offset_accepted() {
    let v = Input::from_headers("GET", &[("range", b"bytes=18446744073709551615-".as_slice())]);
    assert_eq!(v.range, Some(Range::AllFrom(u64::MAX)));
}

#[test]
fn range_empty_forms_invalid() {
    let a = Input::from_headers("GET", &[("range", b"bytes=".as_slice())]);
    assert_eq!(a.mode, Mode::InvalidRange);
    let b = Input::from_headers("GET", &[("range", b"bytes=-".as_slice())]);
    assert_eq!(b.mode, Mode::InvalidRange);
}

#[test]
fn repeated_range_headers_invalid() {
    let v = Input::from_headers(
        "GET",
        &[
            ("range", b"bytes=0-4".as_slice()),
            ("range", b"bytes=5-9".as_slice()),
        ],
    );
    assert_eq!(v.mode, Mode::InvalidRange);
}

#[test]
fn etag_holds_its_bytes() {
    let tag = http_intent::Etag::new(vec![b'"', b'x', b'"']);
    assert_eq!(tag.value(), &vec![b'"', b'x', b'"']);
}

#[test]
fn construction_idempotent() {
    let headers = [
        ("accept-encoding", b"br, gzip".as_slice()),
        ("range", b"bytes=10-20".as_slice()),
        ("x-other", b"zzz".as_slice()),
    ];
    let a = Input::from_headers("GET", &headers);
    let b = Input::from_headers("GET", &headers);
    assert_eq!(a, b);
}

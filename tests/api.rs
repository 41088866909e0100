use chartered_git::api::{parse, ErrorResponse, PublishCrateResponse};

#[test]
fn publish_body_split() {
    let mut body = vec![2, 0, 0, 0];
    body.extend_from_slice(b"{}");
    body.extend_from_slice(&[3, 0, 0, 0]);
    body.extend_from_slice(b"tgz");
    body.extend_from_slice(b"tail");
    let (rest, meta, krate) = parse(&body).unwrap();
    assert_eq!(meta, b"{}".to_vec());
    assert_eq!(krate, b"tgz".to_vec());
    assert_eq!(rest, b"tail".to_vec());
}

#[test]
fn publish_body_too_short() {
    assert!(parse(&[1, 0, 0]).is_none());
    assert!(parse(&[5, 0, 0, 0, 1, 2]).is_none());
    assert!(parse(&[0, 0, 0, 0, 1, 0, 0, 0]).is_none());
    assert!(parse(&[0, 0, 0, 0, 0, 0, 0, 0]).is_some());
}

#[test]
fn publish_body_large_length() {
    let body = [0xff, 0xff, 0xff, 0xff, 0];
    assert!(parse(&body).is_none());
}

#[test]
fn empty_publish_response() {
    let r = PublishCrateResponse::default();
    assert!(r.warnings.invalid_categories.is_empty());
    assert!(r.warnings.invalid_badges.is_empty());
    assert!(r.warnings.other.is_empty());
    let e = ErrorResponse::new(Some("boom".to_string()));
    assert_eq!(e.error.as_deref(), Some("boom"));
}

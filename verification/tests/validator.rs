use harmony::candidate::{normalize_and_validate_url, Candidate, ValidationError};

#[test]
fn youtu_be_query_dropped() {
    let r = normalize_and_validate_url("youtu.be/abc123?t=5");
    assert_eq!(r.as_deref(), Some("youtu.be/abc123"));
}

#[test]
fn youtube_watch_params_dropped() {
    let r = normalize_and_validate_url("youtube.com/watch?v=abc123&list=xyz");
    assert_eq!(r.as_deref(), Some("youtu.be/abc123"));
}

#[test]
fn both_forms_same_canonical_url() {
    let a = normalize_and_validate_url("youtu.be/abc123?t=5").unwrap();
    let b = normalize_and_validate_url("youtube.com/watch?v=abc123&list=xyz").unwrap();
    assert_eq!(a, b);
    assert_eq!(a, "youtu.be/abc123");
}

#[test]
fn scheme_and_www_stripped() {
    let r = normalize_and_validate_url("https://www.youtube.com/watch?v=dQw4w9WgXcQ");
    assert_eq!(r.as_deref(), Some("youtu.be/dQw4w9WgXcQ"));
    let r2 = normalize_and_validate_url("http://youtu.be/dQw4w9WgXcQ");
    assert_eq!(r2.as_deref(), Some("youtu.be/dQw4w9WgXcQ"));
}

#[test]
fn surrounding_whitespace_trimmed() {
    let r = normalize_and_validate_url("  https://youtu.be/xyz \n");
    assert_eq!(r.as_deref(), Some("youtu.be/xyz"));
}

#[test]
fn unsupported_source_rejected() {
    assert_eq!(normalize_and_validate_url("soundcloud.com/artist/track"), None);
    let c = Candidate {
        url: "soundcloud.com/artist/track".to_string(),
        title: None,
        artists: vec![],
    };
    let r = c.validated();
    assert!(matches!(r, Err(ValidationError::UnsupportedSource)));
}

#[test]
fn empty_id_rejected() {
    assert_eq!(normalize_and_validate_url("youtu.be/"), None);
    assert_eq!(normalize_and_validate_url("youtu.be/?t=1"), None);
    assert_eq!(normalize_and_validate_url("youtube.com/watch?v="), None);
    assert_eq!(normalize_and_validate_url("youtube.com/watch?v=&list=x"), None);
}

#[test]
fn validation_idempotent_on_samples() {
    for input in [
        "youtu.be/abc123?t=5",
        "https://www.youtube.com/watch?v=dQw4w9WgXcQ",
        " http://youtu.be/a-b_c ",
        "youtube.com/watch?v=q&x=1&y=2",
    ] {
        let once = normalize_and_validate_url(input).unwrap();
        let twice = normalize_and_validate_url(&once).unwrap();
        assert_eq!(once, twice);
    }
}

#[test]
fn validated_keeps_title_and_artists() {
    let c = Candidate {
        url: "https://youtu.be/abc".to_string(),
        title: Some("T".to_string()),
        artists: vec!["A".to_string(), "B".to_string()],
    };
    let v = c.validated().unwrap();
    assert_eq!(v.url, "youtu.be/abc");
    assert_eq!(v.title.as_deref(), Some("T"));
    assert_eq!(v.artists, vec!["A".to_string(), "B".to_string()]);
}

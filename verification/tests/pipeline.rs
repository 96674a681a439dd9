use harmony::archiver::{begin_ingest, commit_track, finalize_track, IngestSkip};
use harmony::candidate::Candidate;
use harmony::database::Database;
use harmony::metadata::{fill_metadata, parse_metadata_line, Enrichment, RawMetadata};
use harmony::track::{ArchiveDate, Track};

fn date() -> ArchiveDate {
    ArchiveDate { year: 2024, month: 6, day: 1 }
}

fn candidate(url: &str) -> Candidate {
    Candidate { url: url.to_string(), title: None, artists: vec![] }
}

#[test]
fn metadata_track_fields_used_when_present() {
    let line = "Some Song<<harmony>>A, NA, B<<harmony>>A video<<harmony>>Uploader\n";
    match parse_metadata_line(line).unwrap() {
        RawMetadata::Track { title, artists } => {
            assert_eq!(title, "Some Song");
            assert_eq!(artists, vec!["A".to_string(), "B".to_string()]);
        },
        RawMetadata::Video { .. } => panic!("expected the structured track form"),
    }
}

#[test]
fn metadata_uploader_backs_up_empty_artists() {
    let line = "Some Song<<harmony>>NA<<harmony>>A video<<harmony>>Uploader\n";
    match parse_metadata_line(line).unwrap() {
        RawMetadata::Track { title, artists } => {
            assert_eq!(title, "Some Song");
            assert_eq!(artists, vec!["Uploader".to_string()]);
        },
        RawMetadata::Video { .. } => panic!("expected the structured track form"),
    }
}

#[test]
fn metadata_video_fallback_with_placeholders() {
    let line = "NA<<harmony>>NA<<harmony>><<harmony>>\n";
    match parse_metadata_line(line).unwrap() {
        RawMetadata::Video { title, uploader } => {
            assert_eq!(title, "PLACEHOLDER");
            assert_eq!(uploader, "PLACEHOLDER");
        },
        RawMetadata::Track { .. } => panic!("expected the video fallback form"),
    }
}

#[test]
fn metadata_short_line_breaks_tool_contract() {
    assert!(parse_metadata_line("just<<harmony>>three<<harmony>>fields").is_none());
    assert!(parse_metadata_line("").is_none());
}

#[test]
fn enrichment_preferred_over_video_fields() {
    let mut c = candidate("youtu.be/x");
    let raw = RawMetadata::Video { title: "Artist - Song (Official)".to_string(), uploader: "Chan".to_string() };
    let e = Enrichment { title: "Song".to_string(), artists: vec!["Artist".to_string()] };
    fill_metadata(&mut c, raw, Some(e));
    assert_eq!(c.title.as_deref(), Some("Song"));
    assert_eq!(c.artists, vec!["Artist".to_string()]);
}

#[test]
fn enrichment_with_no_artists_falls_back_to_uploader() {
    let mut c = candidate("youtu.be/x");
    let raw = RawMetadata::Video { title: "V".to_string(), uploader: "Chan".to_string() };
    let e = Enrichment { title: "Song".to_string(), artists: vec![] };
    fill_metadata(&mut c, raw, Some(e));
    assert_eq!(c.title.as_deref(), Some("Song"));
    assert_eq!(c.artists, vec!["Chan".to_string()]);
}

#[test]
fn enrichment_failure_keeps_tool_metadata() {
    let mut c = candidate("youtu.be/x");
    let raw = RawMetadata::Video { title: "V".to_string(), uploader: "Chan".to_string() };
    fill_metadata(&mut c, raw, None);
    assert_eq!(c.title.as_deref(), Some("V"));
    assert_eq!(c.artists, vec!["Chan".to_string()]);
}

#[test]
fn file_name_joins_artists_and_sanitizes() {
    let t = Track::new(
        7,
        "youtu.be/x".to_string(),
        "Song".to_string(),
        vec!["A".to_string(), "B".to_string()],
        date(),
    );
    assert_eq!(t.file_name(), "A, B - Song.m4a");
    // Filesystem-reserved characters are replaced, so the name is not the
    // raw stem.
    let odd = Track::new(
        8,
        "youtu.be/y".to_string(),
        "T?N".to_string(),
        vec!["AC/DC".to_string()],
        date(),
    );
    assert_eq!(odd.file_name(), "AC_DC - T_N.m4a");
}

#[test]
fn duplicate_candidate_skipped_after_commit() {
    let mut db = Database::new();
    let job = begin_ingest(&mut db, candidate("https://youtu.be/abc?t=1")).unwrap();
    assert_eq!(job.track_id, 1);
    let mut c = job.candidate;
    c.title = Some("Song".to_string());
    c.artists = vec!["A".to_string()];
    let t = finalize_track(harmony::archiver::IngestJob { candidate: c, track_id: job.track_id }, date());
    assert!(commit_track(&mut db, t));
    // The second candidate canonicalizes to the same URL and is dropped.
    let again = begin_ingest(&mut db, candidate("www.youtube.com/watch?v=abc&list=l"));
    assert!(matches!(again, Err(IngestSkip::AlreadyArchived)));
    assert_eq!(db.all_tracks().len(), 1);
}

#[test]
fn unsupported_candidate_never_allocates_an_id() {
    let mut db = Database::new();
    let r = begin_ingest(&mut db, candidate("soundcloud.com/a/t"));
    assert!(matches!(r, Err(IngestSkip::UnsupportedUrl)));
    assert_eq!(db.peek_next_track_id(), 1);
}

#[test]
fn commit_refuses_an_unallocated_id() {
    let mut db = Database::new();
    let t = Track::new(7, "youtu.be/x".to_string(), "T".to_string(), vec![], date());
    assert!(!commit_track(&mut db, t));
    assert_eq!(db.all_tracks().len(), 0);
}

#[test]
fn end_to_end_candidate_to_catalog() {
    let mut db = Database::new();
    let submitted = Candidate {
        url: "https://youtu.be/dQw4w9WgXcQ".to_string(),
        title: None,
        artists: vec![],
    };
    let job = begin_ingest(&mut db, submitted).unwrap();
    assert_eq!(job.track_id, 1);
    assert_eq!(job.candidate.url, "youtu.be/dQw4w9WgXcQ");

    // The worker now resets its scratch directory and asks the downloader
    // tool for metadata; this canned line stands in for the tool's output.
    let line =
        "NA<<harmony>>NA<<harmony>>Never Gonna Give You Up<<harmony>>RickAstleyVEVO\n";
    let raw = parse_metadata_line(line).unwrap();
    let mut c = job.candidate;
    fill_metadata(&mut c, raw, None);
    assert_eq!(c.title.as_deref(), Some("Never Gonna Give You Up"));
    assert_eq!(c.artists, vec!["RickAstleyVEVO".to_string()]);

    let track = finalize_track(
        harmony::archiver::IngestJob { candidate: c, track_id: job.track_id },
        date(),
    );
    assert_eq!(track.file_name(), "RickAstleyVEVO - Never Gonna Give You Up.m4a");
    assert!(commit_track(&mut db, track));

    let all = db.all_tracks();
    assert_eq!(all.len(), 1);
    assert_eq!(all[0].id, 1);
    assert_eq!(all[0].url, "youtu.be/dQw4w9WgXcQ");
    assert_eq!(all[0].title, "Never Gonna Give You Up");
    assert_eq!(all[0].artists, vec!["RickAstleyVEVO".to_string()]);
    assert_eq!(all[0].artists.join(", "), "RickAstleyVEVO");
}

use harmony::database::{ArtistRow, Database};
use harmony::track::{ArchiveDate, Track};

fn date() -> ArchiveDate {
    ArchiveDate { year: 2024, month: 6, day: 1 }
}

fn track(id: u32, url: &str, title: &str, artists: &[&str]) -> Track {
    Track::new(
        id,
        url.to_string(),
        title.to_string(),
        artists.iter().map(|a| a.to_string()).collect(),
        date(),
    )
}

#[test]
fn next_track_ids_strictly_increasing_and_gap_free() {
    let mut db = Database::new();
    let mut got = Vec::new();
    for _ in 0..5 {
        got.push(db.next_track_id());
    }
    assert_eq!(got, vec![1, 2, 3, 4, 5]);
}

#[test]
fn next_id_survives_restart() {
    let mut db = Database::new();
    let id = db.next_track_id();
    let t = track(id, "youtu.be/a", "A", &["X"]);
    db.insert_tracks(vec![t]);
    let tracks = db.all_tracks();
    let artists = vec![ArtistRow { id: 1, name: "X".to_string() }];
    let links = vec![(1u32, 1u32)];
    let mut reloaded = Database::load(tracks, artists, links).unwrap();
    assert_eq!(reloaded.next_track_id(), 2);
}

#[test]
fn restart_from_empty_starts_at_one() {
    let mut db = Database::load(Vec::new(), Vec::new(), Vec::new()).unwrap();
    assert_eq!(db.next_track_id(), 1);
    assert_eq!(db.next_artist_id(), 1);
}

#[test]
fn load_rejects_unsorted_rows() {
    let rows = vec![track(2, "youtu.be/a", "A", &[]), track(1, "youtu.be/b", "B", &[])];
    assert!(Database::load(rows, Vec::new(), Vec::new()).is_none());
}

#[test]
fn load_rejects_an_id_with_no_successor() {
    let rows = vec![track(u32::MAX, "youtu.be/a", "A", &[])];
    assert!(Database::load(rows, Vec::new(), Vec::new()).is_none());
}

#[test]
fn load_rejects_link_to_missing_artist() {
    let artists = vec![ArtistRow { id: 1, name: "X".to_string() }];
    let links = vec![(1u32, 5u32)];
    assert!(Database::load(Vec::new(), artists, links).is_none());
}

#[test]
fn load_rejects_duplicate_links() {
    let links = vec![(1u32, 1u32), (1u32, 1u32)];
    assert!(Database::load(Vec::new(), Vec::new(), links).is_none());
}

#[test]
fn load_rejects_case_duplicate_artists() {
    let artists = vec![
        ArtistRow { id: 1, name: "Daft Punk".to_string() },
        ArtistRow { id: 2, name: "DAFT PUNK".to_string() },
    ];
    assert!(Database::load(Vec::new(), artists, Vec::new()).is_none());
}

#[test]
fn artist_reused_across_casing() {
    let mut db = Database::new();
    let first = db.insert_artist("Daft Punk");
    let second = db.insert_artist("DAFT PUNK");
    assert_eq!(first, second);
    assert_eq!(db.artist_id("daft punk"), Some(first));
    assert_eq!(db.artist_id("Someone Else"), None);
}

#[test]
fn two_tracks_share_one_artist_row() {
    let mut db = Database::new();
    let id1 = db.next_track_id();
    let id2 = db.next_track_id();
    db.insert_tracks(vec![track(id1, "youtu.be/a", "A", &["Daft Punk"])]);
    db.insert_tracks(vec![track(id2, "youtu.be/b", "B", &["DAFT PUNK"])]);
    let all = db.all_tracks();
    assert_eq!(all.len(), 2);
    // Both read back the single stored row, under its first casing.
    assert_eq!(all[0].artists, vec!["Daft Punk".to_string()]);
    assert_eq!(all[1].artists, vec!["Daft Punk".to_string()]);
}

#[test]
fn is_archived_false_before_true_after() {
    let mut db = Database::new();
    assert!(!db.is_track_archived("youtu.be/a"));
    let id = db.next_track_id();
    db.insert_tracks(vec![track(id, "youtu.be/a", "A", &["X"])]);
    assert!(db.is_track_archived("youtu.be/a"));
    assert!(!db.is_track_archived("youtu.be/b"));
}

#[test]
fn remove_excludes_track_and_links() {
    let mut db = Database::new();
    let id1 = db.next_track_id();
    let id2 = db.next_track_id();
    db.insert_tracks(vec![
        track(id1, "youtu.be/a", "A", &["X"]),
        track(id2, "youtu.be/b", "B", &["X", "Y"]),
    ]);
    db.remove_tracks(&vec![id1]);
    let all = db.all_tracks();
    assert_eq!(all.len(), 1);
    assert_eq!(all[0].id, id2);
    assert_eq!(all[0].artists, vec!["X".to_string(), "Y".to_string()]);
    assert!(!db.is_track_archived("youtu.be/a"));
}

#[test]
fn remove_missing_id_is_noop() {
    let mut db = Database::new();
    let id = db.next_track_id();
    db.insert_tracks(vec![track(id, "youtu.be/a", "A", &["X"])]);
    db.remove_tracks(&vec![999]);
    let all = db.all_tracks();
    assert_eq!(all.len(), 1);
    assert_eq!(all[0].id, id);
}

#[test]
fn reinsert_same_id_replaces_row() {
    let mut db = Database::new();
    let id = db.next_track_id();
    db.insert_tracks(vec![track(id, "youtu.be/a", "Old", &["X"])]);
    db.insert_tracks(vec![track(id, "youtu.be/a", "New", &["X"])]);
    let all = db.all_tracks();
    assert_eq!(all.len(), 1);
    assert_eq!(all[0].title, "New");
    assert_eq!(all[0].artists, vec!["X".to_string()]);
}

#[test]
fn duplicate_artist_in_one_track_links_once() {
    let mut db = Database::new();
    let id = db.next_track_id();
    db.insert_tracks(vec![track(id, "youtu.be/a", "A", &["X", "x"])]);
    let all = db.all_tracks();
    assert_eq!(all[0].artists, vec!["X".to_string()]);
}

#[test]
fn all_tracks_in_id_order_with_artists() {
    let mut db = Database::new();
    let id1 = db.next_track_id();
    let id2 = db.next_track_id();
    db.insert_tracks(vec![
        track(id2, "youtu.be/b", "B", &["M", "N"]),
        track(id1, "youtu.be/a", "A", &[]),
    ]);
    let all = db.all_tracks();
    assert_eq!(all.len(), 2);
    assert_eq!(all[0].id, id1);
    assert_eq!(all[1].id, id2);
    assert!(all[0].artists.is_empty());
    assert_eq!(all[1].artists, vec!["M".to_string(), "N".to_string()]);
    assert_eq!(all[1].url, "youtu.be/b");
    assert_eq!(all[1].date_archived, date());
}

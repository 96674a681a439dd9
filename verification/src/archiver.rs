//! The ingestion worker's decision logic. The worker drains a queue of
//! candidates; for each it validates, skips duplicates, allocates an id,
//! acquires metadata, downloads, tags, places the file and commits the
//! track. The external work (subprocesses, the filesystem, the clock)
//! happens outside; the decisions and the catalog changes are here.

use crate::candidate::{normalize_spec, Candidate};
use crate::database::{
    apply_insert, apply_insert_one, lemma_insert_archives, total_artist_names, tracks_have_url,
    Database, StoreModel,
};
use crate::track::{ArchiveDate, Track};
use vstd::prelude::*;

verus! {

/// Why a candidate was dropped before any external work.
#[derive(Debug, Clone, Copy, PartialEq, Eq, Structural)]
pub enum IngestSkip {
    /// Its URL matches no supported source.
    UnsupportedUrl,
    /// A track with its canonical URL is already archived.
    AlreadyArchived,
}

/// An accepted candidate on its way to the catalog: validated, not yet
/// archived, with its track id already allocated.
pub struct IngestJob {
    pub candidate: Candidate,
    pub track_id: u32,
}

/// Admit a candidate: validate its URL, drop it if the canonical URL is
/// already archived, and allocate its track id. An id allocated for a
/// job that later fails stays unused: an accepted, harmless gap.
pub fn begin_ingest(db: &mut Database, candidate: Candidate) -> (r: Result<IngestJob, IngestSkip>)
    requires
        old(db).wf(),
        old(db)@.next_track_id < u32::MAX,
    ensures
        final(db).wf(),
        match r {
            Err(IngestSkip::UnsupportedUrl) => normalize_spec(candidate.url@) is None
                && final(db)@ == old(db)@,
            Err(IngestSkip::AlreadyArchived) => (match normalize_spec(candidate.url@) {
                Some(c) => tracks_have_url(old(db)@.tracks, c),
                None => false,
            }) && final(db)@ == old(db)@,
            Ok(job) => {
                &&& normalize_spec(candidate.url@) == Some(job.candidate.url@)
                &&& !tracks_have_url(old(db)@.tracks, job.candidate.url@)
                &&& job.candidate.title == candidate.title
                &&& job.candidate.artists == candidate.artists
                &&& job.track_id == old(db)@.next_track_id
                &&& final(db)@.next_track_id == old(db)@.next_track_id + 1
                &&& final(db)@.tracks == old(db)@.tracks
                &&& final(db)@.artists == old(db)@.artists
                &&& final(db)@.links == old(db)@.links
                &&& final(db)@.next_artist_id == old(db)@.next_artist_id
            },
        },
{
    match candidate.validated() {
        Err(_) => {
            proof {
                assert(db@ == old(db)@);
            }
            Err(IngestSkip::UnsupportedUrl)
        },
        Ok(c) => {
            if db.is_track_archived(c.url.as_str()) {
                proof {
                    assert(db@ == old(db)@);
                }
                Err(IngestSkip::AlreadyArchived)
            } else {
                let track_id = db.next_track_id();
                Ok(IngestJob { candidate: c, track_id })
            }
        },
    }
}

/// The finished track record: the allocated id, the canonical URL, the
/// resolved metadata and the archiving date.
pub fn finalize_track(job: IngestJob, date: ArchiveDate) -> (r: Track)
    requires
        job.candidate.title is Some,
    ensures
        r.id == job.track_id,
        r.url == job.candidate.url,
        Some(r.title) == job.candidate.title,
        r.artists == job.candidate.artists,
        r.date_archived == date,
{
    let title = job.candidate.title.unwrap();
    Track::new(job.track_id, job.candidate.url, title, job.candidate.artists, date)
}

/// Commit a finished track to the catalog, provided its id was allocated
/// by this store and the artist id space has room for its artists; a
/// track that fails those machine-limit checks is refused and the store
/// left untouched.
pub fn commit_track(db: &mut Database, track: Track) -> (r: bool)
    requires
        old(db).wf(),
    ensures
        final(db).wf(),
        r == (track.id < old(db)@.next_track_id && old(db)@.next_artist_id + track.artists@.len()
            <= u32::MAX),
        r ==> final(db)@ == apply_insert_one(old(db)@, track),
        !r ==> final(db)@ == old(db)@,
{
    let id_ok = track.id < db.peek_next_track_id();
    let next_artist = db.peek_next_artist_id();
    let room_ok = track.artists.len() <= (u32::MAX - next_artist) as usize;
    if id_ok && room_ok {
        let ghost m0 = db@;
        let ghost t = track;
        let mut batch: Vec<Track> = Vec::new();
        batch.push(track);
        proof {
            assert(batch@ =~= seq![t]);
            assert(batch@.drop_first() =~= Seq::<Track>::empty());
            assert(total_artist_names(Seq::<Track>::empty()) == 0);
            assert(total_artist_names(batch@) == t.artists@.len());
        }
        db.insert_tracks(batch);
        proof {
            assert(seq![t].drop_last() =~= Seq::<Track>::empty());
            assert(seq![t].last() == t);
            assert(apply_insert(m0, seq![t]) == apply_insert_one(apply_insert(m0, Seq::empty()), t));
            assert(db@ == apply_insert_one(m0, t));
        }
        true
    } else {
        proof {
            assert(db@ == old(db)@);
        }
        false
    }
}

/// Submitting two candidates whose URLs canonicalize alike stores exactly
/// one track: once the first is committed, the second is dropped at the
/// worker's deduplication check.
pub proof fn lemma_second_candidate_skipped(m: StoreModel, t: Track, url: Seq<char>)
    requires
        normalize_spec(url) == Some(t.url@),
    ensures
        match normalize_spec(url) {
            Some(c) => tracks_have_url(apply_insert_one(m, t).tracks, c),
            None => false,
        },
{
    lemma_insert_archives(m, t);
}

} // verus!

//! Archived tracks and their derived file names.

use crate::strutil::{join_with, join_with_exec};
use vstd::prelude::*;

verus! {

/// A calendar date, held as plain year, month and day numbers.
#[derive(Clone, Copy, PartialEq, Eq, Structural, Debug)]
pub struct ArchiveDate {
    pub year: i32,
    pub month: u8,
    pub day: u8,
}

/// A durably archived, uniquely identified media item with metadata.
pub struct Track {
    pub id: u32,
    pub url: String,
    pub title: String,
    pub artists: Vec<String>,
    pub date_archived: ArchiveDate,
}

/// What `filenamify` returns on a given string.
pub uninterp spec fn filenamify_of(s: Seq<char>) -> Seq<char>;

/// Relies on filenamify::filenamify: the result is a function of the
/// input string alone, with filesystem-reserved characters and outer
/// periods replaced.
#[verifier::external_body]
fn sanitize_file_name(s: &str) -> (r: String)
    ensures
        r@ == filenamify_of(s@),
{
    filenamify::filenamify(s)
}

/// The unsanitized stem of a track's file name: the artists joined with
/// commas, a dash, the title, and the fixed audio extension.
pub open spec fn file_stem(artists: Seq<Seq<char>>, title: Seq<char>) -> Seq<char> {
    join_with(artists, ", "@) + " - "@ + title + ".m4a"@
}

impl Clone for Track {
    fn clone(&self) -> (r: Track)
        ensures
            r.id == self.id,
            r.url == self.url,
            r.title == self.title,
            r.artists@ == self.artists@,
            r.date_archived == self.date_archived,
    {
        let artists = self.artists.clone();
        proof {
            assert(artists@ =~= self.artists@);
        }
        Track {
            id: self.id,
            url: self.url.clone(),
            title: self.title.clone(),
            artists,
            date_archived: self.date_archived,
        }
    }
}

impl Track {
    /// A track from its parts.
    pub fn new(
        id: u32,
        url: String,
        title: String,
        artists: Vec<String>,
        date_archived: ArchiveDate,
    ) -> (r: Track)
        ensures
            r.id == id,
            r.url == url,
            r.title == title,
            r.artists == artists,
            r.date_archived == date_archived,
    {
        Track { id, url, title, artists, date_archived }
    }

    /// The file name under which this track is stored: its stem made
    /// filesystem-safe. A projection of the track, not independent state.
    pub fn file_name(&self) -> (r: String)
        ensures
            r@ == filenamify_of(file_stem(self.artists.deep_view(), self.title@)),
    {
        let mut stem = join_with_exec(&self.artists, ", ");
        stem.append(" - ");
        stem.append(self.title.as_str());
        stem.append(".m4a");
        sanitize_file_name(stem.as_str())
    }
}

} // verus!

//! Metadata acquisition policy: parsing the downloader tool's delimited
//! metadata line and resolving the final title and artists, with optional
//! best-effort enrichment.

use crate::candidate::Candidate;
use crate::strutil::{split_all, split_all_exec, str_eq, trim_chars, trim_exec};
use vstd::prelude::*;

verus! {

/// Raw metadata as the downloader tool reports it: either structured
/// track fields, or the fallback video fields.
pub enum RawMetadata {
    Track { title: String, artists: Vec<String> },
    Video { title: String, uploader: String },
}

/// The mathematical content of a raw metadata value.
pub ghost enum RawMetadataView {
    Track { title: Seq<char>, artists: Seq<Seq<char>> },
    Video { title: Seq<char>, uploader: Seq<char> },
}

impl View for RawMetadata {
    type V = RawMetadataView;

    open spec fn view(&self) -> RawMetadataView {
        match self {
            RawMetadata::Track { title, artists } => RawMetadataView::Track {
                title: title@,
                artists: artists.deep_view(),
            },
            RawMetadata::Video { title, uploader } => RawMetadataView::Video {
                title: title@,
                uploader: uploader@,
            },
        }
    }
}

/// A field that must not stay empty is replaced by the fixed placeholder.
pub open spec fn placeholder_or(s: Seq<char>) -> Seq<char> {
    if s.len() == 0 {
        "PLACEHOLDER"@
    } else {
        s
    }
}

/// Artist names with the tool's absent-field marker and empty entries
/// dropped, in order.
pub open spec fn keep_artist_names(names: Seq<Seq<char>>) -> Seq<Seq<char>>
    decreases names.len(),
{
    if names.len() == 0 {
        Seq::empty()
    } else {
        let rest = keep_artist_names(names.drop_last());
        if names.last() == "NA"@ || names.last().len() == 0 {
            rest
        } else {
            rest.push(names.last())
        }
    }
}

/// The tool's metadata line parsed: four delimited fields, each trimmed;
/// the artists field split on commas and filtered; a non-empty,
/// non-absent track title selects the structured form with the uploader
/// as fallback artist, anything else the video form; empty title and
/// uploader fields become the placeholder. `None` when fewer than four
/// fields arrive, which breaks the tool's output contract.
pub open spec fn parse_metadata_spec(data: Seq<char>) -> Option<RawMetadataView> {
    let fields = split_all(data, "<<harmony>>"@);
    if fields.len() < 4 {
        None
    } else {
        let track_title = trim_chars(fields[0]);
        let track_artists = keep_artist_names(split_all(trim_chars(fields[1]), ", "@));
        let video_title = trim_chars(fields[2]);
        let video_uploader = trim_chars(fields[3]);
        if track_title.len() > 0 && track_title != "NA"@ {
            let artists = if track_artists.len() > 0 {
                track_artists
            } else {
                seq![placeholder_or(video_uploader)]
            };
            Some(RawMetadataView::Track { title: track_title, artists })
        } else {
            Some(
                RawMetadataView::Video {
                    title: placeholder_or(video_title),
                    uploader: placeholder_or(video_uploader),
                },
            )
        }
    }
}

fn placeholder_or_exec(s: &str) -> (r: String)
    ensures
        r@ == placeholder_or(s@),
{
    if s.unicode_len() == 0 {
        String::from_str("PLACEHOLDER")
    } else {
        s.to_owned()
    }
}

fn keep_names(names: Vec<String>) -> (r: Vec<String>)
    ensures
        r.deep_view() == keep_artist_names(names.deep_view()),
{
    let ghost orig = names.deep_view();
    let mut names = names;
    let mut out: Vec<String> = Vec::new();
    let n = names.len();
    proof {
        assert(orig.skip(0) =~= orig);
        assert(orig.take(0) =~= Seq::<Seq<char>>::empty());
    }
    let mut i: usize = 0;
    while i < n
        invariant
            n == orig.len(),
            0 <= i <= n,
            names@.len() == n - i,
            names.deep_view() =~= orig.skip(i as int),
            out.deep_view() == keep_artist_names(orig.take(i as int)),
        decreases n - i,
    {
        let ghost pre_v = names@;
        let ghost pre_d = names.deep_view();
        let s = names.remove(0);
        proof {
            assert(names@ =~= pre_v.drop_first());
            assert(s == pre_v[0]);
            assert(s@ == pre_d[0]);
            assert(s@ == orig[i as int]);
            assert forall|k: int|
                0 <= k < names@.len() implies names.deep_view()[k] == orig.skip(
                i + 1 as int,
            )[k] by {
                assert(names.deep_view()[k] == names@[k]@);
                assert(names@[k] == pre_v[k + 1]);
                assert(pre_d[k + 1] == pre_v[k + 1]@);
                assert(pre_d[k + 1] == orig.skip(i as int)[k + 1]);
            };
            assert(names.deep_view() =~= orig.skip(i + 1 as int));
            assert(orig.take(i + 1 as int).drop_last() =~= orig.take(i as int));
            assert(orig.take(i + 1 as int).last() == orig[i as int]);
        }
        if s.unicode_len() == 0 || str_eq(s.as_str(), "NA") {
        } else {
            let ghost prev = out.deep_view();
            out.push(s);
            proof {
                assert(out.deep_view() =~= prev.push(s@));
            }
        }
        i += 1;
    }
    proof {
        assert(orig.take(n as int) =~= orig);
    }
    out
}

/// Parse the downloader tool's metadata line, or report that it breaks
/// the tool's output contract.
pub fn parse_metadata_line(data: &str) -> (r: Option<RawMetadata>)
    ensures
        match r {
            Some(m) => parse_metadata_spec(data@) == Some(m@),
            None => parse_metadata_spec(data@) is None,
        },
{
    proof {
        reveal_strlit("<<harmony>>");
        reveal_strlit(", ");
    }
    let fields = split_all_exec(data, "<<harmony>>");
    if fields.len() < 4 {
        return None;
    }
    proof {
        assert(fields.deep_view()[0] == fields@[0]@);
        assert(fields.deep_view()[1] == fields@[1]@);
        assert(fields.deep_view()[2] == fields@[2]@);
        assert(fields.deep_view()[3] == fields@[3]@);
    }
    let track_title = trim_exec(fields[0].as_str());
    let artists_field = trim_exec(fields[1].as_str());
    let video_title = trim_exec(fields[2].as_str());
    let video_uploader = trim_exec(fields[3].as_str());
    let track_artists = keep_names(split_all_exec(artists_field, ", "));
    if track_title.unicode_len() > 0 && !str_eq(track_title, "NA") {
        let artists: Vec<String> = if track_artists.len() > 0 {
            track_artists
        } else {
            let mut v: Vec<String> = Vec::new();
            v.push(placeholder_or_exec(video_uploader));
            proof {
                assert(v.deep_view() =~= seq![placeholder_or(video_uploader@)]);
            }
            v
        };
        Some(RawMetadata::Track { title: track_title.to_owned(), artists })
    } else {
        Some(
            RawMetadata::Video {
                title: placeholder_or_exec(video_title),
                uploader: placeholder_or_exec(video_uploader),
            },
        )
    }
}

/// A best-effort enrichment result: a title and artist list an external
/// collaborator extracted from a video title.
pub struct Enrichment {
    pub title: String,
    pub artists: Vec<String>,
}

/// The mathematical content of an optional enrichment.
pub open spec fn enrichment_view(e: Option<Enrichment>) -> Option<(Seq<char>, Seq<Seq<char>>)> {
    match e {
        Some(en) => Some((en.title@, en.artists.deep_view())),
        None => None,
    }
}

/// The final title and artists: structured track metadata is kept as is;
/// video metadata is replaced by the enrichment when one succeeded, with
/// the uploader as fallback artist when its artist list is empty, and
/// falls back to video title and uploader otherwise.
pub open spec fn resolve_spec(
    raw: RawMetadataView,
    enrich: Option<(Seq<char>, Seq<Seq<char>>)>,
) -> (Seq<char>, Seq<Seq<char>>) {
    match raw {
        RawMetadataView::Track { title, artists } => (title, artists),
        RawMetadataView::Video { title, uploader } => match enrich {
            Some(e) => (
                e.0,
                if e.1.len() > 0 {
                    e.1
                } else {
                    seq![uploader]
                },
            ),
            None => (title, seq![uploader]),
        },
    }
}

/// Fill a candidate's title and artists from the raw metadata and the
/// optional enrichment; its URL is untouched.
pub fn fill_metadata(candidate: &mut Candidate, raw: RawMetadata, enrichment: Option<Enrichment>)
    ensures
        final(candidate).url == old(candidate).url,
        final(candidate).title matches Some(t) && t@ == resolve_spec(
            raw@,
            enrichment_view(enrichment),
        ).0,
        final(candidate).artists.deep_view() == resolve_spec(raw@, enrichment_view(enrichment)).1,
{
    match raw {
        RawMetadata::Track { title, artists } => {
            candidate.title = Some(title);
            candidate.artists = artists;
        },
        RawMetadata::Video { title, uploader } => match enrichment {
            Some(e) => {
                candidate.title = Some(e.title);
                if e.artists.len() > 0 {
                    candidate.artists = e.artists;
                } else {
                    let mut v: Vec<String> = Vec::new();
                    v.push(uploader);
                    proof {
                        assert(v.deep_view() =~= resolve_spec(
                            raw@,
                            enrichment_view(enrichment),
                        ).1);
                    }
                    candidate.artists = v;
                }
            },
            None => {
                candidate.title = Some(title);
                let mut v: Vec<String> = Vec::new();
                v.push(uploader);
                proof {
                    assert(v.deep_view() =~= resolve_spec(raw@, enrichment_view(enrichment)).1);
                }
                candidate.artists = v;
            },
        },
    }
}

} // verus!

//! Submitted media candidates and URL canonicalization.
//!
//! A candidate is a user-submitted media reference. Validation normalizes
//! its URL into the canonical form that serves as the catalog's
//! deduplication key, and rejects unsupported sources.

use crate::strutil::{
    cut_at, cut_at_exec, find_sub, is_space_char, lemma_find_sub, starts_with, starts_with_exec,
    strip_all_prefix, strip_all_prefix_exec, trim_back, trim_chars, trim_exec, trim_front,
};
use vstd::prelude::*;

verus! {

/// A user-submitted, not-yet-archived media reference.
pub struct Candidate {
    pub url: String,
    pub title: Option<String>,
    pub artists: Vec<String>,
}

/// Why a candidate was rejected at validation.
#[derive(Debug, Clone, Copy, PartialEq, Eq, Structural)]
pub enum ValidationError {
    /// The URL matches no supported source pattern, or its id segment is
    /// missing or empty.
    UnsupportedSource,
}

/// The canonical form of a submitted URL, if it is supported.
///
/// The URL is trimmed, every leading scheme (`https://` then `http://`)
/// and `www.` repetition is stripped, and the two supported patterns are
/// tried: `youtu.be/<id>` (query dropped) and `youtube.com/watch?v=<id>`
/// (further parameters dropped), both canonicalized to `youtu.be/<id>`.
/// An empty id or any other pattern is unsupported.
pub open spec fn normalize_spec(url: Seq<char>) -> Option<Seq<char>> {
    let stripped = strip_all_prefix(
        strip_all_prefix(strip_all_prefix(trim_chars(url), "https://"@), "http://"@),
        "www."@,
    );
    if starts_with(stripped, "youtu.be/"@) {
        let id = cut_at(strip_all_prefix(stripped, "youtu.be/"@), "?"@);
        if id.len() == 0 {
            None
        } else {
            Some("youtu.be/"@ + id)
        }
    } else if starts_with(stripped, "youtube.com/watch?v="@) {
        let id = cut_at(strip_all_prefix(stripped, "youtube.com/watch?v="@), "&"@);
        if id.len() == 0 {
            None
        } else {
            Some("youtu.be/"@ + id)
        }
    } else {
        None
    }
}

/// Canonicalize a submitted URL, or report that it is unsupported.
pub fn normalize_and_validate_url(url: &str) -> (r: Option<String>)
    ensures
        match r {
            Some(s) => normalize_spec(url@) == Some(s@),
            None => normalize_spec(url@) is None,
        },
{
    proof {
        reveal_strlit("https://");
        reveal_strlit("http://");
        reveal_strlit("www.");
        reveal_strlit("youtu.be/");
        reveal_strlit("youtube.com/watch?v=");
        reveal_strlit("?");
        reveal_strlit("&");
    }
    let trimmed = trim_exec(url);
    let stripped = strip_all_prefix_exec(
        strip_all_prefix_exec(strip_all_prefix_exec(trimmed, "https://"), "http://"),
        "www.",
    );
    if starts_with_exec(stripped, "youtu.be/") {
        let id = cut_at_exec(strip_all_prefix_exec(stripped, "youtu.be/"), "?");
        if id.unicode_len() == 0 {
            None
        } else {
            let mut s = String::from_str("youtu.be/");
            s.append(id);
            Some(s)
        }
    } else if starts_with_exec(stripped, "youtube.com/watch?v=") {
        let id = cut_at_exec(strip_all_prefix_exec(stripped, "youtube.com/watch?v="), "&");
        if id.unicode_len() == 0 {
            None
        } else {
            let mut s = String::from_str("youtu.be/");
            s.append(id);
            Some(s)
        }
    } else {
        None
    }
}

impl Candidate {
    /// Validate this candidate: canonicalize its URL, keeping title and
    /// artists, or reject it as unsupported.
    pub fn validated(self) -> (r: Result<Candidate, ValidationError>)
        ensures
            match r {
                Ok(c) => {
                    &&& normalize_spec(self.url@) == Some(c.url@)
                    &&& c.title == self.title
                    &&& c.artists == self.artists
                },
                Err(e) => {
                    &&& normalize_spec(self.url@) is None
                    &&& e == ValidationError::UnsupportedSource
                },
            },
    {
        match normalize_and_validate_url(self.url.as_str()) {
            Some(u) => Ok(Candidate { url: u, title: self.title, artists: self.artists }),
            None => Err(ValidationError::UnsupportedSource),
        }
    }
}

/// Validation is idempotent on its canonical results: a canonical URL
/// `youtu.be/<id>` validates to itself, provided the id holds no `?`
/// (possible only through a `watch?v=` query that itself holds `?`), does
/// not itself restate the `youtu.be/` prefix, and does not end in
/// whitespace (possible only when a `?` cut leaves a space at the end).
pub proof fn lemma_validate_idempotent(url: Seq<char>, id: Seq<char>)
    requires
        normalize_spec(url) == Some("youtu.be/"@ + id),
        forall|j: int| 0 <= j < id.len() ==> id[j] != '?',
        !starts_with(id, "youtu.be/"@),
        id.len() == 0 || !is_space_char(id[id.len() - 1]),
    ensures
        normalize_spec("youtu.be/"@ + id) == Some("youtu.be/"@ + id),
{
    reveal_strlit("https://");
    reveal_strlit("http://");
    reveal_strlit("www.");
    reveal_strlit("youtu.be/");
    reveal_strlit("youtube.com/watch?v=");
    reveal_strlit("?");

    // The validated id is non-empty, and equals `id` by prefix cancellation.
    let c = "youtu.be/"@ + id;
    match normalize_spec(url) {
        Some(out) => {
            let stripped = strip_all_prefix(
                strip_all_prefix(strip_all_prefix(trim_chars(url), "https://"@), "http://"@),
                "www."@,
            );
            if starts_with(stripped, "youtu.be/"@) {
                let vid = cut_at(strip_all_prefix(stripped, "youtu.be/"@), "?"@);
                assert(vid.len() > 0);
                assert("youtu.be/"@ + id == "youtu.be/"@ + vid);
                assert forall|j: int| 0 <= j < id.len() implies id[j] == vid[j] by {
                    assert(("youtu.be/"@ + id)[9 + j] == id[j]);
                    assert(("youtu.be/"@ + vid)[9 + j] == vid[j]);
                };
                assert(id =~= vid);
            } else {
                let vid = cut_at(strip_all_prefix(stripped, "youtube.com/watch?v="@), "&"@);
                assert(vid.len() > 0);
                assert("youtu.be/"@ + id == "youtu.be/"@ + vid);
                assert forall|j: int| 0 <= j < id.len() implies id[j] == vid[j] by {
                    assert(("youtu.be/"@ + id)[9 + j] == id[j]);
                    assert(("youtu.be/"@ + vid)[9 + j] == vid[j]);
                };
                assert(id =~= vid);
            }
        },
        None => {
            assert(false);
        },
    }
    assert(id.len() > 0);

    // No whitespace is trimmed from the canonical form.
    assert(c[0] == 'y');
    assert(!is_space_char(c[0]));
    assert(trim_front(c) == c);
    assert(c.last() == id[id.len() - 1]);
    assert(!is_space_char(c.last()));
    assert(trim_back(c) == c);

    // No scheme or `www.` prefix matches the canonical form.
    assert(!starts_with(c, "https://"@)) by {
        if starts_with(c, "https://"@) {
            assert(c.subrange(0, 8)[0] == 'h');
        }
    };
    assert(!starts_with(c, "http://"@)) by {
        if starts_with(c, "http://"@) {
            assert(c.subrange(0, 7)[0] == 'h');
        }
    };
    assert(!starts_with(c, "www."@)) by {
        if starts_with(c, "www."@) {
            assert(c.subrange(0, 4)[0] == 'w');
        }
    };
    assert(strip_all_prefix(c, "https://"@) == c);
    assert(strip_all_prefix(c, "http://"@) == c);
    assert(strip_all_prefix(c, "www."@) == c);

    // The `youtu.be/` pattern matches exactly once, leaving the id.
    assert(starts_with(c, "youtu.be/"@)) by {
        assert(c.subrange(0, 9) =~= "youtu.be/"@);
    };
    assert(c.skip(9) =~= id);
    assert(strip_all_prefix(c, "youtu.be/"@) == strip_all_prefix(id, "youtu.be/"@));
    assert(strip_all_prefix(id, "youtu.be/"@) == id);

    // The id holds no `?`, so nothing is cut from it.
    lemma_find_sub(id, "?"@);
    match find_sub(id, "?"@) {
        Some(i) => {
            assert(id.subrange(i as int, i + 1 as int) == "?"@);
            assert(id.subrange(i as int, i + 1 as int)[0] == id[i as int]);
            assert(false);
        },
        None => {},
    }
    assert(cut_at(id, "?"@) == id);
}

} // verus!

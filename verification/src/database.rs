//! The track store: a transactional catalog of tracks, artists and
//! track-artist links, with unique, monotonically assigned ids,
//! deduplication by canonical URL, and case-insensitive artist reuse.
//!
//! The store owns its relations in memory; durable storage mirrors them
//! outside the library. The caller serializes access, as the store itself
//! performs no locking across calls.

use crate::strutil::eq_nocase;
use crate::strutil::eq_nocase_exec;
use crate::strutil::fold_chars;
use crate::strutil::str_eq;
use crate::track::Track;
use vstd::prelude::*;

verus! {

/// The mathematical content of the store: the three relations and the two
/// id counters.
#[verifier::ext_equal]
pub ghost struct StoreModel {
    pub tracks: Seq<Track>,
    pub artists: Seq<(u32, Seq<char>)>,
    pub links: Seq<(u32, u32)>,
    pub next_track_id: u32,
    pub next_artist_id: u32,
}

/// Store invariants: tracks sorted by unique id below the track counter;
/// artists sorted by unique id below the artist counter, with names unique
/// up to ASCII case; links pairwise distinct, each pointing below the
/// artist counter.
pub open spec fn store_wf(m: StoreModel) -> bool {
    &&& (forall|i: int, j: int|
        0 <= i < j < m.tracks.len() ==> m.tracks[i].id < m.tracks[j].id)
    &&& (forall|i: int| 0 <= i < m.tracks.len() ==> m.tracks[i].id < m.next_track_id)
    &&& m.next_track_id >= 1
    &&& (forall|i: int, j: int|
        0 <= i < j < m.artists.len() ==> m.artists[i].0 < m.artists[j].0)
    &&& (forall|i: int| 0 <= i < m.artists.len() ==> m.artists[i].0 < m.next_artist_id)
    &&& m.next_artist_id >= 1
    &&& (forall|i: int, j: int|
        0 <= i < j < m.artists.len() ==> !eq_nocase(m.artists[i].1, m.artists[j].1))
    &&& (forall|i: int, j: int| 0 <= i < j < m.links.len() ==> m.links[i] != m.links[j])
    &&& (forall|i: int| 0 <= i < m.links.len() ==> (#[trigger] m.links[i]).1 < m.next_artist_id)
}

/// Well-formedness carries over to a model with the same rows and counters
/// at least as large.
proof fn lemma_wf_same_rows(m0: StoreModel, m1: StoreModel)
    requires
        store_wf(m0),
        m1.tracks == m0.tracks,
        m1.artists == m0.artists,
        m1.links == m0.links,
        m1.next_track_id >= m0.next_track_id,
        m1.next_artist_id >= m0.next_artist_id,
    ensures
        store_wf(m1),
{
    assert forall|i: int, j: int|
        0 <= i < j < m1.tracks.len() implies m1.tracks[i].id < m1.tracks[j].id by {
        assert(m0.tracks[i].id < m0.tracks[j].id);
    };
    assert forall|i: int| 0 <= i < m1.tracks.len() implies m1.tracks[i].id < m1.next_track_id by {
        assert(m0.tracks[i].id < m0.next_track_id);
    };
    assert forall|i: int, j: int|
        0 <= i < j < m1.artists.len() implies m1.artists[i].0 < m1.artists[j].0 && !eq_nocase(
            m1.artists[i].1,
            m1.artists[j].1,
        ) by {
        assert(m0.artists[i].0 < m0.artists[j].0);
        assert(!eq_nocase(m0.artists[i].1, m0.artists[j].1));
    };
    assert forall|i: int|
        0 <= i < m1.artists.len() implies m1.artists[i].0 < m1.next_artist_id by {
        assert(m0.artists[i].0 < m0.next_artist_id);
    };
    assert forall|i: int, j: int|
        0 <= i < j < m1.links.len() implies m1.links[i] != m1.links[j] by {
        assert(m0.links[i] != m0.links[j]);
    };
    assert forall|i: int| 0 <= i < m1.links.len() implies m1.links[i].1 < m1.next_artist_id by {
        assert(m0.links[i].1 < m0.next_artist_id);
    };
}

/// Well-formedness carries over to a model that changed only its track
/// rows, provided the new rows are sorted below the track counter.
proof fn lemma_wf_new_tracks(m0: StoreModel, m1: StoreModel)
    requires
        store_wf(m0),
        m1.artists == m0.artists,
        m1.links == m0.links,
        m1.next_track_id == m0.next_track_id,
        m1.next_artist_id == m0.next_artist_id,
        forall|i: int, j: int| 0 <= i < j < m1.tracks.len() ==> m1.tracks[i].id < m1.tracks[j].id,
        forall|i: int| 0 <= i < m1.tracks.len() ==> m1.tracks[i].id < m1.next_track_id,
    ensures
        store_wf(m1),
{
    assert forall|i: int, j: int|
        0 <= i < j < m1.artists.len() implies m1.artists[i].0 < m1.artists[j].0 && !eq_nocase(
            m1.artists[i].1,
            m1.artists[j].1,
        ) by {
        assert(m0.artists[i].0 < m0.artists[j].0);
        assert(!eq_nocase(m0.artists[i].1, m0.artists[j].1));
    };
    assert forall|i: int|
        0 <= i < m1.artists.len() implies m1.artists[i].0 < m1.next_artist_id by {
        assert(m0.artists[i].0 < m0.next_artist_id);
    };
    assert forall|i: int, j: int|
        0 <= i < j < m1.links.len() implies m1.links[i] != m1.links[j] by {
        assert(m0.links[i] != m0.links[j]);
    };
    assert forall|i: int| 0 <= i < m1.links.len() implies m1.links[i].1 < m1.next_artist_id by {
        assert(m0.links[i].1 < m0.next_artist_id);
    };
}

/// Well-formedness carries over to a model that changed only its links,
/// provided the new links are pairwise distinct and point below the
/// artist counter.
proof fn lemma_wf_new_links(m0: StoreModel, m1: StoreModel)
    requires
        store_wf(m0),
        m1.tracks == m0.tracks,
        m1.artists == m0.artists,
        m1.next_track_id == m0.next_track_id,
        m1.next_artist_id == m0.next_artist_id,
        forall|i: int, j: int| 0 <= i < j < m1.links.len() ==> m1.links[i] != m1.links[j],
        forall|i: int| 0 <= i < m1.links.len() ==> (#[trigger] m1.links[i]).1 < m1.next_artist_id,
    ensures
        store_wf(m1),
{
    assert forall|i: int, j: int|
        0 <= i < j < m1.tracks.len() implies m1.tracks[i].id < m1.tracks[j].id by {
        assert(m0.tracks[i].id < m0.tracks[j].id);
    };
    assert forall|i: int| 0 <= i < m1.tracks.len() implies m1.tracks[i].id < m1.next_track_id by {
        assert(m0.tracks[i].id < m0.next_track_id);
    };
    assert forall|i: int, j: int|
        0 <= i < j < m1.artists.len() implies m1.artists[i].0 < m1.artists[j].0 && !eq_nocase(
            m1.artists[i].1,
            m1.artists[j].1,
        ) by {
        assert(m0.artists[i].0 < m0.artists[j].0);
        assert(!eq_nocase(m0.artists[i].1, m0.artists[j].1));
    };
    assert forall|i: int|
        0 <= i < m1.artists.len() implies m1.artists[i].0 < m1.next_artist_id by {
        assert(m0.artists[i].0 < m0.next_artist_id);
    };
}

/// Some track carries this canonical URL.
pub open spec fn tracks_have_url(ts: Seq<Track>, url: Seq<char>) -> bool {
    exists|i: int| 0 <= i < ts.len() && ts[i].url@ == url
}

/// The id of the first artist whose name matches `name` up to ASCII case.
pub open spec fn find_artist_nocase(ars: Seq<(u32, Seq<char>)>, name: Seq<char>) -> Option<u32>
    decreases ars.len(),
{
    if ars.len() == 0 {
        None
    } else if eq_nocase(ars[0].1, name) {
        Some(ars[0].0)
    } else {
        find_artist_nocase(ars.drop_first(), name)
    }
}

/// `find_artist_nocase` returns the first case-insensitive match, and
/// `None` only when no row matches.
pub proof fn lemma_find_artist(ars: Seq<(u32, Seq<char>)>, name: Seq<char>)
    ensures
        match find_artist_nocase(ars, name) {
            Some(id) => exists|k: int|
                0 <= k < ars.len() && eq_nocase(ars[k].1, name) && id == ars[k].0 && (forall|j: int|
                    0 <= j < k ==> !eq_nocase(ars[j].1, name)),
            None => forall|j: int| 0 <= j < ars.len() ==> !eq_nocase(ars[j].1, name),
        },
    decreases ars.len(),
{
    if ars.len() == 0 {
    } else if eq_nocase(ars[0].1, name) {
        let k: int = 0;
        assert(0 <= k < ars.len() && eq_nocase(ars[k].1, name) && find_artist_nocase(ars, name)
            == Some(ars[k].0) && (forall|j: int| 0 <= j < k ==> !eq_nocase(ars[j].1, name)));
    } else {
        lemma_find_artist(ars.drop_first(), name);
        match find_artist_nocase(ars.drop_first(), name) {
            Some(id) => {
                let k = choose|k: int|
                    0 <= k < ars.drop_first().len() && eq_nocase(ars.drop_first()[k].1, name) && id
                        == ars.drop_first()[k].0 && (forall|j: int|
                        0 <= j < k ==> !eq_nocase(ars.drop_first()[j].1, name));
                assert(ars.drop_first()[k] == ars[k + 1]);
                assert(0 <= k + 1 < ars.len() && eq_nocase(ars[k + 1].1, name) && id == ars[k
                    + 1].0);
                assert forall|j: int| 0 <= j < k + 1 implies !eq_nocase(ars[j].1, name) by {
                    if j > 0 {
                        assert(ars.drop_first()[j - 1] == ars[j]);
                    }
                };
            },
            None => {
                assert forall|j: int| 0 <= j < ars.len() implies !eq_nocase(ars[j].1, name) by {
                    if j > 0 {
                        assert(ars.drop_first()[j - 1] == ars[j]);
                    }
                };
            },
        }
    }
}

/// Register an artist name: reuse the first case-insensitive match, or
/// append a new row under the next id. Returns the new rows, the new next
/// id, and the id the name maps to.
pub open spec fn register_artist(
    ars: Seq<(u32, Seq<char>)>,
    next: u32,
    name: Seq<char>,
) -> (Seq<(u32, Seq<char>)>, u32, u32) {
    match find_artist_nocase(ars, name) {
        Some(id) => (ars, next, id),
        None => (ars.push((next, name)), ((next + 1) as u32), next),
    }
}

/// Insert or replace a track row by id, keeping the rows sorted by id.
pub open spec fn upsert_track(ts: Seq<Track>, t: Track) -> Seq<Track>
    decreases ts.len(),
{
    if ts.len() == 0 {
        seq![t]
    } else if ts[0].id == t.id {
        seq![t] + ts.drop_first()
    } else if t.id < ts[0].id {
        seq![t] + ts
    } else {
        seq![ts[0]] + upsert_track(ts.drop_first(), t)
    }
}

/// `upsert_track` replaces the row at the position of an equal id, and
/// inserts at the sort position otherwise.
proof fn lemma_upsert_at(ts: Seq<Track>, t: Track, k: int)
    requires
        0 <= k <= ts.len(),
        forall|j: int| 0 <= j < k ==> ts[j].id < t.id,
        k == ts.len() || ts[k].id >= t.id,
    ensures
        upsert_track(ts, t) == if k < ts.len() && ts[k].id == t.id {
            ts.update(k, t)
        } else {
            ts.insert(k, t)
        },
    decreases ts.len(),
{
    if k == 0 {
        if ts.len() == 0 {
            assert(seq![t] =~= ts.insert(0, t));
        } else if ts[0].id == t.id {
            assert(seq![t] + ts.drop_first() =~= ts.update(0, t));
        } else {
            assert(seq![t] + ts =~= ts.insert(0, t));
        }
    } else {
        assert(ts[0].id < t.id);
        lemma_upsert_at(ts.drop_first(), t, k - 1);
        if k < ts.len() && ts[k].id == t.id {
            assert(ts.drop_first()[k - 1] == ts[k]);
            assert(seq![ts[0]] + ts.drop_first().update(k - 1, t) =~= ts.update(k, t));
        } else {
            assert(seq![ts[0]] + ts.drop_first().insert(k - 1, t) =~= ts.insert(k, t));
        }
    }
}

/// Add a link unless it is already present: a duplicate link insert is a
/// no-op, not an error.
pub open spec fn add_link(ls: Seq<(u32, u32)>, l: (u32, u32)) -> Seq<(u32, u32)> {
    if ls.contains(l) {
        ls
    } else {
        ls.push(l)
    }
}

/// Register all of a track's artist names in order, linking each to the
/// track. Returns the new artist rows, the new next artist id, and the new
/// links.
pub open spec fn register_track_artists(
    ars: Seq<(u32, Seq<char>)>,
    next: u32,
    ls: Seq<(u32, u32)>,
    tid: u32,
    names: Seq<Seq<char>>,
) -> (Seq<(u32, Seq<char>)>, u32, Seq<(u32, u32)>)
    decreases names.len(),
{
    if names.len() == 0 {
        (ars, next, ls)
    } else {
        let step = register_artist(ars, next, names[0]);
        register_track_artists(step.0, step.1, add_link(ls, (tid, step.2)), tid, names.drop_first())
    }
}

/// One track upsert: the row replaced or inserted, the track's artists
/// registered, and each linked to it.
pub open spec fn apply_insert_one(m: StoreModel, t: Track) -> StoreModel {
    let reg = register_track_artists(m.artists, m.next_artist_id, m.links, t.id, t.artists.deep_view());
    StoreModel {
        tracks: upsert_track(m.tracks, t),
        artists: reg.0,
        links: reg.2,
        next_track_id: m.next_track_id,
        next_artist_id: reg.1,
    }
}

/// Upsert a sequence of tracks, in order.
pub open spec fn apply_insert(m: StoreModel, ts: Seq<Track>) -> StoreModel
    decreases ts.len(),
{
    if ts.len() == 0 {
        m
    } else {
        apply_insert_one(apply_insert(m, ts.drop_last()), ts.last())
    }
}

/// The number of artist names across the tracks.
pub open spec fn total_artist_names(ts: Seq<Track>) -> int
    decreases ts.len(),
{
    if ts.len() == 0 {
        0
    } else {
        ts[0].artists.len() + total_artist_names(ts.drop_first())
    }
}

/// The name stored under artist id `aid`, if any.
pub open spec fn lookup_artist(ars: Seq<(u32, Seq<char>)>, aid: u32) -> Option<Seq<char>>
    decreases ars.len(),
{
    if ars.len() == 0 {
        None
    } else if ars[0].0 == aid {
        Some(ars[0].1)
    } else {
        lookup_artist(ars.drop_first(), aid)
    }
}

/// The names of the artists linked to track `tid`, in stored link order.
pub open spec fn artists_of(
    ls: Seq<(u32, u32)>,
    ars: Seq<(u32, Seq<char>)>,
    tid: u32,
) -> Seq<Seq<char>>
    decreases ls.len(),
{
    if ls.len() == 0 {
        Seq::empty()
    } else {
        let rest = artists_of(ls.drop_last(), ars, tid);
        if ls.last().0 == tid {
            match lookup_artist(ars, ls.last().1) {
                Some(n) => rest.push(n),
                None => rest,
            }
        } else {
            rest
        }
    }
}

/// The tracks whose ids are not in `ids`, in their stored order.
pub open spec fn remove_tracks_model(ts: Seq<Track>, ids: Seq<u32>) -> Seq<Track>
    decreases ts.len(),
{
    if ts.len() == 0 {
        Seq::empty()
    } else {
        let rest = remove_tracks_model(ts.drop_last(), ids);
        if ids.contains(ts.last().id) {
            rest
        } else {
            rest.push(ts.last())
        }
    }
}

/// The links whose track ids are not in `ids`, in their stored order.
pub open spec fn remove_links_model(ls: Seq<(u32, u32)>, ids: Seq<u32>) -> Seq<(u32, u32)>
    decreases ls.len(),
{
    if ls.len() == 0 {
        Seq::empty()
    } else {
        let rest = remove_links_model(ls.drop_last(), ids);
        if ids.contains(ls.last().0) {
            rest
        } else {
            rest.push(ls.last())
        }
    }
}

proof fn lemma_remove_tracks_wf(ts: Seq<Track>, ids: Seq<u32>)
    ensures
        remove_tracks_model(ts, ids).len() <= ts.len(),
        forall|k: int| #![auto]
            0 <= k < remove_tracks_model(ts, ids).len() ==> ts.contains(
                remove_tracks_model(ts, ids)[k],
            ),
        (forall|i: int, j: int| 0 <= i < j < ts.len() ==> ts[i].id < ts[j].id)
            ==> (forall|i: int, j: int|
            0 <= i < j < remove_tracks_model(ts, ids).len() ==> remove_tracks_model(ts, ids)[i].id
                < remove_tracks_model(ts, ids)[j].id),
    decreases ts.len(),
{
    if ts.len() > 0 {
        lemma_remove_tracks_wf(ts.drop_last(), ids);
        let rest = remove_tracks_model(ts.drop_last(), ids);
        assert forall|k: int| #![auto]
            0 <= k < rest.len() implies ts.contains(rest[k]) by {
            assert(ts.drop_last().contains(rest[k]));
            let j = choose|j: int| 0 <= j < ts.drop_last().len() && ts.drop_last()[j] == rest[k];
            assert(ts[j] == rest[k]);
        };
        if forall|i: int, j: int| 0 <= i < j < ts.len() ==> ts[i].id < ts[j].id {
            assert(forall|i: int, j: int|
                0 <= i < j < ts.drop_last().len() ==> ts.drop_last()[i].id
                    < ts.drop_last()[j].id);
            if !ids.contains(ts.last().id) {
                let r = remove_tracks_model(ts, ids);
                assert forall|i: int, j: int| 0 <= i < j < r.len() implies r[i].id < r[j].id by {
                    if j == r.len() - 1 {
                        assert(r[j] == ts.last());
                        assert(ts.drop_last().contains(rest[i]));
                        let w = choose|w: int|
                            0 <= w < ts.drop_last().len() && ts.drop_last()[w] == rest[i];
                        assert(ts[w].id < ts.last().id);
                    }
                };
            }
        }
    }
}

proof fn lemma_remove_links_wf(ls: Seq<(u32, u32)>, ids: Seq<u32>)
    requires
        forall|i: int, j: int| 0 <= i < j < ls.len() ==> ls[i] != ls[j],
    ensures
        forall|k: int| #![auto]
            0 <= k < remove_links_model(ls, ids).len() ==> ls.contains(
                remove_links_model(ls, ids)[k],
            ),
        forall|i: int, j: int|
            0 <= i < j < remove_links_model(ls, ids).len() ==> remove_links_model(ls, ids)[i]
                != remove_links_model(ls, ids)[j],
    decreases ls.len(),
{
    if ls.len() > 0 {
        assert(forall|i: int, j: int|
            0 <= i < j < ls.drop_last().len() ==> ls.drop_last()[i] != ls.drop_last()[j]);
        lemma_remove_links_wf(ls.drop_last(), ids);
        let rest = remove_links_model(ls.drop_last(), ids);
        assert forall|k: int| #![auto]
            0 <= k < rest.len() implies ls.contains(rest[k]) by {
            assert(ls.drop_last().contains(rest[k]));
            let j = choose|j: int| 0 <= j < ls.drop_last().len() && ls.drop_last()[j] == rest[k];
            assert(ls[j] == rest[k]);
        };
        if !ids.contains(ls.last().0) {
            let r = remove_links_model(ls, ids);
            assert forall|i: int, j: int| 0 <= i < j < r.len() implies r[i] != r[j] by {
                if j == r.len() - 1 {
                    assert(r[j] == ls.last());
                    assert(ls.drop_last().contains(rest[i]));
                    let w = choose|w: int|
                        0 <= w < ls.drop_last().len() && ls.drop_last()[w] == rest[i];
                    assert(ls[w] != ls.last());
                }
            };
        }
    }
}

/// Whether `x` occurs in `ids`.
fn contains_id(ids: &Vec<u32>, x: u32) -> (r: bool)
    ensures
        r == ids@.contains(x),
{
    let n = ids.len();
    let mut i: usize = 0;
    while i < n
        invariant
            n == ids.len(),
            0 <= i <= n,
            forall|j: int| 0 <= j < i ==> ids@[j] != x,
        decreases n - i,
    {
        if ids[i] == x {
            return true;
        }
        i += 1;
    }
    false
}

/// The store.
pub struct Database {
    tracks: Vec<Track>,
    artists: Vec<ArtistRow>,
    links: Vec<(u32, u32)>,
    next_track_id: u32,
    next_artist_id: u32,
}

/// A stored artist row.
pub struct ArtistRow {
    pub id: u32,
    pub name: String,
}

/// The model of a stored artist row list.
pub open spec fn artists_model(rows: Seq<ArtistRow>) -> Seq<(u32, Seq<char>)> {
    rows.map_values(|r: ArtistRow| (r.id, r.name@))
}

impl View for Database {
    type V = StoreModel;

    closed spec fn view(&self) -> StoreModel {
        StoreModel {
            tracks: self.tracks@,
            artists: artists_model(self.artists@),
            links: self.links@,
            next_track_id: self.next_track_id,
            next_artist_id: self.next_artist_id,
        }
    }
}

impl Database {
    /// The store's invariants hold.
    pub open spec fn wf(&self) -> bool {
        store_wf(self@)
    }

    /// An empty store: no rows, both counters at their initial value.
    pub fn new() -> (r: Database)
        ensures
            r.wf(),
            r@.tracks == Seq::<Track>::empty(),
            r@.artists == Seq::<(u32, Seq<char>)>::empty(),
            r@.links == Seq::<(u32, u32)>::empty(),
            r@.next_track_id == 1,
            r@.next_artist_id == 1,
    {
        let db = Database {
            tracks: Vec::new(),
            artists: Vec::new(),
            links: Vec::new(),
            next_track_id: 1,
            next_artist_id: 1,
        };
        proof {
            assert(db@.artists =~= Seq::<(u32, Seq<char>)>::empty());
        }
        db
    }

    /// A fresh track id: strictly increasing, never repeated for the
    /// lifetime of the store.
    pub fn next_track_id(&mut self) -> (r: u32)
        requires
            old(self).wf(),
            old(self)@.next_track_id < u32::MAX,
        ensures
            final(self).wf(),
            r == old(self)@.next_track_id,
            final(self)@.next_track_id == r + 1,
            final(self)@.tracks == old(self)@.tracks,
            final(self)@.artists == old(self)@.artists,
            final(self)@.links == old(self)@.links,
            final(self)@.next_artist_id == old(self)@.next_artist_id,
    {
        let r = self.next_track_id;
        self.next_track_id = self.next_track_id + 1;
        proof {
            assert(self@.tracks == old(self)@.tracks);
            assert(self@.artists == old(self)@.artists);
            assert(self@.links == old(self)@.links);
            assert(store_wf(old(self)@));
            assert forall|i: int| 0 <= i < self@.tracks.len() implies self@.tracks[i].id
                < self@.next_track_id by {
                assert(old(self)@.tracks[i].id < old(self)@.next_track_id);
            };
            assert(store_wf(self@));
        }
        r
    }

    /// A fresh artist id: strictly increasing, never repeated.
    pub fn next_artist_id(&mut self) -> (r: u32)
        requires
            old(self).wf(),
            old(self)@.next_artist_id < u32::MAX,
        ensures
            final(self).wf(),
            r == old(self)@.next_artist_id,
            final(self)@.next_artist_id == r + 1,
            final(self)@.tracks == old(self)@.tracks,
            final(self)@.artists == old(self)@.artists,
            final(self)@.links == old(self)@.links,
            final(self)@.next_track_id == old(self)@.next_track_id,
    {
        let r = self.next_artist_id;
        self.next_artist_id = self.next_artist_id + 1;
        proof {
            assert(self@.tracks == old(self)@.tracks);
            assert(self@.artists == old(self)@.artists);
            assert(self@.links == old(self)@.links);
            assert(store_wf(old(self)@));
            assert forall|i: int| 0 <= i < self@.artists.len() implies self@.artists[i].0
                < self@.next_artist_id by {
                assert(old(self)@.artists[i].0 < old(self)@.next_artist_id);
            };
            assert(store_wf(self@));
        }
        r
    }

    /// Whether a track with this canonical URL is already archived.
    pub fn is_track_archived(&self, url: &str) -> (r: bool)
        ensures
            r == tracks_have_url(self@.tracks, url@),
    {
        let n = self.tracks.len();
        let mut i: usize = 0;
        while i < n
            invariant
                n == self.tracks.len(),
                0 <= i <= n,
                forall|j: int| 0 <= j < i ==> self.tracks@[j].url@ != url@,
            decreases n - i,
        {
            if str_eq(self.tracks[i].url.as_str(), url) {
                return true;
            }
            i += 1;
        }
        false
    }

    /// The id of the stored artist matching `artist` up to ASCII case, if
    /// one exists.
    pub fn artist_id(&self, artist: &str) -> (r: Option<u32>)
        ensures
            r == find_artist_nocase(self@.artists, artist@),
    {
        proof {
            lemma_find_artist(self@.artists, artist@);
        }
        let n = self.artists.len();
        let mut i: usize = 0;
        while i < n
            invariant
                n == self.artists.len(),
                0 <= i <= n,
                forall|j: int| 0 <= j < i ==> !eq_nocase(artists_model(self.artists@)[j].1, artist@),
                match find_artist_nocase(artists_model(self.artists@), artist@) {
                    Some(id) => exists|k: int|
                        0 <= k < self.artists@.len() && eq_nocase(
                            artists_model(self.artists@)[k].1,
                            artist@,
                        ) && id == artists_model(self.artists@)[k].0 && (forall|j: int|
                            0 <= j < k ==> !eq_nocase(artists_model(self.artists@)[j].1, artist@)),
                    None => forall|j: int|
                        0 <= j < self.artists@.len() ==> !eq_nocase(
                            artists_model(self.artists@)[j].1,
                            artist@,
                        ),
                },
            decreases n - i,
        {
            if eq_nocase_exec(self.artists[i].name.as_str(), artist) {
                proof {
                    assert(eq_nocase(artists_model(self.artists@)[i as int].1, artist@));
                }
                return Some(self.artists[i].id);
            }
            i += 1;
        }
        None
    }

    /// Register `artist`, reusing the id of a case-insensitive match when
    /// one is stored, and creating a new row under a fresh id otherwise.
    pub fn insert_artist(&mut self, artist: &str) -> (r: u32)
        requires
            old(self).wf(),
            old(self)@.next_artist_id < u32::MAX,
        ensures
            final(self).wf(),
            (final(self)@.artists, final(self)@.next_artist_id, r) == register_artist(
                old(self)@.artists,
                old(self)@.next_artist_id,
                artist@,
            ),
            r < final(self)@.next_artist_id,
            final(self)@.tracks == old(self)@.tracks,
            final(self)@.links == old(self)@.links,
            final(self)@.next_track_id == old(self)@.next_track_id,
    {
        match self.artist_id(artist) {
            Some(id) => {
                proof {
                    lemma_find_artist(self@.artists, artist@);
                    let k = choose|k: int|
                        0 <= k < self@.artists.len() && eq_nocase(self@.artists[k].1, artist@) && id
                            == self@.artists[k].0 && (forall|j: int|
                            0 <= j < k ==> !eq_nocase(self@.artists[j].1, artist@));
                    assert(self@.artists[k].0 < self@.next_artist_id);
                }
                id
            },
            None => {
                proof {
                    lemma_find_artist(self@.artists, artist@);
                }
                let id = self.next_artist_id;
                self.next_artist_id = self.next_artist_id + 1;
                self.artists.push(ArtistRow { id, name: String::from_str(artist) });
                proof {
                    let m0 = old(self)@;
                    let m1 = self@;
                    assert(m1.artists =~= m0.artists.push((id, artist@)));
                    assert(m1.tracks == m0.tracks);
                    assert(m1.links == m0.links);
                    assert(store_wf(m0));
                    let last = m1.artists.len() - 1;
                    assert forall|a: int, b: int| 0 <= a < b < m1.artists.len() implies {
                        &&& m1.artists[a].0 < m1.artists[b].0
                        &&& !eq_nocase(m1.artists[a].1, m1.artists[b].1)
                    } by {
                        if b < last {
                            assert(m0.artists[a].0 < m0.artists[b].0);
                            assert(!eq_nocase(m0.artists[a].1, m0.artists[b].1));
                        } else {
                            assert(m1.artists[a] == m0.artists[a]);
                            assert(m0.artists[a].0 < m0.next_artist_id);
                            assert(!eq_nocase(m0.artists[a].1, artist@));
                        }
                    };
                    assert forall|a: int| 0 <= a < m1.artists.len() implies m1.artists[a].0
                        < m1.next_artist_id by {
                        if a < last {
                            assert(m0.artists[a].0 < m0.next_artist_id);
                        }
                    };
                    assert forall|a: int, b: int|
                        0 <= a < b < m1.links.len() implies m1.links[a] != m1.links[b] by {
                        assert(m0.links[a] != m0.links[b]);
                    };
                    assert forall|a: int|
                        0 <= a < m1.links.len() implies m1.links[a].1 < m1.next_artist_id by {
                        assert(m0.links[a].1 < m0.next_artist_id);
                    };
                    assert(store_wf(m1));
                }
                id
            },
        }
    }

    /// Insert or replace one track row by id.
    fn upsert_one(&mut self, t: Track)
        requires
            old(self).wf(),
            t.id < old(self)@.next_track_id,
        ensures
            final(self).wf(),
            final(self)@.tracks == upsert_track(old(self)@.tracks, t),
            final(self)@.artists == old(self)@.artists,
            final(self)@.links == old(self)@.links,
            final(self)@.next_track_id == old(self)@.next_track_id,
            final(self)@.next_artist_id == old(self)@.next_artist_id,
    {
        let n = self.tracks.len();
        let mut k: usize = 0;
        while k < n && self.tracks[k].id < t.id
            invariant
                n == self.tracks.len(),
                0 <= k <= n,
                self.tracks@ == old(self).tracks@,
                self.artists@ == old(self).artists@,
                self.links@ == old(self).links@,
                self.next_track_id == old(self).next_track_id,
                self.next_artist_id == old(self).next_artist_id,
                forall|j: int| 0 <= j < k ==> self.tracks@[j].id < t.id,
            decreases n - k,
        {
            k += 1;
        }
        proof {
            lemma_upsert_at(self.tracks@, t, k as int);
            assert(store_wf(old(self)@));
        }
        let ghost ts = self.tracks@;
        proof {
            assert(ts == old(self)@.tracks);
        }
        if k < n && self.tracks[k].id == t.id {
            self.tracks.set(k, t);
            proof {
                assert forall|a: int, b: int|
                    0 <= a < b < self.tracks@.len() implies self.tracks@[a].id
                    < self.tracks@[b].id by {
                    assert(ts[a].id < ts[b].id);
                };
                assert forall|a: int|
                    0 <= a < self.tracks@.len() implies self.tracks@[a].id
                    < self@.next_track_id by {
                    assert(ts[a].id < old(self)@.next_track_id);
                };
                lemma_wf_new_tracks(old(self)@, self@);
            }
        } else {
            self.tracks.insert(k, t);
            proof {
                assert forall|a: int, b: int|
                    0 <= a < b < self.tracks@.len() implies self.tracks@[a].id
                    < self.tracks@[b].id by {
                    if a < k && b > k {
                        assert(ts[a].id < t.id);
                        assert(self.tracks@[b] == ts[b - 1]);
                        assert(ts[k as int].id >= t.id);
                        if b - 1 > k {
                            assert(ts[k as int].id < ts[b - 1].id);
                        }
                    } else if a == k {
                        assert(self.tracks@[b] == ts[b - 1]);
                        assert(ts[k as int].id > t.id);
                        if b - 1 > k {
                            assert(ts[k as int].id < ts[b - 1].id);
                        }
                    } else if b == k {
                        assert(ts[a].id < t.id);
                    } else if b < k {
                        assert(ts[a].id < ts[b].id);
                    } else {
                        assert(self.tracks@[a] == ts[a - 1]);
                        assert(self.tracks@[b] == ts[b - 1]);
                        assert(ts[a - 1].id < ts[b - 1].id);
                    }
                };
                assert forall|a: int|
                    0 <= a < self.tracks@.len() implies self.tracks@[a].id
                    < self@.next_track_id by {
                    if a < k {
                        assert(ts[a].id < old(self)@.next_track_id);
                    } else if a > k {
                        assert(self.tracks@[a] == ts[a - 1]);
                        assert(ts[a - 1].id < old(self)@.next_track_id);
                    }
                };
                lemma_wf_new_tracks(old(self)@, self@);
            }
        }
    }

    /// Record that the track carries the artist; a link already present is
    /// left alone.
    fn link_track_artist(&mut self, tid: u32, aid: u32)
        requires
            old(self).wf(),
            aid < old(self)@.next_artist_id,
        ensures
            final(self).wf(),
            final(self)@.links == add_link(old(self)@.links, (tid, aid)),
            final(self)@.tracks == old(self)@.tracks,
            final(self)@.artists == old(self)@.artists,
            final(self)@.next_track_id == old(self)@.next_track_id,
            final(self)@.next_artist_id == old(self)@.next_artist_id,
    {
        let n = self.links.len();
        let mut i: usize = 0;
        while i < n
            invariant
                n == self.links.len(),
                0 <= i <= n,
                self.links@ == old(self).links@,
                self.tracks@ == old(self).tracks@,
                self.artists@ == old(self).artists@,
                self.next_track_id == old(self).next_track_id,
                self.next_artist_id == old(self).next_artist_id,
                store_wf(old(self)@),
                forall|j: int| 0 <= j < i ==> self.links@[j] != (tid, aid),
            decreases n - i,
        {
            let l = self.links[i];
            if l.0 == tid && l.1 == aid {
                proof {
                    assert(self.links@[i as int] == (tid, aid));
                    assert(self.links@.contains((tid, aid)));
                    lemma_wf_same_rows(old(self)@, self@);
                }
                return ;
            }
            i += 1;
        }
        proof {
            assert(!self.links@.contains((tid, aid))) by {
                if self.links@.contains((tid, aid)) {
                    let j = choose|j: int|
                        0 <= j < self.links@.len() && self.links@[j] == (tid, aid);
                }
            };
            assert(store_wf(old(self)@));
        }
        let ghost ls = self.links@;
        self.links.push((tid, aid));
        proof {
            assert(ls == old(self)@.links);
            assert forall|a: int, b: int|
                0 <= a < b < self.links@.len() implies self.links@[a] != self.links@[b] by {
                if b < self.links@.len() - 1 {
                    assert(old(self)@.links[a] != old(self)@.links[b]);
                } else {
                    assert(self.links@[a] == ls[a]);
                    assert(!ls.contains((tid, aid)));
                }
            };
            assert forall|a: int|
                0 <= a < self.links@.len() implies self.links@[a].1 < self@.next_artist_id by {
                if a < self.links@.len() - 1 {
                    assert(old(self)@.links[a].1 < old(self)@.next_artist_id);
                }
            };
            lemma_wf_new_links(old(self)@, self@);
        }
    }

    /// Upsert the given tracks in order, then register each track's
    /// artists (reusing case-insensitive matches) and link them to it;
    /// a link already present is left alone.
    pub fn insert_tracks(&mut self, tracks: Vec<Track>)
        requires
            old(self).wf(),
            forall|i: int|
                0 <= i < tracks@.len() ==> #[trigger] tracks@[i].id < old(self)@.next_track_id,
            old(self)@.next_artist_id + total_artist_names(tracks@) <= u32::MAX,
        ensures
            final(self).wf(),
            final(self)@ == apply_insert(old(self)@, tracks@),
    {
        let ghost orig = tracks@;
        let mut tracks = tracks;
        let mut i: usize = 0;
        let n = tracks.len();
        while i < n
            invariant
                n == orig.len(),
                0 <= i <= n,
                tracks@ =~= orig.skip(i as int),
                self.wf(),
                self@ == apply_insert(old(self)@, orig.take(i as int)),
                self@.next_track_id == old(self)@.next_track_id,
                forall|j: int| 0 <= j < orig.len() ==> #[trigger] orig[j].id < old(self)@.next_track_id,
                self@.next_artist_id + total_artist_names(orig.skip(i as int)) <= u32::MAX,
            decreases n - i,
        {
            let ghost entry = self@;
            let t = tracks.remove(0);
            proof {
                assert(t == orig[i as int]);
                assert(tracks@ =~= orig.skip(i + 1 as int));
                assert(orig.skip(i as int).drop_first() =~= orig.skip(i + 1 as int));
                assert(total_artist_names(orig.skip(i as int)) == t.artists.len()
                    + total_artist_names(orig.skip(i + 1 as int)));
                lemma_total_artist_names_nonneg(orig.skip(i + 1 as int));
            }
            let ghost names = t.artists.deep_view();
            proof {
                assert(names.skip(0) =~= names);
            }
            let na = t.artists.len();
            let mut j: usize = 0;
            while j < na
                invariant
                    na == t.artists.len(),
                    names == t.artists.deep_view(),
                    0 <= j <= na,
                    self.wf(),
                    self@.tracks == entry.tracks,
                    self@.next_track_id == entry.next_track_id,
                    register_track_artists(
                        self@.artists,
                        self@.next_artist_id,
                        self@.links,
                        t.id,
                        names.skip(j as int),
                    ) == register_track_artists(
                        entry.artists,
                        entry.next_artist_id,
                        entry.links,
                        t.id,
                        names,
                    ),
                    self@.next_artist_id + (na - j) + total_artist_names(
                        orig.skip(i + 1 as int),
                    ) <= u32::MAX,
                decreases na - j,
            {
                let ghost pre = self@;
                proof {
                    lemma_total_artist_names_nonneg(orig.skip(i + 1 as int));
                    assert(names.skip(j as int)[0] == names[j as int]);
                    assert(names[j as int] == t.artists@[j as int]@);
                }
                let aid = self.insert_artist(t.artists[j].as_str());
                self.link_track_artist(t.id, aid);
                proof {
                    assert(names.skip(j as int).drop_first() =~= names.skip(j + 1 as int));
                    let step = register_artist(pre.artists, pre.next_artist_id, names[j as int]);
                    assert((self@.artists, self@.next_artist_id) == (step.0, step.1));
                    assert(self@.links == add_link(pre.links, (t.id, step.2)));
                    assert(register_track_artists(
                        pre.artists,
                        pre.next_artist_id,
                        pre.links,
                        t.id,
                        names.skip(j as int),
                    ) == register_track_artists(
                        self@.artists,
                        self@.next_artist_id,
                        self@.links,
                        t.id,
                        names.skip(j + 1 as int),
                    ));
                }
                j += 1;
            }
            proof {
                assert(names.skip(na as int) =~= Seq::<Seq<char>>::empty());
            }
            self.upsert_one(t);
            proof {
                let reg = register_track_artists(
                    entry.artists,
                    entry.next_artist_id,
                    entry.links,
                    t.id,
                    names,
                );
                assert(self@ =~= apply_insert_one(entry, t));
                assert(orig.take(i + 1 as int).drop_last() =~= orig.take(i as int));
                assert(orig.take(i + 1 as int).last() == orig[i as int]);
            }
            i += 1;
        }
        proof {
            assert(orig.take(n as int) =~= orig);
        }
    }

    /// Delete the tracks with the given ids and their artist links; absent
    /// ids are silently ignored. Artist rows are never deleted.
    pub fn remove_tracks(&mut self, ids: &Vec<u32>)
        requires
            old(self).wf(),
        ensures
            final(self).wf(),
            final(self)@.tracks == remove_tracks_model(old(self)@.tracks, ids@),
            final(self)@.links == remove_links_model(old(self)@.links, ids@),
            final(self)@.artists == old(self)@.artists,
            final(self)@.next_track_id == old(self)@.next_track_id,
            final(self)@.next_artist_id == old(self)@.next_artist_id,
    {
        proof {
            assert(store_wf(old(self)@));
            lemma_remove_tracks_wf(old(self)@.tracks, ids@);
            lemma_remove_links_wf(old(self)@.links, ids@);
        }
        let ghost ots = self.tracks@;
        let mut kept_tracks: Vec<Track> = Vec::new();
        let n = self.tracks.len();
        let mut i: usize = 0;
        while i < n
            invariant
                n == ots.len(),
                0 <= i <= n,
                ots == old(self)@.tracks,
                self.tracks@ =~= ots.skip(i as int),
                self.artists@ == old(self).artists@,
                self.links@ == old(self).links@,
                self.next_track_id == old(self).next_track_id,
                self.next_artist_id == old(self).next_artist_id,
                kept_tracks@ == remove_tracks_model(ots.take(i as int), ids@),
            decreases n - i,
        {
            let t = self.tracks.remove(0);
            proof {
                assert(t == ots[i as int]);
                assert(self.tracks@ =~= ots.skip(i + 1 as int));
                assert(ots.take(i + 1 as int).drop_last() =~= ots.take(i as int));
                assert(ots.take(i + 1 as int).last() == ots[i as int]);
            }
            if !contains_id(ids, t.id) {
                kept_tracks.push(t);
            }
            i += 1;
        }
        proof {
            assert(ots.take(n as int) =~= ots);
        }
        self.tracks = kept_tracks;

        let ghost ols = self.links@;
        let mut kept_links: Vec<(u32, u32)> = Vec::new();
        let m = self.links.len();
        let mut i2: usize = 0;
        while i2 < m
            invariant
                m == ols.len(),
                0 <= i2 <= m,
                ols == old(self)@.links,
                self.links@ =~= ols.skip(i2 as int),
                self.artists@ == old(self).artists@,
                self.tracks@ == remove_tracks_model(old(self)@.tracks, ids@),
                self.next_track_id == old(self).next_track_id,
                self.next_artist_id == old(self).next_artist_id,
                kept_links@ == remove_links_model(ols.take(i2 as int), ids@),
            decreases m - i2,
        {
            let l = self.links.remove(0);
            proof {
                assert(l == ols[i2 as int]);
                assert(self.links@ =~= ols.skip(i2 + 1 as int));
                assert(ols.take(i2 + 1 as int).drop_last() =~= ols.take(i2 as int));
                assert(ols.take(i2 + 1 as int).last() == ols[i2 as int]);
            }
            if !contains_id(ids, l.0) {
                kept_links.push(l);
            }
            i2 += 1;
        }
        proof {
            assert(ols.take(m as int) =~= ols);
        }
        self.links = kept_links;

        proof {
            let m0 = old(self)@;
            let m1 = self@;
            assert(m1.artists == m0.artists);
            assert forall|a: int, b: int|
                0 <= a < b < m1.tracks.len() implies m1.tracks[a].id < m1.tracks[b].id by {
                assert(forall|x: int, y: int|
                    0 <= x < y < m0.tracks.len() ==> m0.tracks[x].id < m0.tracks[y].id);
            };
            assert forall|a: int|
                0 <= a < m1.tracks.len() implies m1.tracks[a].id < m1.next_track_id by {
                assert(m0.tracks.contains(m1.tracks[a]));
                let w = choose|w: int| 0 <= w < m0.tracks.len() && m0.tracks[w] == m1.tracks[a];
                assert(m0.tracks[w].id < m0.next_track_id);
            };
            assert forall|a: int, b: int|
                0 <= a < b < m1.artists.len() implies m1.artists[a].0 < m1.artists[b].0
                    && !eq_nocase(m1.artists[a].1, m1.artists[b].1) by {
                assert(m0.artists[a].0 < m0.artists[b].0);
                assert(!eq_nocase(m0.artists[a].1, m0.artists[b].1));
            };
            assert forall|a: int|
                0 <= a < m1.links.len() implies m1.links[a].1 < m1.next_artist_id by {
                assert(m0.links.contains(m1.links[a]));
                let w = choose|w: int| 0 <= w < m0.links.len() && m0.links[w] == m1.links[a];
                assert(m0.links[w].1 < m0.next_artist_id);
            };
            assert(store_wf(m1));
        }
    }
}

impl Database {
    /// The id the next allocated track will get.
    pub fn peek_next_track_id(&self) -> (r: u32)
        ensures
            r == self@.next_track_id,
    {
        self.next_track_id
    }

    /// The id the next created artist row will get.
    pub fn peek_next_artist_id(&self) -> (r: u32)
        ensures
            r == self@.next_artist_id,
    {
        self.next_artist_id
    }

    /// The name stored under artist id `aid`, if any.
    fn find_artist_name(&self, aid: u32) -> (r: Option<String>)
        ensures
            match r {
                Some(s) => lookup_artist(self@.artists, aid) == Some(s@),
                None => lookup_artist(self@.artists, aid) is None,
            },
    {
        proof {
            assert(self@.artists.skip(0) =~= self@.artists);
        }
        let n = self.artists.len();
        let mut i: usize = 0;
        while i < n
            invariant
                n == self.artists.len(),
                0 <= i <= n,
                lookup_artist(self@.artists, aid) == lookup_artist(
                    self@.artists.skip(i as int),
                    aid,
                ),
            decreases n - i,
        {
            proof {
                assert(self@.artists.skip(i as int)[0] == self@.artists[i as int]);
            }
            if self.artists[i].id == aid {
                return Some(self.artists[i].name.clone());
            }
            proof {
                assert(self@.artists.skip(i as int).drop_first() =~= self@.artists.skip(
                    i + 1 as int,
                ));
            }
            i += 1;
        }
        proof {
            assert(self@.artists.skip(n as int) =~= Seq::<(u32, Seq<char>)>::empty());
        }
        None
    }

    /// The names of the artists linked to track `tid`, in stored link
    /// order.
    fn artists_for_track(&self, tid: u32) -> (r: Vec<String>)
        ensures
            r.deep_view() == artists_of(self@.links, self@.artists, tid),
    {
        let mut out: Vec<String> = Vec::new();
        let m = self.links.len();
        let mut i: usize = 0;
        while i < m
            invariant
                m == self.links.len(),
                0 <= i <= m,
                out.deep_view() == artists_of(self@.links.take(i as int), self@.artists, tid),
            decreases m - i,
        {
            let l = self.links[i];
            proof {
                assert(self@.links.take(i + 1 as int).drop_last() =~= self@.links.take(i as int));
                assert(self@.links.take(i + 1 as int).last() == self@.links[i as int]);
            }
            if l.0 == tid {
                match self.find_artist_name(l.1) {
                    Some(name) => {
                        let ghost prev = out.deep_view();
                        out.push(name);
                        proof {
                            assert(out.deep_view() =~= prev.push(name@));
                        }
                    },
                    None => {},
                }
            }
            i += 1;
        }
        proof {
            assert(self@.links.take(m as int) =~= self@.links);
        }
        out
    }

    /// Every track with its full artist list populated via the links, in
    /// id order.
    pub fn all_tracks(&self) -> (r: Vec<Track>)
        ensures
            r@.len() == self@.tracks.len(),
            forall|i: int|
                0 <= i < r@.len() ==> {
                    &&& (#[trigger] r@[i]).id == self@.tracks[i].id
                    &&& r@[i].url@ == self@.tracks[i].url@
                    &&& r@[i].title@ == self@.tracks[i].title@
                    &&& r@[i].date_archived == self@.tracks[i].date_archived
                    &&& r@[i].artists.deep_view() == artists_of(
                        self@.links,
                        self@.artists,
                        self@.tracks[i].id,
                    )
                },
    {
        let mut out: Vec<Track> = Vec::new();
        let n = self.tracks.len();
        let mut i: usize = 0;
        while i < n
            invariant
                n == self.tracks.len(),
                0 <= i <= n,
                out@.len() == i,
                forall|j: int|
                    0 <= j < i ==> {
                        &&& (#[trigger] out@[j]).id == self@.tracks[j].id
                        &&& out@[j].url@ == self@.tracks[j].url@
                        &&& out@[j].title@ == self@.tracks[j].title@
                        &&& out@[j].date_archived == self@.tracks[j].date_archived
                        &&& out@[j].artists.deep_view() == artists_of(
                            self@.links,
                            self@.artists,
                            self@.tracks[j].id,
                        )
                    },
            decreases n - i,
        {
            let t = &self.tracks[i];
            let artists = self.artists_for_track(t.id);
            let row = Track {
                id: t.id,
                url: t.url.clone(),
                title: t.title.clone(),
                artists,
                date_archived: t.date_archived,
            };
            out.push(row);
            i += 1;
        }
        out
    }

    /// Every stored artist row, in id order.
    pub fn all_artists(&self) -> (r: Vec<ArtistRow>)
        ensures
            artists_model(r@) == self@.artists,
    {
        let mut out: Vec<ArtistRow> = Vec::new();
        let n = self.artists.len();
        proof {
            assert(artists_model(out@) =~= self@.artists.take(0));
        }
        let mut i: usize = 0;
        while i < n
            invariant
                n == self.artists.len(),
                0 <= i <= n,
                artists_model(out@) == self@.artists.take(i as int),
            decreases n - i,
        {
            let ghost prev = out@;
            out.push(ArtistRow { id: self.artists[i].id, name: self.artists[i].name.clone() });
            proof {
                assert(artists_model(out@) =~= artists_model(prev).push(
                    self@.artists[i as int],
                ));
                assert(self@.artists.take(i + 1 as int) =~= self@.artists.take(i as int).push(
                    self@.artists[i as int],
                ));
            }
            i += 1;
        }
        proof {
            assert(self@.artists.take(n as int) =~= self@.artists);
        }
        out
    }

    /// Every stored track-artist link, in stored order.
    pub fn all_links(&self) -> (r: Vec<(u32, u32)>)
        ensures
            r@ == self@.links,
    {
        let mut out: Vec<(u32, u32)> = Vec::new();
        let n = self.links.len();
        let mut i: usize = 0;
        while i < n
            invariant
                n == self.links.len(),
                0 <= i <= n,
                out@ == self@.links.take(i as int),
            decreases n - i,
        {
            let ghost prev = out@;
            out.push(self.links[i]);
            proof {
                assert(out@ =~= self@.links.take(i + 1 as int));
            }
            i += 1;
        }
        proof {
            assert(self@.links.take(n as int) =~= self@.links);
        }
        out
    }

    /// Rebuild a store from persisted rows, recomputing both id counters
    /// from the highest stored ids. Rows that break the store's invariants
    /// (unsorted or repeated ids, case-insensitively repeated artist
    /// names, repeated links, or an id with no successor left) are
    /// rejected.
    pub fn load(tracks: Vec<Track>, artists: Vec<ArtistRow>, links: Vec<(u32, u32)>) -> (r: Option<
        Database,
    >)
        ensures
            match r {
                Some(db) => {
                    &&& db.wf()
                    &&& db@.tracks == tracks@
                    &&& db@.artists == artists_model(artists@)
                    &&& db@.links == links@
                    &&& db@.next_track_id == if tracks@.len() == 0 {
                        1u32
                    } else {
                        (tracks@.last().id + 1) as u32
                    }
                    &&& db@.next_artist_id == if artists@.len() == 0 {
                        1u32
                    } else {
                        (artists_model(artists@).last().0 + 1) as u32
                    }
                },
                None => !rows_loadable(tracks@, artists_model(artists@), links@),
            },
    {
        let nt = tracks.len();
        let mut i: usize = 1;
        while i < nt
            invariant
                nt == tracks@.len(),
                1 <= i <= nt || (nt == 0 && i == 1),
                forall|a: int, b: int| 0 <= a < b < i ==> tracks@[a].id < tracks@[b].id,
            decreases nt - i,
        {
            if tracks[i - 1].id >= tracks[i].id {
                proof {
                    assert(!rows_loadable(tracks@, artists_model(artists@), links@));
                }
                return None;
            }
            proof {
                assert forall|a: int, b: int|
                    0 <= a < b < i + 1 implies tracks@[a].id < tracks@[b].id by {
                    if b < i {
                    } else if a < i - 1 {
                        assert(tracks@[a].id < tracks@[i - 1].id);
                    }
                };
            }
            i += 1;
        }
        let next_track_id: u32 = if nt == 0 {
            1
        } else {
            let last = tracks[nt - 1].id;
            if last == u32::MAX {
                proof {
                    assert(!rows_loadable(tracks@, artists_model(artists@), links@));
                }
                return None;
            }
            last + 1
        };

        let na = artists.len();
        let mut i2: usize = 1;
        while i2 < na
            invariant
                na == artists@.len(),
                1 <= i2 <= na || (na == 0 && i2 == 1),
                forall|a: int, b: int|
                    0 <= a < b < i2 ==> artists_model(artists@)[a].0 < artists_model(artists@)[b].0,
            decreases na - i2,
        {
            if artists[i2 - 1].id >= artists[i2].id {
                proof {
                    assert(artists_model(artists@)[i2 - 1].0 >= artists_model(artists@)[i2 as int].0);
                    assert(!rows_loadable(tracks@, artists_model(artists@), links@));
                }
                return None;
            }
            proof {
                assert forall|a: int, b: int|
                    0 <= a < b < i2 + 1 implies artists_model(artists@)[a].0 < artists_model(
                        artists@,
                    )[b].0 by {
                    if b < i2 {
                    } else if a < i2 - 1 {
                        assert(artists_model(artists@)[a].0 < artists_model(artists@)[i2 - 1].0);
                    }
                };
            }
            i2 += 1;
        }
        let next_artist_id: u32 = if na == 0 {
            1
        } else {
            let last = artists[na - 1].id;
            if last == u32::MAX {
                proof {
                    assert(artists_model(artists@).last().0 == u32::MAX);
                    assert(!rows_loadable(tracks@, artists_model(artists@), links@));
                }
                return None;
            }
            last + 1
        };

        let mut i3: usize = 0;
        while i3 < na
            invariant
                na == artists@.len(),
                0 <= i3 <= na,
                forall|a: int, b: int|
                    0 <= a < b < na && a < i3 ==> !eq_nocase(
                        artists_model(artists@)[a].1,
                        artists_model(artists@)[b].1,
                    ),
            decreases na - i3,
        {
            let mut j3: usize = i3 + 1;
            while j3 < na
                invariant
                    na == artists@.len(),
                    0 <= i3 < j3 <= na,
                    forall|b: int|
                        i3 < b < j3 ==> !eq_nocase(
                            artists_model(artists@)[i3 as int].1,
                            artists_model(artists@)[b].1,
                        ),
                decreases na - j3,
            {
                if eq_nocase_exec(artists[i3].name.as_str(), artists[j3].name.as_str()) {
                    proof {
                        assert(eq_nocase(
                            artists_model(artists@)[i3 as int].1,
                            artists_model(artists@)[j3 as int].1,
                        ));
                        assert(!rows_loadable(tracks@, artists_model(artists@), links@));
                    }
                    return None;
                }
                j3 += 1;
            }
            i3 += 1;
        }

        proof {
            if artists@.len() > 0 {
                assert(artists_model(artists@).last().0 == artists@[artists@.len() - 1].id);
            }
            assert(next_artist_id as int == artists_next(artists_model(artists@)));
        }
        let nl0 = links.len();
        let mut i5: usize = 0;
        while i5 < nl0
            invariant
                nl0 == links@.len(),
                0 <= i5 <= nl0,
                next_artist_id as int == artists_next(artists_model(artists@)),
                forall|a: int| 0 <= a < i5 ==> (#[trigger] links@[a]).1 < next_artist_id,
            decreases nl0 - i5,
        {
            if links[i5].1 >= next_artist_id {
                proof {
                    assert((links@[i5 as int].1 as int) >= artists_next(artists_model(artists@)));
                    assert(!rows_loadable(tracks@, artists_model(artists@), links@));
                }
                return None;
            }
            i5 += 1;
        }

        let nl = links.len();
        let mut i4: usize = 0;
        while i4 < nl
            invariant
                nl == links@.len(),
                0 <= i4 <= nl,
                forall|a: int, b: int| 0 <= a < b < nl && a < i4 ==> links@[a] != links@[b],
            decreases nl - i4,
        {
            let mut j4: usize = i4 + 1;
            while j4 < nl
                invariant
                    nl == links@.len(),
                    0 <= i4 < j4 <= nl,
                    forall|b: int| i4 < b < j4 ==> links@[i4 as int] != links@[b],
                decreases nl - j4,
            {
                if links[i4].0 == links[j4].0 && links[i4].1 == links[j4].1 {
                    proof {
                        assert(links@[i4 as int] == links@[j4 as int]);
                        assert(!rows_loadable(tracks@, artists_model(artists@), links@));
                    }
                    return None;
                }
                j4 += 1;
            }
            i4 += 1;
        }

        let db = Database { tracks, artists, links, next_track_id, next_artist_id };
        proof {
            assert(store_wf(db@)) by {
                assert forall|a: int|
                    0 <= a < db@.tracks.len() implies db@.tracks[a].id < db@.next_track_id by {
                    if a < db@.tracks.len() - 1 {
                        assert(db@.tracks[a].id < db@.tracks[db@.tracks.len() - 1].id);
                    }
                };
                assert forall|a: int|
                    0 <= a < db@.artists.len() implies db@.artists[a].0 < db@.next_artist_id by {
                    if a < db@.artists.len() - 1 {
                        assert(db@.artists[a].0 < db@.artists[db@.artists.len() - 1].0);
                    }
                };
                assert forall|a: int|
                    0 <= a < db@.links.len() implies db@.links[a].1 < db@.next_artist_id by {
                    assert(db@.links[a] == links@[a]);
                };
            };
        }
        Some(db)
    }
}

/// Rows that a store can be rebuilt from: tracks strictly sorted by id,
/// artists strictly sorted by id with names unique up to ASCII case, links
/// pairwise distinct, and the highest ids leaving room for a successor.
pub open spec fn rows_loadable(
    ts: Seq<Track>,
    ars: Seq<(u32, Seq<char>)>,
    ls: Seq<(u32, u32)>,
) -> bool {
    &&& (forall|i: int, j: int| 0 <= i < j < ts.len() ==> ts[i].id < ts[j].id)
    &&& (ts.len() == 0 || ts.last().id < u32::MAX)
    &&& (forall|i: int, j: int| 0 <= i < j < ars.len() ==> ars[i].0 < ars[j].0)
    &&& (ars.len() == 0 || ars.last().0 < u32::MAX)
    &&& (forall|i: int, j: int| 0 <= i < j < ars.len() ==> !eq_nocase(ars[i].1, ars[j].1))
    &&& (forall|i: int, j: int| 0 <= i < j < ls.len() ==> ls[i] != ls[j])
    &&& (forall|i: int| 0 <= i < ls.len() ==> ((#[trigger] ls[i]).1 as int) < artists_next(ars))
}

/// The artist counter a reloaded store starts with: one past the highest
/// stored artist id.
pub open spec fn artists_next(ars: Seq<(u32, Seq<char>)>) -> int {
    if ars.len() == 0 {
        1
    } else {
        ars.last().0 + 1
    }
}

/// A fresh track id is never an existing track's id: ids, once assigned,
/// are never reused.
pub proof fn lemma_fresh_id_unused(m: StoreModel)
    requires
        store_wf(m),
    ensures
        forall|i: int| 0 <= i < m.tracks.len() ==> (#[trigger] m.tracks[i]).id != m.next_track_id,
{
}

proof fn lemma_find_nocase_equiv(ars: Seq<(u32, Seq<char>)>, n1: Seq<char>, n2: Seq<char>)
    requires
        eq_nocase(n1, n2),
    ensures
        find_artist_nocase(ars, n1) == find_artist_nocase(ars, n2),
    decreases ars.len(),
{
    if ars.len() > 0 {
        lemma_find_nocase_equiv(ars.drop_first(), n1, n2);
    }
}

proof fn lemma_find_after_push(ars: Seq<(u32, Seq<char>)>, id: u32, nm: Seq<char>, n: Seq<char>)
    requires
        find_artist_nocase(ars, n) is None,
        eq_nocase(nm, n),
    ensures
        find_artist_nocase(ars.push((id, nm)), n) == Some(id),
    decreases ars.len(),
{
    if ars.len() == 0 {
        assert(ars.push((id, nm))[0] == (id, nm));
    } else {
        assert(ars.push((id, nm))[0] == ars[0]);
        assert(ars.push((id, nm)).drop_first() =~= ars.drop_first().push((id, nm)));
        lemma_find_after_push(ars.drop_first(), id, nm, n);
    }
}

/// Registering a name and then any name equal to it up to ASCII case
/// yields the same artist id both times and creates at most the one row.
pub proof fn lemma_artist_reuse(
    ars: Seq<(u32, Seq<char>)>,
    next: u32,
    n1: Seq<char>,
    n2: Seq<char>,
)
    requires
        eq_nocase(n1, n2),
    ensures
        ({
            let r1 = register_artist(ars, next, n1);
            let r2 = register_artist(r1.0, r1.1, n2);
            r2.0 == r1.0 && r2.1 == r1.1 && r2.2 == r1.2
        }),
{
    lemma_find_nocase_equiv(ars, n1, n2);
    match find_artist_nocase(ars, n1) {
        Some(id) => {},
        None => {
            lemma_find_after_push(ars, next, n1, n2);
        },
    }
}

proof fn lemma_upsert_keeps_track(ts: Seq<Track>, t: Track)
    ensures
        exists|i: int| 0 <= i < upsert_track(ts, t).len() && upsert_track(ts, t)[i] == t,
    decreases ts.len(),
{
    if ts.len() == 0 {
        assert(upsert_track(ts, t)[0] == t);
    } else if ts[0].id == t.id {
        assert(upsert_track(ts, t)[0] == t);
    } else if t.id < ts[0].id {
        assert(upsert_track(ts, t)[0] == t);
    } else {
        lemma_upsert_keeps_track(ts.drop_first(), t);
        let i = choose|i: int|
            0 <= i < upsert_track(ts.drop_first(), t).len() && upsert_track(ts.drop_first(), t)[i]
                == t;
        assert(upsert_track(ts, t)[i + 1] == t);
    }
}

/// A committed upsert archives the track's URL: immediately afterwards
/// the store reports that canonical URL as archived.
pub proof fn lemma_insert_archives(m: StoreModel, t: Track)
    ensures
        tracks_have_url(apply_insert_one(m, t).tracks, t.url@),
{
    lemma_upsert_keeps_track(m.tracks, t);
    let i = choose|i: int|
        0 <= i < upsert_track(m.tracks, t).len() && upsert_track(m.tracks, t)[i] == t;
    assert(apply_insert_one(m, t).tracks[i].url@ == t.url@);
}

proof fn lemma_remove_tracks_excludes(ts: Seq<Track>, ids: Seq<u32>)
    ensures
        forall|k: int|
            0 <= k < remove_tracks_model(ts, ids).len() ==> !ids.contains(
                (#[trigger] remove_tracks_model(ts, ids)[k]).id,
            ),
    decreases ts.len(),
{
    if ts.len() > 0 {
        lemma_remove_tracks_excludes(ts.drop_last(), ids);
        let rest = remove_tracks_model(ts.drop_last(), ids);
        let r = remove_tracks_model(ts, ids);
        assert forall|k: int| 0 <= k < r.len() implies !ids.contains((#[trigger] r[k]).id) by {
            if k < rest.len() {
                assert(r[k] == rest[k]);
            } else {
                assert(r[k] == ts.last());
            }
        };
    }
}

proof fn lemma_remove_links_excludes(ls: Seq<(u32, u32)>, ids: Seq<u32>)
    ensures
        forall|k: int|
            0 <= k < remove_links_model(ls, ids).len() ==> !ids.contains(
                (#[trigger] remove_links_model(ls, ids)[k]).0,
            ),
    decreases ls.len(),
{
    if ls.len() > 0 {
        lemma_remove_links_excludes(ls.drop_last(), ids);
        let rest = remove_links_model(ls.drop_last(), ids);
        let r = remove_links_model(ls, ids);
        assert forall|k: int| 0 <= k < r.len() implies !ids.contains((#[trigger] r[k]).0) by {
            if k < rest.len() {
                assert(r[k] == rest[k]);
            } else {
                assert(r[k] == ls.last());
            }
        };
    }
}

/// After a removal, no surviving track row carries a removed id and no
/// surviving link points at one.
pub proof fn lemma_remove_excludes(ts: Seq<Track>, ls: Seq<(u32, u32)>, ids: Seq<u32>)
    ensures
        forall|k: int|
            0 <= k < remove_tracks_model(ts, ids).len() ==> !ids.contains(
                (#[trigger] remove_tracks_model(ts, ids)[k]).id,
            ),
        forall|k: int|
            0 <= k < remove_links_model(ls, ids).len() ==> !ids.contains(
                (#[trigger] remove_links_model(ls, ids)[k]).0,
            ),
{
    lemma_remove_tracks_excludes(ts, ids);
    lemma_remove_links_excludes(ls, ids);
}

/// Removing ids of which none is stored is a no-op.
pub proof fn lemma_remove_absent_noop(ts: Seq<Track>, ls: Seq<(u32, u32)>, ids: Seq<u32>)
    requires
        forall|j: int| 0 <= j < ts.len() ==> !ids.contains((#[trigger] ts[j]).id),
        forall|j: int| 0 <= j < ls.len() ==> !ids.contains((#[trigger] ls[j]).0),
    ensures
        remove_tracks_model(ts, ids) == ts,
        remove_links_model(ls, ids) == ls,
    decreases ts.len() + ls.len(),
{
    if ts.len() > 0 {
        lemma_remove_absent_noop(ts.drop_last(), ls, ids);
        assert(remove_tracks_model(ts, ids) =~= ts);
    }
    if ls.len() > 0 {
        lemma_remove_absent_noop(ts.subrange(0, 0), ls.drop_last(), ids);
        assert(remove_links_model(ls, ids) =~= ls);
    }
}

/// The set of names in `names`, identified up to ASCII case.
pub open spec fn folded_name_set(names: Seq<Seq<char>>) -> Set<Seq<char>> {
    Set::new(|x: Seq<char>| exists|i: int| 0 <= i < names.len() && x == fold_chars(names[i]))
}

/// What the registration fold preserves of the artist rows.
pub open spec fn artists_ok(ars: Seq<(u32, Seq<char>)>, next: u32) -> bool {
    &&& (forall|i: int, j: int| 0 <= i < j < ars.len() ==> ars[i].0 < ars[j].0)
    &&& (forall|i: int| 0 <= i < ars.len() ==> (#[trigger] ars[i]).0 < next)
    &&& (forall|i: int, j: int| 0 <= i < j < ars.len() ==> !eq_nocase(ars[i].1, ars[j].1))
}

/// Every link's artist id lies below the artist counter.
pub open spec fn links_ok(ls: Seq<(u32, u32)>, next: u32) -> bool {
    forall|i: int| 0 <= i < ls.len() ==> (#[trigger] ls[i]).1 < next
}

proof fn lemma_lookup_push(ars: Seq<(u32, Seq<char>)>, x: (u32, Seq<char>), aid: u32)
    ensures
        lookup_artist(ars.push(x), aid) == match lookup_artist(ars, aid) {
            Some(n) => Some(n),
            None => if x.0 == aid {
                Some(x.1)
            } else {
                None::<Seq<char>>
            },
        },
    decreases ars.len(),
{
    if ars.len() == 0 {
        assert(ars.push(x)[0] == x);
        assert(ars.push(x).drop_first() =~= Seq::<(u32, Seq<char>)>::empty());
    } else {
        assert(ars.push(x)[0] == ars[0]);
        assert(ars.push(x).drop_first() =~= ars.drop_first().push(x));
        lemma_lookup_push(ars.drop_first(), x, aid);
    }
}

proof fn lemma_lookup_at(ars: Seq<(u32, Seq<char>)>, k: int)
    requires
        forall|i: int, j: int| 0 <= i < j < ars.len() ==> ars[i].0 < ars[j].0,
        0 <= k < ars.len(),
    ensures
        lookup_artist(ars, ars[k].0) == Some(ars[k].1),
    decreases ars.len(),
{
    if k > 0 {
        assert(ars[0].0 < ars[k].0);
        assert(ars.drop_first()[k - 1] == ars[k]);
        assert forall|i: int, j: int|
            0 <= i < j < ars.drop_first().len() implies ars.drop_first()[i].0
            < ars.drop_first()[j].0 by {
            assert(ars[i + 1].0 < ars[j + 1].0);
        };
        lemma_lookup_at(ars.drop_first(), k - 1);
    }
}

proof fn lemma_lookup_fresh(ars: Seq<(u32, Seq<char>)>, next: u32, aid: u32)
    requires
        forall|i: int| 0 <= i < ars.len() ==> (#[trigger] ars[i]).0 < next,
        aid >= next,
    ensures
        lookup_artist(ars, aid) is None,
    decreases ars.len(),
{
    if ars.len() > 0 {
        assert forall|i: int|
            0 <= i < ars.drop_first().len() implies (#[trigger] ars.drop_first()[i]).0 < next by {
            assert(ars[i + 1].0 < next);
        };
        lemma_lookup_fresh(ars.drop_first(), next, aid);
    }
}

proof fn lemma_artists_of_contains(
    ls: Seq<(u32, u32)>,
    ars: Seq<(u32, Seq<char>)>,
    tid: u32,
    k: int,
    nm: Seq<char>,
)
    requires
        0 <= k < ls.len(),
        ls[k].0 == tid,
        lookup_artist(ars, ls[k].1) == Some(nm),
    ensures
        artists_of(ls, ars, tid).contains(nm),
    decreases ls.len(),
{
    let rest = artists_of(ls.drop_last(), ars, tid);
    if k == ls.len() - 1 {
        assert(artists_of(ls, ars, tid) == rest.push(nm));
        assert(rest.push(nm)[rest.len() as int] == nm);
    } else {
        assert(ls.drop_last()[k] == ls[k]);
        lemma_artists_of_contains(ls.drop_last(), ars, tid, k, nm);
        let w = choose|w: int| 0 <= w < rest.len() && rest[w] == nm;
        assert(artists_of(ls, ars, tid)[w] == nm);
    }
}

proof fn lemma_artists_of_absent(ls: Seq<(u32, u32)>, ars: Seq<(u32, Seq<char>)>, tid: u32)
    requires
        forall|i: int| 0 <= i < ls.len() ==> (#[trigger] ls[i]).0 != tid,
    ensures
        artists_of(ls, ars, tid) == Seq::<Seq<char>>::empty(),
    decreases ls.len(),
{
    if ls.len() > 0 {
        assert forall|i: int|
            0 <= i < ls.drop_last().len() implies (#[trigger] ls.drop_last()[i]).0 != tid by {
            assert(ls[i].0 != tid);
        };
        lemma_artists_of_absent(ls.drop_last(), ars, tid);
    }
}

proof fn lemma_folded_set_member(s: Seq<Seq<char>>, k: int)
    requires
        0 <= k < s.len(),
    ensures
        folded_name_set(s).contains(fold_chars(s[k])),
{
    assert(0 <= k < s.len() && fold_chars(s[k]) == fold_chars(s[k]));
}

proof fn lemma_folded_set_push(s: Seq<Seq<char>>, x: Seq<char>)
    ensures
        folded_name_set(s.push(x)) == folded_name_set(s).insert(fold_chars(x)),
{
    assert forall|y: Seq<char>|
        folded_name_set(s.push(x)).contains(y) implies folded_name_set(s).insert(
        fold_chars(x),
    ).contains(y) by {
        let i = choose|i: int| 0 <= i < s.push(x).len() && y == fold_chars(s.push(x)[i]);
        if i < s.len() {
            assert(s.push(x)[i] == s[i]);
            lemma_folded_set_member(s, i);
        } else {
            assert(s.push(x)[i] == x);
        }
    };
    assert forall|y: Seq<char>|
        folded_name_set(s).insert(fold_chars(x)).contains(y) implies folded_name_set(
        s.push(x),
    ).contains(y) by {
        if folded_name_set(s).contains(y) {
            let i = choose|i: int| 0 <= i < s.len() && y == fold_chars(s[i]);
            assert(s.push(x)[i] == s[i]);
            lemma_folded_set_member(s.push(x), i);
        } else {
            assert(s.push(x)[s.len() as int] == x);
            lemma_folded_set_member(s.push(x), s.len() as int);
        }
    };
    assert(folded_name_set(s.push(x)) =~= folded_name_set(s).insert(fold_chars(x)));
}

proof fn lemma_folded_set_first(names: Seq<Seq<char>>)
    requires
        names.len() > 0,
    ensures
        folded_name_set(names) == folded_name_set(names.drop_first()).insert(
            fold_chars(names[0]),
        ),
{
    let rest = names.drop_first();
    assert forall|y: Seq<char>|
        folded_name_set(names).contains(y) implies folded_name_set(rest).insert(
        fold_chars(names[0]),
    ).contains(y) by {
        let i = choose|i: int| 0 <= i < names.len() && y == fold_chars(names[i]);
        if i > 0 {
            assert(rest[i - 1] == names[i]);
            lemma_folded_set_member(rest, i - 1);
        }
    };
    assert forall|y: Seq<char>|
        folded_name_set(rest).insert(fold_chars(names[0])).contains(y) implies folded_name_set(
        names,
    ).contains(y) by {
        if folded_name_set(rest).contains(y) {
            let i = choose|i: int| 0 <= i < rest.len() && y == fold_chars(rest[i]);
            assert(names[i + 1] == rest[i]);
            lemma_folded_set_member(names, i + 1);
        } else {
            lemma_folded_set_member(names, 0);
        }
    };
    assert(folded_name_set(names) =~= folded_name_set(rest).insert(fold_chars(names[0])));
}

proof fn lemma_register_artist_step(ars: Seq<(u32, Seq<char>)>, next: u32, n: Seq<char>)
    requires
        artists_ok(ars, next),
        next < u32::MAX,
    ensures
        ({
            let step = register_artist(ars, next, n);
            &&& next <= step.1 <= next + 1
            &&& artists_ok(step.0, step.1)
            &&& step.2 < step.1
            &&& (forall|aid: u32|
                aid < next ==> lookup_artist(step.0, aid) == lookup_artist(ars, aid))
            &&& (exists|nm: Seq<char>|
                lookup_artist(step.0, step.2) == Some(nm) && fold_chars(nm) == fold_chars(n))
        }),
{
    lemma_find_artist(ars, n);
    match find_artist_nocase(ars, n) {
        Some(id) => {
            let k = choose|k: int|
                0 <= k < ars.len() && eq_nocase(ars[k].1, n) && id == ars[k].0 && (forall|j: int|
                    0 <= j < k ==> !eq_nocase(ars[j].1, n));
            lemma_lookup_at(ars, k);
            assert(lookup_artist(ars, id) == Some(ars[k].1) && fold_chars(ars[k].1)
                == fold_chars(n));
        },
        None => {
            let row = (next, n);
            let pushed = ars.push(row);
            lemma_lookup_fresh(ars, next, next);
            lemma_lookup_push(ars, row, next);
            assert(lookup_artist(pushed, next) == Some(n) && fold_chars(n) == fold_chars(n));
            assert forall|aid: u32|
                aid < next implies lookup_artist(pushed, aid) == lookup_artist(ars, aid) by {
                lemma_lookup_push(ars, row, aid);
            };
            let last = pushed.len() - 1;
            assert forall|a: int, b: int| 0 <= a < b < pushed.len() implies {
                &&& pushed[a].0 < pushed[b].0
                &&& !eq_nocase(pushed[a].1, pushed[b].1)
            } by {
                if b < last {
                    assert(ars[a].0 < ars[b].0);
                    assert(!eq_nocase(ars[a].1, ars[b].1));
                } else {
                    assert(pushed[a] == ars[a]);
                    assert(ars[a].0 < next);
                    assert(!eq_nocase(ars[a].1, n));
                }
            };
            assert forall|a: int|
                0 <= a < pushed.len() implies (#[trigger] pushed[a]).0 < ((next + 1) as u32) by {
                if a < last {
                    assert(ars[a].0 < next);
                }
            };
        },
    }
}

proof fn lemma_register_names_set(
    ars: Seq<(u32, Seq<char>)>,
    next: u32,
    ls: Seq<(u32, u32)>,
    tid: u32,
    names: Seq<Seq<char>>,
)
    requires
        artists_ok(ars, next),
        links_ok(ls, next),
        next + names.len() <= u32::MAX,
    ensures
        ({
            let reg = register_track_artists(ars, next, ls, tid, names);
            &&& reg.1 >= next
            &&& artists_ok(reg.0, reg.1)
            &&& (forall|aid: u32|
                aid < next ==> lookup_artist(reg.0, aid) == lookup_artist(ars, aid))
            &&& folded_name_set(artists_of(reg.2, reg.0, tid)) == folded_name_set(
                artists_of(ls, reg.0, tid),
            ).union(folded_name_set(names))
        }),
    decreases names.len(),
{
    let reg = register_track_artists(ars, next, ls, tid, names);
    if names.len() == 0 {
        assert(folded_name_set(names) =~= Set::<Seq<char>>::empty());
        assert(folded_name_set(artists_of(ls, ars, tid)).union(folded_name_set(names))
            =~= folded_name_set(artists_of(ls, ars, tid)));
    } else {
        let n = names[0];
        lemma_register_artist_step(ars, next, n);
        let step = register_artist(ars, next, n);
        let ars1 = step.0;
        let next1 = step.1;
        let aid = step.2;
        let ls1 = add_link(ls, (tid, aid));
        let nm = choose|nm: Seq<char>|
            lookup_artist(ars1, aid) == Some(nm) && fold_chars(nm) == fold_chars(n);

        assert(links_ok(ls1, next1)) by {
            if !ls.contains((tid, aid)) {
                assert forall|i: int|
                    0 <= i < ls1.len() implies (#[trigger] ls1[i]).1 < next1 by {
                    if i < ls.len() {
                        assert(ls[i].1 < next);
                    } else {
                        assert(ls1[i] == (tid, aid));
                    }
                };
            } else {
                assert forall|i: int|
                    0 <= i < ls1.len() implies (#[trigger] ls1[i]).1 < next1 by {
                    assert(ls[i].1 < next);
                };
            }
        };
        lemma_register_names_set(ars1, next1, ls1, tid, names.drop_first());
        let fin = reg.0;
        assert(reg == register_track_artists(ars1, next1, ls1, tid, names.drop_first()));
        assert(lookup_artist(fin, aid) == Some(nm));

        let base = folded_name_set(artists_of(ls, fin, tid));
        lemma_folded_set_first(names);
        if ls.contains((tid, aid)) {
            assert(ls1 == ls);
            let w = choose|w: int| 0 <= w < ls.len() && ls[w] == (tid, aid);
            lemma_artists_of_contains(ls, fin, tid, w, nm);
            let names_back = artists_of(ls, fin, tid);
            let w2 = choose|w2: int| 0 <= w2 < names_back.len() && names_back[w2] == nm;
            lemma_folded_set_member(names_back, w2);
            assert(base.contains(fold_chars(n)));
            assert(base.union(folded_name_set(names.drop_first())) =~= base.union(
                folded_name_set(names),
            ));
        } else {
            assert(ls1 == ls.push((tid, aid)));
            assert(ls1.drop_last() =~= ls);
            assert(ls1.last() == (tid, aid));
            assert(artists_of(ls1, fin, tid) == artists_of(ls, fin, tid).push(nm));
            lemma_folded_set_push(artists_of(ls, fin, tid), nm);
            assert(base.insert(fold_chars(n)).union(folded_name_set(names.drop_first()))
                =~= base.union(folded_name_set(names)));
        }
    }
}

/// A track's artist set, as read back through the links after its upsert,
/// equals the set of artist names written, identified up to ASCII case;
/// the stored ordering need not match the written one.
pub proof fn lemma_artists_round_trip(m: StoreModel, t: Track)
    requires
        store_wf(m),
        m.next_artist_id + t.artists@.len() <= u32::MAX,
        forall|i: int| 0 <= i < m.links.len() ==> (#[trigger] m.links[i]).0 != t.id,
    ensures
        ({
            let m1 = apply_insert_one(m, t);
            folded_name_set(artists_of(m1.links, m1.artists, t.id)) == folded_name_set(
                t.artists.deep_view(),
            )
        }),
{
    let names = t.artists.deep_view();
    lemma_register_names_set(m.artists, m.next_artist_id, m.links, t.id, names);
    let reg = register_track_artists(m.artists, m.next_artist_id, m.links, t.id, names);
    lemma_artists_of_absent(m.links, reg.0, t.id);
    assert(folded_name_set(artists_of(m.links, reg.0, t.id)) =~= Set::<Seq<char>>::empty());
    assert(folded_name_set(artists_of(reg.2, reg.0, t.id)) =~= folded_name_set(names));
}

/// `total_artist_names` never counts below zero.
proof fn lemma_total_artist_names_nonneg(ts: Seq<Track>)
    ensures
        total_artist_names(ts) >= 0,
    decreases ts.len(),
{
    if ts.len() > 0 {
        lemma_total_artist_names_nonneg(ts.drop_first());
    }
}

} // verus!

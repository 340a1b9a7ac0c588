//! The catalog store: artists, albums, songs and covers by id, the library root,
//! the playback queue and the playing flag.
use std::collections::HashMap;
use vstd::prelude::*;
use vstd::std_specs::iter::IteratorSpec;
use crate::codec::{cut_at, lemma_cut_split, lemma_cut_split_if, lemma_cut_step, get_text, get_u64, holds_at, put_text, text_bytes, le_bytes, lemma_holds_concat, lemma_holds_prefix, put_u64, CodecError};
use crate::entity::{
    albums_seq_view, artists_seq_view, songs_seq_view, album_bytes, artist_bytes, cover_bytes, song_bytes, Album, AlbumV, Artist, ArtistV, Cover, CoverV, Song,
    SongV,
};
use crate::command::{Command, CommandV};
use crate::random::random_below;
use crate::queue::{appended, children_view, lemma_children_view, lemma_content_view, Queue, QueueAction, QueueContent};
use crate::queue_spec::{
    add_to_end_spec, advance, insert_spec, item_at, remove_spec, replace_at, set_index, ActionShape, ContentV,
    QueueV,
};

verus! {

broadcast use vstd::std_specs::hash::group_hash_axioms;

/// Abstract value of the catalog store.
pub struct DatabaseV {
    pub lib_directory: Seq<char>,
    pub artists: Map<u64, ArtistV>,
    pub albums: Map<u64, AlbumV>,
    pub songs: Map<u64, SongV>,
    pub covers: Map<u64, CoverV>,
    pub queue: QueueV,
    pub playing: bool,
}

pub struct Database {
    pub lib_directory: String,
    artists: HashMap<u64, Artist>,
    albums: HashMap<u64, Album>,
    songs: HashMap<u64, Song>,
    covers: HashMap<u64, Cover>,
    pub queue: Queue,
    pub playing: bool,
}

pub open spec fn artists_view(m: Map<u64, Artist>) -> Map<u64, ArtistV> {
    m.map_values(|a: Artist| a@)
}

pub open spec fn albums_view(m: Map<u64, Album>) -> Map<u64, AlbumV> {
    m.map_values(|a: Album| a@)
}

pub open spec fn songs_view(m: Map<u64, Song>) -> Map<u64, SongV> {
    m.map_values(|s: Song| s@)
}

pub open spec fn covers_view(m: Map<u64, Cover>) -> Map<u64, CoverV> {
    m.map_values(|c: Cover| c@)
}

impl View for Database {
    type V = DatabaseV;

    closed spec fn view(&self) -> DatabaseV {
        DatabaseV {
            lib_directory: self.lib_directory@,
            artists: artists_view(self.artists@),
            albums: albums_view(self.albums@),
            songs: songs_view(self.songs@),
            covers: covers_view(self.covers@),
            queue: self.queue@,
            playing: self.playing,
        }
    }
}

/// `id` is the smallest id that `dom` does not use.
pub open spec fn lowest_free(dom: Set<u64>, id: u64) -> bool {
    &&& !dom.contains(id)
    &&& forall|k: u64| k < id ==> dom.contains(k)
}

/// The store after adding `album` under `id`: the album's artist, if present,
/// lists it last among its albums.
pub open spec fn add_album_spec(db: DatabaseV, album: AlbumV, id: u64) -> DatabaseV {
    let x = album.artist;
    DatabaseV {
        albums: db.albums.insert(id, AlbumV { id, ..album }),
        artists: if db.artists.contains_key(x) {
            db.artists.insert(x, ArtistV { albums: db.artists[x].albums.push(id), ..db.artists[x] })
        } else {
            db.artists
        },
        ..db
    }
}

/// The store after adding `song` under `id`: its album, if set and present, lists
/// it last among its songs; otherwise its artist, if present, among its singles.
pub open spec fn add_song_spec(db: DatabaseV, song: SongV, id: u64) -> DatabaseV {
    let in_album = song.album is Some && db.albums.contains_key(song.album->0);
    let a = song.album->0;
    let x = song.artist;
    DatabaseV {
        songs: db.songs.insert(id, SongV { id, ..song }),
        albums: if in_album {
            db.albums.insert(a, AlbumV { songs: db.albums[a].songs.push(id), ..db.albums[a] })
        } else {
            db.albums
        },
        artists: if !in_album && db.artists.contains_key(x) {
            db.artists.insert(x, ArtistV { singles: db.artists[x].singles.push(id), ..db.artists[x] })
        } else {
            db.artists
        },
        ..db
    }
}

/// Each entity is stored under its own id.
pub open spec fn ids_match(db: DatabaseV) -> bool {
    &&& forall|k: u64| #[trigger] db.artists.contains_key(k) ==> db.artists[k].id == k
    &&& forall|k: u64| #[trigger] db.albums.contains_key(k) ==> db.albums[k].id == k
    &&& forall|k: u64| #[trigger] db.songs.contains_key(k) ==> db.songs[k].id == k
}

/// Every song an album lists exists and names that album; every album an artist
/// lists exists and names that artist.
pub open spec fn links_closed(db: DatabaseV) -> bool {
    &&& forall|a: u64, i: int|
        #![trigger db.albums[a].songs[i]]
        db.albums.contains_key(a) && 0 <= i < db.albums[a].songs.len() ==> {
            let s = db.albums[a].songs[i];
            db.songs.contains_key(s) && db.songs[s].album == Some(db.albums[a].id)
        }
    &&& forall|x: u64, i: int|
        #![trigger db.artists[x].albums[i]]
        db.artists.contains_key(x) && 0 <= i < db.artists[x].albums.len() ==> {
            let al = db.artists[x].albums[i];
            db.albums.contains_key(al) && db.albums[al].artist == db.artists[x].id
        }
}

/// `keys` lists each id of `dom` once.
pub open spec fn enumerates(keys: Seq<u64>, dom: Set<u64>) -> bool {
    &&& keys.no_duplicates()
    &&& keys.to_set() == dom
}

/// Each id of `keys` followed by the encoding of what `m` holds under it.
#[verifier::opaque]
pub open spec fn entries<V>(m: Map<u64, V>, keys: Seq<u64>, enc: spec_fn(V) -> Seq<u8>) -> Seq<u8>
    decreases keys.len(),
{
    if keys.len() == 0 {
        Seq::empty()
    } else {
        entries(m, keys.drop_last(), enc) + (le_bytes(keys.last()) + enc(m[keys.last()]))
    }
}

proof fn lemma_entries_len<V>(m: Map<u64, V>, keys: Seq<u64>, enc: spec_fn(V) -> Seq<u8>)
    ensures
        entries(m, keys, enc).len() >= 8 * keys.len(),
    decreases keys.len(),
{
    reveal(entries);
    if keys.len() > 0 {
        lemma_entries_len(m, keys.drop_last(), enc);
    }
}

proof fn lemma_entries_prefix<V>(m: Map<u64, V>, keys: Seq<u64>, i: int, enc: spec_fn(V) -> Seq<u8>)
    requires
        0 <= i <= keys.len(),
    ensures
        entries(m, keys, enc).len() >= entries(m, keys.subrange(0, i), enc).len(),
        entries(m, keys, enc).subrange(0, entries(m, keys.subrange(0, i), enc).len() as int) == entries(
            m,
            keys.subrange(0, i),
            enc,
        ),
    decreases keys.len() - i,
{
    reveal(entries);
    if i == keys.len() {
        assert(keys.subrange(0, i) =~= keys);
        assert(entries(m, keys, enc).subrange(0, entries(m, keys, enc).len() as int) =~= entries(m, keys, enc));
    } else {
        lemma_entries_prefix(m, keys, i + 1, enc);
        let a = entries(m, keys.subrange(0, i), enc);
        let b = entries(m, keys.subrange(0, i + 1), enc);
        assert(keys.subrange(0, i + 1).drop_last() =~= keys.subrange(0, i));
        assert(entries(m, keys, enc).subrange(0, a.len() as int) =~= b.subrange(0, a.len() as int));
        assert(b.subrange(0, a.len() as int) =~= a);
    }
}

/// Where the entries for `keys` are found, the `i`-th id and value are found right
/// after the entries for the first `i` keys.
proof fn lemma_entries_step<V>(buf: Seq<u8>, pos: int, m: Map<u64, V>, keys: Seq<u64>, i: int, enc: spec_fn(V) -> Seq<u8>)
    requires
        0 <= i < keys.len(),
        holds_at(buf, pos, entries(m, keys, enc)),
    ensures
        entries(m, keys.subrange(0, i + 1), enc) == entries(m, keys.subrange(0, i), enc) + (le_bytes(keys[i]) + enc(m[keys[i]])),
        holds_at(buf, pos + entries(m, keys.subrange(0, i), enc).len(), le_bytes(keys[i])),
        holds_at(buf, pos + entries(m, keys.subrange(0, i), enc).len() + 8, enc(m[keys[i]])),
{
    reveal(entries);
    let a = entries(m, keys.subrange(0, i), enc);
    assert(keys.subrange(0, i + 1).drop_last() =~= keys.subrange(0, i));
    lemma_entries_prefix(m, keys, i + 1, enc);
    lemma_holds_prefix(buf, pos, entries(m, keys.subrange(0, i + 1), enc), entries(m, keys, enc));
    lemma_holds_concat(buf, pos, a, le_bytes(keys[i]) + enc(m[keys[i]]));
    lemma_holds_concat(buf, pos + a.len(), le_bytes(keys[i]), enc(m[keys[i]]));
}

/// Where the entries for `keys` are cut short, after the whole entries for the
/// first `i` keys the `i`-th id is cut short, or found and followed by its value
/// cut short or found whole.
proof fn lemma_entries_cut_step<V>(buf: Seq<u8>, pos: int, m: Map<u64, V>, keys: Seq<u64>, i: int, enc: spec_fn(V) -> Seq<u8>)
    requires
        0 <= i < keys.len(),
        cut_at(buf, pos, entries(m, keys, enc)),
        pos + entries(m, keys.subrange(0, i), enc).len() <= buf.len(),
    ensures
        entries(m, keys.subrange(0, i + 1), enc) == entries(m, keys.subrange(0, i), enc) + (le_bytes(keys[i]) + enc(m[keys[i]])),
        ({
            let q = pos + entries(m, keys.subrange(0, i), enc).len();
            cut_at(buf, q, le_bytes(keys[i])) || (holds_at(buf, q, le_bytes(keys[i])) && (cut_at(buf, q + 8, enc(m[keys[i]]))
                || holds_at(buf, q + 8, enc(m[keys[i]]))))
        }),
{
    let a = entries(m, keys.subrange(0, i), enc);
    let e = le_bytes(keys[i]) + enc(m[keys[i]]);
    lemma_entries_step_shape(m, keys, i, enc);
    lemma_entries_prefix(m, keys, i + 1, enc);
    lemma_cut_step(buf, pos, a, e, entries(m, keys, enc));
    let q = pos + a.len();
    if cut_at(buf, q, e) {
        lemma_cut_split(buf, q, le_bytes(keys[i]), enc(m[keys[i]]));
    } else {
        lemma_holds_concat(buf, q, le_bytes(keys[i]), enc(m[keys[i]]));
    }
}

proof fn lemma_entries_step_shape<V>(m: Map<u64, V>, keys: Seq<u64>, i: int, enc: spec_fn(V) -> Seq<u8>)
    requires
        0 <= i < keys.len(),
    ensures
        entries(m, keys.subrange(0, i + 1), enc) == entries(m, keys.subrange(0, i), enc) + (le_bytes(keys[i]) + enc(m[keys[i]])),
{
    reveal(entries);
    assert(keys.subrange(0, i + 1).drop_last() =~= keys.subrange(0, i));
}

proof fn lemma_restrict_step<V>(m: Map<u64, V>, keys: Seq<u64>, i: int)
    requires
        0 <= i < keys.len(),
        enumerates(keys, m.dom()),
    ensures
        m.restrict(keys.subrange(0, i + 1).to_set()) == m.restrict(keys.subrange(0, i).to_set()).insert(keys[i], m[keys[i]]),
{
    assert(keys.contains(keys[i]));
    assert(keys.subrange(0, i + 1) =~= keys.subrange(0, i).push(keys[i]));
    keys.subrange(0, i).lemma_push_to_set_commute(keys[i]);
    assert(m.restrict(keys.subrange(0, i + 1).to_set()) =~= m.restrict(keys.subrange(0, i).to_set()).insert(keys[i], m[keys[i]]));
}

/// A mapping of artists: its size, then each id and artist in the order of `keys`.
pub open spec fn artist_map_bytes(m: Map<u64, ArtistV>, keys: Seq<u64>) -> Seq<u8> {
    le_bytes(keys.len() as u64) + entries(m, keys, |v: ArtistV| artist_bytes(v))
}

/// Appends the artists mapping, in the order the map hands out its keys.
fn put_artist_map(out: &mut Vec<u8>, m: &HashMap<u64, Artist>) 
    ensures
        exists|keys: Seq<u64>| enumerates(keys, m@.dom()) && final(out)@ == old(out)@ + artist_map_bytes(artists_view(m@), keys),
{
    let ghost mv = artists_view(m@);
    let ghost ks = m.keys().remaining().unref();
    proof {
        ks.unique_seq_to_set();
    }
    put_u64(out, m.len() as u64);
    let ghost start = out@;
    proof {
        reveal(entries);
    }
    for k in it: m.keys()
        invariant
            ks == it.seq().unref(),
            ks.no_duplicates(),
            ks.to_set() == m@.dom(),
            mv == artists_view(m@),
            out@ == start + entries(mv, ks.subrange(0, it.index()), |v: ArtistV| artist_bytes(v)),
    {
        proof {
            assert(ks.contains(*k));
        }
        match m.get(k) {
            Some(v) => {
                put_u64(out, *k);
                v.to_bytes(out);
            },
            None => {},
        }
        proof {
            assert(ks.subrange(0, it.index() + 1).drop_last() =~= ks.subrange(0, it.index()));
            reveal(entries);
            assert(out@ =~= start + entries(mv, ks.subrange(0, it.index() + 1), |v: ArtistV| artist_bytes(v)));
        }
    }
    proof {
        assert(ks.subrange(0, ks.len() as int) =~= ks);
        assert(out@ =~= old(out)@ + artist_map_bytes(mv, ks));
        assert(enumerates(ks, m@.dom()));
    }
}

/// Reads a artists mapping at `pos`; a later entry for an id replaces an earlier one.
#[verifier::rlimit(100)]
fn get_artist_map(buf: &[u8], pos: usize) -> (r: Result<(HashMap<u64, Artist>, usize), CodecError>)
    ensures
        r matches Ok((h, p)) ==> pos < p <= buf@.len(),
        forall|m: Map<u64, ArtistV>, keys: Seq<u64>|
            enumerates(keys, m.dom()) && holds_at(buf@, pos as int, #[trigger] artist_map_bytes(m, keys))
            ==> (r matches Ok((h, p)) && artists_view(h@) == m && p == pos + artist_map_bytes(m, keys).len()),
        forall|m: Map<u64, ArtistV>, keys: Seq<u64>| cut_at(buf@, pos as int, #[trigger] artist_map_bytes(m, keys)) ==> r is Err,
{
    let buf_len = buf.len();
    proof {
        reveal(entries);
        assert forall|m: Map<u64, ArtistV>, keys: Seq<u64>| cut_at(buf@, pos as int, #[trigger] artist_map_bytes(m, keys)) implies
            (cut_at(buf@, pos as int, le_bytes(keys.len() as u64)) || (holds_at(buf@, pos as int, le_bytes(keys.len() as u64))
            && cut_at(buf@, pos + 8, entries(m, keys, |v: ArtistV| artist_bytes(v))))) && keys.len() <= u64::MAX by {
            lemma_cut_split(buf@, pos as int, le_bytes(keys.len() as u64), entries(m, keys, |v: ArtistV| artist_bytes(v)));
            lemma_entries_len(m, keys, |v: ArtistV| artist_bytes(v));
        }
        assert forall|m: Map<u64, ArtistV>, keys: Seq<u64>|
            enumerates(keys, m.dom()) && holds_at(buf@, pos as int, #[trigger] artist_map_bytes(m, keys)) implies
            holds_at(buf@, pos as int, le_bytes(keys.len() as u64))
            && holds_at(buf@, pos + 8, entries(m, keys, |v: ArtistV| artist_bytes(v)))
            && keys.len() <= u64::MAX by {
            lemma_holds_concat(buf@, pos as int, le_bytes(keys.len() as u64), entries(m, keys, |v: ArtistV| artist_bytes(v)));
            lemma_entries_len(m, keys, |v: ArtistV| artist_bytes(v));
        }
    }
    let (count, mut p) = get_u64(buf, pos)?;
    let mut h: HashMap<u64, Artist> = HashMap::new();
    let mut i: u64 = 0;
    while i < count
        invariant
            i <= count,
            pos < p <= buf@.len(),
            forall|m: Map<u64, ArtistV>, keys: Seq<u64>|
                enumerates(keys, m.dom()) && holds_at(buf@, pos as int, #[trigger] artist_map_bytes(m, keys)) ==> {
                    &&& keys.len() == count
                    &&& artists_view(h@) == m.restrict(keys.subrange(0, i as int).to_set())
                    &&& p == pos + 8 + entries(m, keys.subrange(0, i as int), |v: ArtistV| artist_bytes(v)).len()
                    &&& holds_at(buf@, pos + 8, entries(m, keys, |v: ArtistV| artist_bytes(v)))
                },
            forall|m: Map<u64, ArtistV>, keys: Seq<u64>| cut_at(buf@, pos as int, #[trigger] artist_map_bytes(m, keys)) ==> {
                &&& keys.len() == count
                &&& p == pos + 8 + entries(m, keys.subrange(0, i as int), |v: ArtistV| artist_bytes(v)).len()
                &&& cut_at(buf@, pos + 8, entries(m, keys, |v: ArtistV| artist_bytes(v)))
            },
        decreases count - i,
    {
        proof {
            assert forall|m: Map<u64, ArtistV>, keys: Seq<u64>| cut_at(buf@, pos as int, #[trigger] artist_map_bytes(m, keys)) implies
                (entries(m, keys.subrange(0, i + 1), |v: ArtistV| artist_bytes(v)) == entries(m, keys.subrange(0, i as int), |v: ArtistV| artist_bytes(v)) + (le_bytes(keys[i as int]) + artist_bytes(m[keys[i as int]])))
                && (cut_at(buf@, p as int, le_bytes(keys[i as int])) || (holds_at(buf@, p as int, le_bytes(keys[i as int]))
                && (cut_at(buf@, p + 8, artist_bytes(m[keys[i as int]])) || holds_at(buf@, p + 8, artist_bytes(m[keys[i as int]]))))) by {
                lemma_entries_cut_step(buf@, pos + 8, m, keys, i as int, |v: ArtistV| artist_bytes(v));
            }
            assert forall|m: Map<u64, ArtistV>, keys: Seq<u64>|
                enumerates(keys, m.dom()) && holds_at(buf@, pos as int, #[trigger] artist_map_bytes(m, keys)) implies
                holds_at(buf@, p as int, le_bytes(keys[i as int]))
                && holds_at(buf@, p + 8, artist_bytes(m[keys[i as int]])) by {
                lemma_entries_step(buf@, pos + 8, m, keys, i as int, |v: ArtistV| artist_bytes(v));
            }
        }
        let ghost p_old = p;
        let (k, q) = get_u64(buf, p)?;
        let (v, q2) = Artist::from_bytes(buf, q)?;
        let ghost hv = h@;
        h.insert(k, v);
        p = q2;
        i += 1;
        proof {
            assert forall|m: Map<u64, ArtistV>, keys: Seq<u64>| cut_at(buf@, pos as int, #[trigger] artist_map_bytes(m, keys)) implies
                p == pos + 8 + entries(m, keys.subrange(0, i as int), |v: ArtistV| artist_bytes(v)).len() by {
                assert(holds_at(buf@, p_old as int, le_bytes(keys[i - 1])));
                assert(holds_at(buf@, p_old + 8, artist_bytes(m[keys[i - 1]])));
            }
            assert forall|m: Map<u64, ArtistV>, keys: Seq<u64>|
                enumerates(keys, m.dom()) && holds_at(buf@, pos as int, #[trigger] artist_map_bytes(m, keys)) implies
                artists_view(h@) == m.restrict(keys.subrange(0, i as int).to_set())
                && p == pos + 8 + entries(m, keys.subrange(0, i as int), |v: ArtistV| artist_bytes(v)).len() by {
                lemma_entries_step(buf@, pos + 8, m, keys, (i - 1) as int, |v: ArtistV| artist_bytes(v));
                lemma_restrict_step(m, keys, (i - 1) as int);
                assert(artists_view(h@) =~= artists_view(hv).insert(k, v@));
            }
        }
    }
    proof {
        assert forall|m: Map<u64, ArtistV>, keys: Seq<u64>|
            enumerates(keys, m.dom()) && holds_at(buf@, pos as int, #[trigger] artist_map_bytes(m, keys)) implies
            artists_view(h@) == m && p == pos + artist_map_bytes(m, keys).len() by {
            assert(keys.subrange(0, i as int) =~= keys);
            assert(m.restrict(keys.to_set()) =~= m);
        }
    }
    proof {
        assert forall|m: Map<u64, ArtistV>, keys: Seq<u64>| !cut_at(buf@, pos as int, #[trigger] artist_map_bytes(m, keys)) by {
            if cut_at(buf@, pos as int, artist_map_bytes(m, keys)) {
                assert(keys.subrange(0, i as int) =~= keys);
            }
        }
    }
    Ok((h, p))
}

/// A mapping of albums: its size, then each id and album in the order of `keys`.
pub open spec fn album_map_bytes(m: Map<u64, AlbumV>, keys: Seq<u64>) -> Seq<u8> {
    le_bytes(keys.len() as u64) + entries(m, keys, |v: AlbumV| album_bytes(v))
}

/// Appends the albums mapping, in the order the map hands out its keys.
fn put_album_map(out: &mut Vec<u8>, m: &HashMap<u64, Album>) 
    ensures
        exists|keys: Seq<u64>| enumerates(keys, m@.dom()) && final(out)@ == old(out)@ + album_map_bytes(albums_view(m@), keys),
{
    let ghost mv = albums_view(m@);
    let ghost ks = m.keys().remaining().unref();
    proof {
        ks.unique_seq_to_set();
    }
    put_u64(out, m.len() as u64);
    let ghost start = out@;
    proof {
        reveal(entries);
    }
    for k in it: m.keys()
        invariant
            ks == it.seq().unref(),
            ks.no_duplicates(),
            ks.to_set() == m@.dom(),
            mv == albums_view(m@),
            out@ == start + entries(mv, ks.subrange(0, it.index()), |v: AlbumV| album_bytes(v)),
    {
        proof {
            assert(ks.contains(*k));
        }
        match m.get(k) {
            Some(v) => {
                put_u64(out, *k);
                v.to_bytes(out);
            },
            None => {},
        }
        proof {
            assert(ks.subrange(0, it.index() + 1).drop_last() =~= ks.subrange(0, it.index()));
            reveal(entries);
            assert(out@ =~= start + entries(mv, ks.subrange(0, it.index() + 1), |v: AlbumV| album_bytes(v)));
        }
    }
    proof {
        assert(ks.subrange(0, ks.len() as int) =~= ks);
        assert(out@ =~= old(out)@ + album_map_bytes(mv, ks));
        assert(enumerates(ks, m@.dom()));
    }
}

/// Reads a albums mapping at `pos`; a later entry for an id replaces an earlier one.
#[verifier::rlimit(100)]
fn get_album_map(buf: &[u8], pos: usize) -> (r: Result<(HashMap<u64, Album>, usize), CodecError>)
    ensures
        r matches Ok((h, p)) ==> pos < p <= buf@.len(),
        forall|m: Map<u64, AlbumV>, keys: Seq<u64>|
            enumerates(keys, m.dom()) && holds_at(buf@, pos as int, #[trigger] album_map_bytes(m, keys))
            ==> (r matches Ok((h, p)) && albums_view(h@) == m && p == pos + album_map_bytes(m, keys).len()),
        forall|m: Map<u64, AlbumV>, keys: Seq<u64>| cut_at(buf@, pos as int, #[trigger] album_map_bytes(m, keys)) ==> r is Err,
{
    let buf_len = buf.len();
    proof {
        reveal(entries);
        assert forall|m: Map<u64, AlbumV>, keys: Seq<u64>| cut_at(buf@, pos as int, #[trigger] album_map_bytes(m, keys)) implies
            (cut_at(buf@, pos as int, le_bytes(keys.len() as u64)) || (holds_at(buf@, pos as int, le_bytes(keys.len() as u64))
            && cut_at(buf@, pos + 8, entries(m, keys, |v: AlbumV| album_bytes(v))))) && keys.len() <= u64::MAX by {
            lemma_cut_split(buf@, pos as int, le_bytes(keys.len() as u64), entries(m, keys, |v: AlbumV| album_bytes(v)));
            lemma_entries_len(m, keys, |v: AlbumV| album_bytes(v));
        }
        assert forall|m: Map<u64, AlbumV>, keys: Seq<u64>|
            enumerates(keys, m.dom()) && holds_at(buf@, pos as int, #[trigger] album_map_bytes(m, keys)) implies
            holds_at(buf@, pos as int, le_bytes(keys.len() as u64))
            && holds_at(buf@, pos + 8, entries(m, keys, |v: AlbumV| album_bytes(v)))
            && keys.len() <= u64::MAX by {
            lemma_holds_concat(buf@, pos as int, le_bytes(keys.len() as u64), entries(m, keys, |v: AlbumV| album_bytes(v)));
            lemma_entries_len(m, keys, |v: AlbumV| album_bytes(v));
        }
    }
    let (count, mut p) = get_u64(buf, pos)?;
    let mut h: HashMap<u64, Album> = HashMap::new();
    let mut i: u64 = 0;
    while i < count
        invariant
            i <= count,
            pos < p <= buf@.len(),
            forall|m: Map<u64, AlbumV>, keys: Seq<u64>|
                enumerates(keys, m.dom()) && holds_at(buf@, pos as int, #[trigger] album_map_bytes(m, keys)) ==> {
                    &&& keys.len() == count
                    &&& albums_view(h@) == m.restrict(keys.subrange(0, i as int).to_set())
                    &&& p == pos + 8 + entries(m, keys.subrange(0, i as int), |v: AlbumV| album_bytes(v)).len()
                    &&& holds_at(buf@, pos + 8, entries(m, keys, |v: AlbumV| album_bytes(v)))
                },
            forall|m: Map<u64, AlbumV>, keys: Seq<u64>| cut_at(buf@, pos as int, #[trigger] album_map_bytes(m, keys)) ==> {
                &&& keys.len() == count
                &&& p == pos + 8 + entries(m, keys.subrange(0, i as int), |v: AlbumV| album_bytes(v)).len()
                &&& cut_at(buf@, pos + 8, entries(m, keys, |v: AlbumV| album_bytes(v)))
            },
        decreases count - i,
    {
        proof {
            assert forall|m: Map<u64, AlbumV>, keys: Seq<u64>| cut_at(buf@, pos as int, #[trigger] album_map_bytes(m, keys)) implies
                (entries(m, keys.subrange(0, i + 1), |v: AlbumV| album_bytes(v)) == entries(m, keys.subrange(0, i as int), |v: AlbumV| album_bytes(v)) + (le_bytes(keys[i as int]) + album_bytes(m[keys[i as int]])))
                && (cut_at(buf@, p as int, le_bytes(keys[i as int])) || (holds_at(buf@, p as int, le_bytes(keys[i as int]))
                && (cut_at(buf@, p + 8, album_bytes(m[keys[i as int]])) || holds_at(buf@, p + 8, album_bytes(m[keys[i as int]]))))) by {
                lemma_entries_cut_step(buf@, pos + 8, m, keys, i as int, |v: AlbumV| album_bytes(v));
            }
            assert forall|m: Map<u64, AlbumV>, keys: Seq<u64>|
                enumerates(keys, m.dom()) && holds_at(buf@, pos as int, #[trigger] album_map_bytes(m, keys)) implies
                holds_at(buf@, p as int, le_bytes(keys[i as int]))
                && holds_at(buf@, p + 8, album_bytes(m[keys[i as int]])) by {
                lemma_entries_step(buf@, pos + 8, m, keys, i as int, |v: AlbumV| album_bytes(v));
            }
        }
        let ghost p_old = p;
        let (k, q) = get_u64(buf, p)?;
        let (v, q2) = Album::from_bytes(buf, q)?;
        let ghost hv = h@;
        h.insert(k, v);
        p = q2;
        i += 1;
        proof {
            assert forall|m: Map<u64, AlbumV>, keys: Seq<u64>| cut_at(buf@, pos as int, #[trigger] album_map_bytes(m, keys)) implies
                p == pos + 8 + entries(m, keys.subrange(0, i as int), |v: AlbumV| album_bytes(v)).len() by {
                assert(holds_at(buf@, p_old as int, le_bytes(keys[i - 1])));
                assert(holds_at(buf@, p_old + 8, album_bytes(m[keys[i - 1]])));
            }
            assert forall|m: Map<u64, AlbumV>, keys: Seq<u64>|
                enumerates(keys, m.dom()) && holds_at(buf@, pos as int, #[trigger] album_map_bytes(m, keys)) implies
                albums_view(h@) == m.restrict(keys.subrange(0, i as int).to_set())
                && p == pos + 8 + entries(m, keys.subrange(0, i as int), |v: AlbumV| album_bytes(v)).len() by {
                lemma_entries_step(buf@, pos + 8, m, keys, (i - 1) as int, |v: AlbumV| album_bytes(v));
                lemma_restrict_step(m, keys, (i - 1) as int);
                assert(albums_view(h@) =~= albums_view(hv).insert(k, v@));
            }
        }
    }
    proof {
        assert forall|m: Map<u64, AlbumV>, keys: Seq<u64>|
            enumerates(keys, m.dom()) && holds_at(buf@, pos as int, #[trigger] album_map_bytes(m, keys)) implies
            albums_view(h@) == m && p == pos + album_map_bytes(m, keys).len() by {
            assert(keys.subrange(0, i as int) =~= keys);
            assert(m.restrict(keys.to_set()) =~= m);
        }
    }
    proof {
        assert forall|m: Map<u64, AlbumV>, keys: Seq<u64>| !cut_at(buf@, pos as int, #[trigger] album_map_bytes(m, keys)) by {
            if cut_at(buf@, pos as int, album_map_bytes(m, keys)) {
                assert(keys.subrange(0, i as int) =~= keys);
            }
        }
    }
    Ok((h, p))
}

/// A mapping of songs: its size, then each id and song in the order of `keys`.
pub open spec fn song_map_bytes(m: Map<u64, SongV>, keys: Seq<u64>) -> Seq<u8> {
    le_bytes(keys.len() as u64) + entries(m, keys, |v: SongV| song_bytes(v))
}

/// Appends the songs mapping, in the order the map hands out its keys.
fn put_song_map(out: &mut Vec<u8>, m: &HashMap<u64, Song>) 
    ensures
        exists|keys: Seq<u64>| enumerates(keys, m@.dom()) && final(out)@ == old(out)@ + song_map_bytes(songs_view(m@), keys),
{
    let ghost mv = songs_view(m@);
    let ghost ks = m.keys().remaining().unref();
    proof {
        ks.unique_seq_to_set();
    }
    put_u64(out, m.len() as u64);
    let ghost start = out@;
    proof {
        reveal(entries);
    }
    for k in it: m.keys()
        invariant
            ks == it.seq().unref(),
            ks.no_duplicates(),
            ks.to_set() == m@.dom(),
            mv == songs_view(m@),
            out@ == start + entries(mv, ks.subrange(0, it.index()), |v: SongV| song_bytes(v)),
    {
        proof {
            assert(ks.contains(*k));
        }
        match m.get(k) {
            Some(v) => {
                put_u64(out, *k);
                v.to_bytes(out);
            },
            None => {},
        }
        proof {
            assert(ks.subrange(0, it.index() + 1).drop_last() =~= ks.subrange(0, it.index()));
            reveal(entries);
            assert(out@ =~= start + entries(mv, ks.subrange(0, it.index() + 1), |v: SongV| song_bytes(v)));
        }
    }
    proof {
        assert(ks.subrange(0, ks.len() as int) =~= ks);
        assert(out@ =~= old(out)@ + song_map_bytes(mv, ks));
        assert(enumerates(ks, m@.dom()));
    }
}

/// Reads a songs mapping at `pos`; a later entry for an id replaces an earlier one.
#[verifier::rlimit(100)]
fn get_song_map(buf: &[u8], pos: usize) -> (r: Result<(HashMap<u64, Song>, usize), CodecError>)
    ensures
        r matches Ok((h, p)) ==> pos < p <= buf@.len(),
        forall|m: Map<u64, SongV>, keys: Seq<u64>|
            enumerates(keys, m.dom()) && holds_at(buf@, pos as int, #[trigger] song_map_bytes(m, keys))
            ==> (r matches Ok((h, p)) && songs_view(h@) == m && p == pos + song_map_bytes(m, keys).len()),
        forall|m: Map<u64, SongV>, keys: Seq<u64>| cut_at(buf@, pos as int, #[trigger] song_map_bytes(m, keys)) ==> r is Err,
{
    let buf_len = buf.len();
    proof {
        reveal(entries);
        assert forall|m: Map<u64, SongV>, keys: Seq<u64>| cut_at(buf@, pos as int, #[trigger] song_map_bytes(m, keys)) implies
            (cut_at(buf@, pos as int, le_bytes(keys.len() as u64)) || (holds_at(buf@, pos as int, le_bytes(keys.len() as u64))
            && cut_at(buf@, pos + 8, entries(m, keys, |v: SongV| song_bytes(v))))) && keys.len() <= u64::MAX by {
            lemma_cut_split(buf@, pos as int, le_bytes(keys.len() as u64), entries(m, keys, |v: SongV| song_bytes(v)));
            lemma_entries_len(m, keys, |v: SongV| song_bytes(v));
        }
        assert forall|m: Map<u64, SongV>, keys: Seq<u64>|
            enumerates(keys, m.dom()) && holds_at(buf@, pos as int, #[trigger] song_map_bytes(m, keys)) implies
            holds_at(buf@, pos as int, le_bytes(keys.len() as u64))
            && holds_at(buf@, pos + 8, entries(m, keys, |v: SongV| song_bytes(v)))
            && keys.len() <= u64::MAX by {
            lemma_holds_concat(buf@, pos as int, le_bytes(keys.len() as u64), entries(m, keys, |v: SongV| song_bytes(v)));
            lemma_entries_len(m, keys, |v: SongV| song_bytes(v));
        }
    }
    let (count, mut p) = get_u64(buf, pos)?;
    let mut h: HashMap<u64, Song> = HashMap::new();
    let mut i: u64 = 0;
    while i < count
        invariant
            i <= count,
            pos < p <= buf@.len(),
            forall|m: Map<u64, SongV>, keys: Seq<u64>|
                enumerates(keys, m.dom()) && holds_at(buf@, pos as int, #[trigger] song_map_bytes(m, keys)) ==> {
                    &&& keys.len() == count
                    &&& songs_view(h@) == m.restrict(keys.subrange(0, i as int).to_set())
                    &&& p == pos + 8 + entries(m, keys.subrange(0, i as int), |v: SongV| song_bytes(v)).len()
                    &&& holds_at(buf@, pos + 8, entries(m, keys, |v: SongV| song_bytes(v)))
                },
            forall|m: Map<u64, SongV>, keys: Seq<u64>| cut_at(buf@, pos as int, #[trigger] song_map_bytes(m, keys)) ==> {
                &&& keys.len() == count
                &&& p == pos + 8 + entries(m, keys.subrange(0, i as int), |v: SongV| song_bytes(v)).len()
                &&& cut_at(buf@, pos + 8, entries(m, keys, |v: SongV| song_bytes(v)))
            },
        decreases count - i,
    {
        proof {
            assert forall|m: Map<u64, SongV>, keys: Seq<u64>| cut_at(buf@, pos as int, #[trigger] song_map_bytes(m, keys)) implies
                (entries(m, keys.subrange(0, i + 1), |v: SongV| song_bytes(v)) == entries(m, keys.subrange(0, i as int), |v: SongV| song_bytes(v)) + (le_bytes(keys[i as int]) + song_bytes(m[keys[i as int]])))
                && (cut_at(buf@, p as int, le_bytes(keys[i as int])) || (holds_at(buf@, p as int, le_bytes(keys[i as int]))
                && (cut_at(buf@, p + 8, song_bytes(m[keys[i as int]])) || holds_at(buf@, p + 8, song_bytes(m[keys[i as int]]))))) by {
                lemma_entries_cut_step(buf@, pos + 8, m, keys, i as int, |v: SongV| song_bytes(v));
            }
            assert forall|m: Map<u64, SongV>, keys: Seq<u64>|
                enumerates(keys, m.dom()) && holds_at(buf@, pos as int, #[trigger] song_map_bytes(m, keys)) implies
                holds_at(buf@, p as int, le_bytes(keys[i as int]))
                && holds_at(buf@, p + 8, song_bytes(m[keys[i as int]])) by {
                lemma_entries_step(buf@, pos + 8, m, keys, i as int, |v: SongV| song_bytes(v));
            }
        }
        let ghost p_old = p;
        let (k, q) = get_u64(buf, p)?;
        let (v, q2) = Song::from_bytes(buf, q)?;
        let ghost hv = h@;
        h.insert(k, v);
        p = q2;
        i += 1;
        proof {
            assert forall|m: Map<u64, SongV>, keys: Seq<u64>| cut_at(buf@, pos as int, #[trigger] song_map_bytes(m, keys)) implies
                p == pos + 8 + entries(m, keys.subrange(0, i as int), |v: SongV| song_bytes(v)).len() by {
                assert(holds_at(buf@, p_old as int, le_bytes(keys[i - 1])));
                assert(holds_at(buf@, p_old + 8, song_bytes(m[keys[i - 1]])));
            }
            assert forall|m: Map<u64, SongV>, keys: Seq<u64>|
                enumerates(keys, m.dom()) && holds_at(buf@, pos as int, #[trigger] song_map_bytes(m, keys)) implies
                songs_view(h@) == m.restrict(keys.subrange(0, i as int).to_set())
                && p == pos + 8 + entries(m, keys.subrange(0, i as int), |v: SongV| song_bytes(v)).len() by {
                lemma_entries_step(buf@, pos + 8, m, keys, (i - 1) as int, |v: SongV| song_bytes(v));
                lemma_restrict_step(m, keys, (i - 1) as int);
                assert(songs_view(h@) =~= songs_view(hv).insert(k, v@));
            }
        }
    }
    proof {
        assert forall|m: Map<u64, SongV>, keys: Seq<u64>|
            enumerates(keys, m.dom()) && holds_at(buf@, pos as int, #[trigger] song_map_bytes(m, keys)) implies
            songs_view(h@) == m && p == pos + song_map_bytes(m, keys).len() by {
            assert(keys.subrange(0, i as int) =~= keys);
            assert(m.restrict(keys.to_set()) =~= m);
        }
    }
    proof {
        assert forall|m: Map<u64, SongV>, keys: Seq<u64>| !cut_at(buf@, pos as int, #[trigger] song_map_bytes(m, keys)) by {
            if cut_at(buf@, pos as int, song_map_bytes(m, keys)) {
                assert(keys.subrange(0, i as int) =~= keys);
            }
        }
    }
    Ok((h, p))
}

/// A mapping of covers: its size, then each id and cover in the order of `keys`.
pub open spec fn cover_map_bytes(m: Map<u64, CoverV>, keys: Seq<u64>) -> Seq<u8> {
    le_bytes(keys.len() as u64) + entries(m, keys, |v: CoverV| cover_bytes(v))
}

/// Appends the covers mapping, in the order the map hands out its keys.
fn put_cover_map(out: &mut Vec<u8>, m: &HashMap<u64, Cover>) 
    ensures
        exists|keys: Seq<u64>| enumerates(keys, m@.dom()) && final(out)@ == old(out)@ + cover_map_bytes(covers_view(m@), keys),
{
    let ghost mv = covers_view(m@);
    let ghost ks = m.keys().remaining().unref();
    proof {
        ks.unique_seq_to_set();
    }
    put_u64(out, m.len() as u64);
    let ghost start = out@;
    proof {
        reveal(entries);
    }
    for k in it: m.keys()
        invariant
            ks == it.seq().unref(),
            ks.no_duplicates(),
            ks.to_set() == m@.dom(),
            mv == covers_view(m@),
            out@ == start + entries(mv, ks.subrange(0, it.index()), |v: CoverV| cover_bytes(v)),
    {
        proof {
            assert(ks.contains(*k));
        }
        match m.get(k) {
            Some(v) => {
                put_u64(out, *k);
                v.to_bytes(out);
            },
            None => {},
        }
        proof {
            assert(ks.subrange(0, it.index() + 1).drop_last() =~= ks.subrange(0, it.index()));
            reveal(entries);
            assert(out@ =~= start + entries(mv, ks.subrange(0, it.index() + 1), |v: CoverV| cover_bytes(v)));
        }
    }
    proof {
        assert(ks.subrange(0, ks.len() as int) =~= ks);
        assert(out@ =~= old(out)@ + cover_map_bytes(mv, ks));
        assert(enumerates(ks, m@.dom()));
    }
}

/// Reads a covers mapping at `pos`; a later entry for an id replaces an earlier one.
#[verifier::rlimit(100)]
fn get_cover_map(buf: &[u8], pos: usize) -> (r: Result<(HashMap<u64, Cover>, usize), CodecError>)
    ensures
        r matches Ok((h, p)) ==> pos < p <= buf@.len(),
        forall|m: Map<u64, CoverV>, keys: Seq<u64>|
            enumerates(keys, m.dom()) && holds_at(buf@, pos as int, #[trigger] cover_map_bytes(m, keys))
            ==> (r matches Ok((h, p)) && covers_view(h@) == m && p == pos + cover_map_bytes(m, keys).len()),
        forall|m: Map<u64, CoverV>, keys: Seq<u64>| cut_at(buf@, pos as int, #[trigger] cover_map_bytes(m, keys)) ==> r is Err,
{
    let buf_len = buf.len();
    proof {
        reveal(entries);
        assert forall|m: Map<u64, CoverV>, keys: Seq<u64>| cut_at(buf@, pos as int, #[trigger] cover_map_bytes(m, keys)) implies
            (cut_at(buf@, pos as int, le_bytes(keys.len() as u64)) || (holds_at(buf@, pos as int, le_bytes(keys.len() as u64))
            && cut_at(buf@, pos + 8, entries(m, keys, |v: CoverV| cover_bytes(v))))) && keys.len() <= u64::MAX by {
            lemma_cut_split(buf@, pos as int, le_bytes(keys.len() as u64), entries(m, keys, |v: CoverV| cover_bytes(v)));
            lemma_entries_len(m, keys, |v: CoverV| cover_bytes(v));
        }
        assert forall|m: Map<u64, CoverV>, keys: Seq<u64>|
            enumerates(keys, m.dom()) && holds_at(buf@, pos as int, #[trigger] cover_map_bytes(m, keys)) implies
            holds_at(buf@, pos as int, le_bytes(keys.len() as u64))
            && holds_at(buf@, pos + 8, entries(m, keys, |v: CoverV| cover_bytes(v)))
            && keys.len() <= u64::MAX by {
            lemma_holds_concat(buf@, pos as int, le_bytes(keys.len() as u64), entries(m, keys, |v: CoverV| cover_bytes(v)));
            lemma_entries_len(m, keys, |v: CoverV| cover_bytes(v));
        }
    }
    let (count, mut p) = get_u64(buf, pos)?;
    let mut h: HashMap<u64, Cover> = HashMap::new();
    let mut i: u64 = 0;
    while i < count
        invariant
            i <= count,
            pos < p <= buf@.len(),
            forall|m: Map<u64, CoverV>, keys: Seq<u64>|
                enumerates(keys, m.dom()) && holds_at(buf@, pos as int, #[trigger] cover_map_bytes(m, keys)) ==> {
                    &&& keys.len() == count
                    &&& covers_view(h@) == m.restrict(keys.subrange(0, i as int).to_set())
                    &&& p == pos + 8 + entries(m, keys.subrange(0, i as int), |v: CoverV| cover_bytes(v)).len()
                    &&& holds_at(buf@, pos + 8, entries(m, keys, |v: CoverV| cover_bytes(v)))
                },
            forall|m: Map<u64, CoverV>, keys: Seq<u64>| cut_at(buf@, pos as int, #[trigger] cover_map_bytes(m, keys)) ==> {
                &&& keys.len() == count
                &&& p == pos + 8 + entries(m, keys.subrange(0, i as int), |v: CoverV| cover_bytes(v)).len()
                &&& cut_at(buf@, pos + 8, entries(m, keys, |v: CoverV| cover_bytes(v)))
            },
        decreases count - i,
    {
        proof {
            assert forall|m: Map<u64, CoverV>, keys: Seq<u64>| cut_at(buf@, pos as int, #[trigger] cover_map_bytes(m, keys)) implies
                (entries(m, keys.subrange(0, i + 1), |v: CoverV| cover_bytes(v)) == entries(m, keys.subrange(0, i as int), |v: CoverV| cover_bytes(v)) + (le_bytes(keys[i as int]) + cover_bytes(m[keys[i as int]])))
                && (cut_at(buf@, p as int, le_bytes(keys[i as int])) || (holds_at(buf@, p as int, le_bytes(keys[i as int]))
                && (cut_at(buf@, p + 8, cover_bytes(m[keys[i as int]])) || holds_at(buf@, p + 8, cover_bytes(m[keys[i as int]]))))) by {
                lemma_entries_cut_step(buf@, pos + 8, m, keys, i as int, |v: CoverV| cover_bytes(v));
            }
            assert forall|m: Map<u64, CoverV>, keys: Seq<u64>|
                enumerates(keys, m.dom()) && holds_at(buf@, pos as int, #[trigger] cover_map_bytes(m, keys)) implies
                holds_at(buf@, p as int, le_bytes(keys[i as int]))
                && holds_at(buf@, p + 8, cover_bytes(m[keys[i as int]])) by {
                lemma_entries_step(buf@, pos + 8, m, keys, i as int, |v: CoverV| cover_bytes(v));
            }
        }
        let ghost p_old = p;
        let (k, q) = get_u64(buf, p)?;
        let (v, q2) = Cover::from_bytes(buf, q)?;
        let ghost hv = h@;
        h.insert(k, v);
        p = q2;
        i += 1;
        proof {
            assert forall|m: Map<u64, CoverV>, keys: Seq<u64>| cut_at(buf@, pos as int, #[trigger] cover_map_bytes(m, keys)) implies
                p == pos + 8 + entries(m, keys.subrange(0, i as int), |v: CoverV| cover_bytes(v)).len() by {
                assert(holds_at(buf@, p_old as int, le_bytes(keys[i - 1])));
                assert(holds_at(buf@, p_old + 8, cover_bytes(m[keys[i - 1]])));
            }
            assert forall|m: Map<u64, CoverV>, keys: Seq<u64>|
                enumerates(keys, m.dom()) && holds_at(buf@, pos as int, #[trigger] cover_map_bytes(m, keys)) implies
                covers_view(h@) == m.restrict(keys.subrange(0, i as int).to_set())
                && p == pos + 8 + entries(m, keys.subrange(0, i as int), |v: CoverV| cover_bytes(v)).len() by {
                lemma_entries_step(buf@, pos + 8, m, keys, (i - 1) as int, |v: CoverV| cover_bytes(v));
                lemma_restrict_step(m, keys, (i - 1) as int);
                assert(covers_view(h@) =~= covers_view(hv).insert(k, v@));
            }
        }
    }
    proof {
        assert forall|m: Map<u64, CoverV>, keys: Seq<u64>|
            enumerates(keys, m.dom()) && holds_at(buf@, pos as int, #[trigger] cover_map_bytes(m, keys)) implies
            covers_view(h@) == m && p == pos + cover_map_bytes(m, keys).len() by {
            assert(keys.subrange(0, i as int) =~= keys);
            assert(m.restrict(keys.to_set()) =~= m);
        }
    }
    proof {
        assert forall|m: Map<u64, CoverV>, keys: Seq<u64>| !cut_at(buf@, pos as int, #[trigger] cover_map_bytes(m, keys)) by {
            if cut_at(buf@, pos as int, cover_map_bytes(m, keys)) {
                assert(keys.subrange(0, i as int) =~= keys);
            }
        }
    }
    Ok((h, p))
}

/// The snapshot of a store: library root, then the artist, album, song and cover
/// mappings, each in the order of its key sequence.
pub open spec fn snapshot_bytes(db: DatabaseV, ka: Seq<u64>, kb: Seq<u64>, ks: Seq<u64>, kc: Seq<u64>) -> Seq<u8> {
    text_bytes(db.lib_directory) + (artist_map_bytes(db.artists, ka) + (album_map_bytes(db.albums, kb) + (
    song_map_bytes(db.songs, ks) + cover_map_bytes(db.covers, kc))))
}

/// Each key sequence lists the ids of its mapping once.
pub open spec fn snapshot_keys(db: DatabaseV, ka: Seq<u64>, kb: Seq<u64>, ks: Seq<u64>, kc: Seq<u64>) -> bool {
    &&& enumerates(ka, db.artists.dom())
    &&& enumerates(kb, db.albums.dom())
    &&& enumerates(ks, db.songs.dom())
    &&& enumerates(kc, db.covers.dom())
}

#[verifier::rlimit(100)]
proof fn lemma_snapshot_layout(
    v: DatabaseV,
    ma: Map<u64, Artist>,
    mb: Map<u64, Album>,
    ms: Map<u64, Song>,
    mc: Map<u64, Cover>,
    o1: Seq<u8>,
    o2: Seq<u8>,
    o3: Seq<u8>,
    o4: Seq<u8>,
    o5: Seq<u8>,
)
    requires
        v.artists == artists_view(ma),
        v.albums == albums_view(mb),
        v.songs == songs_view(ms),
        v.covers == covers_view(mc),
        o1 == text_bytes(v.lib_directory),
        exists|k: Seq<u64>| enumerates(k, ma.dom()) && o2 == o1 + artist_map_bytes(artists_view(ma), k),
        exists|k: Seq<u64>| enumerates(k, mb.dom()) && o3 == o2 + album_map_bytes(albums_view(mb), k),
        exists|k: Seq<u64>| enumerates(k, ms.dom()) && o4 == o3 + song_map_bytes(songs_view(ms), k),
        exists|k: Seq<u64>| enumerates(k, mc.dom()) && o5 == o4 + cover_map_bytes(covers_view(mc), k),
    ensures
        exists|ka: Seq<u64>, kb: Seq<u64>, ks: Seq<u64>, kc: Seq<u64>|
            snapshot_keys(v, ka, kb, ks, kc) && o5 == snapshot_bytes(v, ka, kb, ks, kc),
{
    let ka = choose|k: Seq<u64>| enumerates(k, ma.dom()) && o2 == o1 + artist_map_bytes(artists_view(ma), k);
    let kb = choose|k: Seq<u64>| enumerates(k, mb.dom()) && o3 == o2 + album_map_bytes(albums_view(mb), k);
    let ks = choose|k: Seq<u64>| enumerates(k, ms.dom()) && o4 == o3 + song_map_bytes(songs_view(ms), k);
    let kc = choose|k: Seq<u64>| enumerates(k, mc.dom()) && o5 == o4 + cover_map_bytes(covers_view(mc), k);
    let a = artist_map_bytes(v.artists, ka);
    let b = album_map_bytes(v.albums, kb);
    let c = song_map_bytes(v.songs, ks);
    let d = cover_map_bytes(v.covers, kc);
    assert(o2 == o1 + a);
    assert(o3 == o2 + b);
    assert(o4 == o3 + c);
    assert(o5 == o4 + d);
    assert(o5 =~= o1 + (a + (b + (c + d))));
    assert(snapshot_bytes(v, ka, kb, ks, kc) == o1 + (a + (b + (c + d))));
    assert(v.artists.dom() =~= ma.dom());
    assert(v.albums.dom() =~= mb.dom());
    assert(v.songs.dom() =~= ms.dom());
    assert(v.covers.dom() =~= mc.dom());
    assert(snapshot_keys(v, ka, kb, ks, kc));
}

proof fn lemma_apply_all_step(db: DatabaseV, cs: Seq<CommandV>, k: int)
    requires
        0 < k <= cs.len(),
    ensures
        apply_all(db, cs.subrange(0, k)) == apply(apply_all(db, cs.subrange(0, k - 1)), cs[k - 1]),
{
    assert(cs.subrange(0, k).drop_last() =~= cs.subrange(0, k - 1));
}

/// A subscriber that applies the initial commands holds the server's state, when
/// the server stores each entity under its id, and the subscriber had the server's
/// covers (which the initial commands do not carry) and was not playing.
#[verifier::rlimit(100)]
pub proof fn lemma_init_mirrors(server: DatabaseV, client: DatabaseV, init: Seq<CommandV>)
    requires
        ids_match(server),
        init_sequence(server, init),
        client.covers == server.covers,
        !client.playing,
    ensures
        apply_all(client, init) == server,
{
    let n = init.len() as int;
    assert(init.subrange(0, 0) =~= Seq::<CommandV>::empty());
    lemma_apply_all_step(client, init, 1);
    let c1 = apply_all(client, init.subrange(0, 1));
    if let CommandV::SyncDatabase(a, b, s) = init[0] {
        let (ka, kb, ks) = choose|ka: Seq<u64>, kb: Seq<u64>, ks: Seq<u64>|
            enumerates(ka, server.artists.dom()) && enumerates(kb, server.albums.dom()) && enumerates(ks, server.songs.dom())
                && lists_values(server.artists, ka, a) && lists_values(server.albums, kb, b) && lists_values(server.songs, ks, s);
        lemma_artists_by_id(server.artists, ka, a);
        lemma_albums_by_id(server.albums, kb, b);
        lemma_songs_by_id(server.songs, ks, s);
        assert(server.artists.restrict(ka.to_set()) =~= server.artists);
        assert(server.albums.restrict(kb.to_set()) =~= server.albums);
        assert(server.songs.restrict(ks.to_set()) =~= server.songs);
    }
    lemma_apply_all_step(client, init, 2);
    let c2 = apply_all(client, init.subrange(0, 2));
    assert(item_at(c1.queue, Seq::empty(), 0) == Some(c1.queue));
    assert(c2.queue == server.queue);
    let mut k: int = 2;
    if server.playing {
        lemma_apply_all_step(client, init, 3);
        k = 3;
    }
    lemma_apply_all_step(client, init, k + 1);
    lemma_apply_all_step(client, init, k + 2);
    assert(init.subrange(0, n) =~= init);
    assert(apply_all(client, init) =~~= server);
}

/// A subscriber that starts from the initial commands and then applies every
/// command the server applies, in the same order, holds the server's state after
/// each of them (see `lemma_init_mirrors` for what it needs at the start).
pub proof fn lemma_subscriber_mirrors(server: DatabaseV, client: DatabaseV, init: Seq<CommandV>, cs: Seq<CommandV>)
    requires
        ids_match(server),
        init_sequence(server, init),
        client.covers == server.covers,
        !client.playing,
    ensures
        apply_all(apply_all(client, init), cs) == apply_all(server, cs),
{
    lemma_init_mirrors(server, client, init);
    lemma_replicas_agree(apply_all(client, init), server, cs);
}

/// The lowest id that `dom` does not use.
pub open spec fn next_id(dom: Set<u64>) -> u64 {
    choose|id: u64| lowest_free(dom, id)
}

proof fn lemma_next_id(dom: Set<u64>, id: u64)
    requires
        lowest_free(dom, id),
    ensures
        next_id(dom) == id,
{
    let c = next_id(dom);
    assert(lowest_free(dom, c));
    if c < id {
        assert(dom.contains(c));
    } else if id < c {
        assert(dom.contains(id));
    }
}

/// `vals` lists what `m` holds under each of `keys`, in order.
pub open spec fn lists_values<V>(m: Map<u64, V>, keys: Seq<u64>, vals: Seq<V>) -> bool {
    &&& vals.len() == keys.len()
    &&& forall|i: int| 0 <= i < keys.len() ==> #[trigger] vals[i] == m[keys[i]]
}

/// A mapping from a sequence of artists, each under its id; a later one replaces
/// an earlier one with the same id.
pub open spec fn artists_by_id(s: Seq<ArtistV>) -> Map<u64, ArtistV>
    decreases s.len(),
{
    if s.len() == 0 {
        Map::empty()
    } else {
        artists_by_id(s.drop_last()).insert(s.last().id, s.last())
    }
}

proof fn lemma_artists_by_id(m: Map<u64, ArtistV>, keys: Seq<u64>, vals: Seq<ArtistV>)
    requires
        lists_values(m, keys, vals),
        keys.to_set().subset_of(m.dom()),
        forall|k: u64| #[trigger] m.contains_key(k) ==> m[k].id == k,
    ensures
        artists_by_id(vals) == m.restrict(keys.to_set()),
    decreases keys.len(),
{
    if keys.len() == 0 {
        assert(keys.to_set() =~= Set::<u64>::empty());
        assert(m.restrict(keys.to_set()) =~= Map::<u64, ArtistV>::empty());
    } else {
        let pre = keys.drop_last();
        let k = keys.last();
        assert(keys =~= pre.push(k));
        pre.lemma_push_to_set_commute(k);
        assert(keys.contains(k));
        assert(pre.to_set().subset_of(keys.to_set()));
        lemma_artists_by_id(m, pre, vals.drop_last());
        assert(vals.last() == m[k]);
        assert(m.contains_key(k));
        assert(vals.last().id == k);
        assert(vals.drop_last().len() == pre.len());
        assert(artists_by_id(vals) == artists_by_id(vals.drop_last()).insert(k, m[k]));
        assert(keys.to_set() == pre.to_set().insert(k));
        assert(artists_by_id(vals) =~= m.restrict(keys.to_set()));
    }
}

/// A mapping from a sequence of albums, each under its id; a later one replaces
/// an earlier one with the same id.
pub open spec fn albums_by_id(s: Seq<AlbumV>) -> Map<u64, AlbumV>
    decreases s.len(),
{
    if s.len() == 0 {
        Map::empty()
    } else {
        albums_by_id(s.drop_last()).insert(s.last().id, s.last())
    }
}

proof fn lemma_albums_by_id(m: Map<u64, AlbumV>, keys: Seq<u64>, vals: Seq<AlbumV>)
    requires
        lists_values(m, keys, vals),
        keys.to_set().subset_of(m.dom()),
        forall|k: u64| #[trigger] m.contains_key(k) ==> m[k].id == k,
    ensures
        albums_by_id(vals) == m.restrict(keys.to_set()),
    decreases keys.len(),
{
    if keys.len() == 0 {
        assert(keys.to_set() =~= Set::<u64>::empty());
        assert(m.restrict(keys.to_set()) =~= Map::<u64, AlbumV>::empty());
    } else {
        let pre = keys.drop_last();
        let k = keys.last();
        assert(keys =~= pre.push(k));
        pre.lemma_push_to_set_commute(k);
        assert(keys.contains(k));
        assert(pre.to_set().subset_of(keys.to_set()));
        lemma_albums_by_id(m, pre, vals.drop_last());
        assert(vals.last() == m[k]);
        assert(m.contains_key(k));
        assert(vals.last().id == k);
        assert(vals.drop_last().len() == pre.len());
        assert(albums_by_id(vals) == albums_by_id(vals.drop_last()).insert(k, m[k]));
        assert(keys.to_set() == pre.to_set().insert(k));
        assert(albums_by_id(vals) =~= m.restrict(keys.to_set()));
    }
}

/// A mapping from a sequence of songs, each under its id; a later one replaces
/// an earlier one with the same id.
pub open spec fn songs_by_id(s: Seq<SongV>) -> Map<u64, SongV>
    decreases s.len(),
{
    if s.len() == 0 {
        Map::empty()
    } else {
        songs_by_id(s.drop_last()).insert(s.last().id, s.last())
    }
}

proof fn lemma_songs_by_id(m: Map<u64, SongV>, keys: Seq<u64>, vals: Seq<SongV>)
    requires
        lists_values(m, keys, vals),
        keys.to_set().subset_of(m.dom()),
        forall|k: u64| #[trigger] m.contains_key(k) ==> m[k].id == k,
    ensures
        songs_by_id(vals) == m.restrict(keys.to_set()),
    decreases keys.len(),
{
    if keys.len() == 0 {
        assert(keys.to_set() =~= Set::<u64>::empty());
        assert(m.restrict(keys.to_set()) =~= Map::<u64, SongV>::empty());
    } else {
        let pre = keys.drop_last();
        let k = keys.last();
        assert(keys =~= pre.push(k));
        pre.lemma_push_to_set_commute(k);
        assert(keys.contains(k));
        assert(pre.to_set().subset_of(keys.to_set()));
        lemma_songs_by_id(m, pre, vals.drop_last());
        assert(vals.last() == m[k]);
        assert(m.contains_key(k));
        assert(vals.last().id == k);
        assert(vals.drop_last().len() == pre.len());
        assert(songs_by_id(vals) == songs_by_id(vals.drop_last()).insert(k, m[k]));
        assert(keys.to_set() == pre.to_set().insert(k));
        assert(songs_by_id(vals) =~= m.restrict(keys.to_set()));
    }
}

/// The queue after `f` replaced the node at `path`; unchanged when the path leads nowhere.
pub open spec fn at_path(q: QueueV, path: Seq<usize>, f: spec_fn(QueueV) -> QueueV) -> QueueV {
    match item_at(q, path, 0) {
        Some(x) => replace_at(q, path, 0, f(x)),
        None => q,
    }
}

/// A shuffle node with a new order and a new first element; other nodes stay.
pub open spec fn with_shuffle(x: QueueV, map: Seq<usize>, next: usize) -> QueueV {
    match x.content {
        ContentV::Shuffle(cur, _, elems, _) => QueueV { content: ContentV::Shuffle(cur, map, elems, next), ..x },
        _ => x,
    }
}

/// The store after applying a command. (Saving is the host's part; errors and the
/// end of initialisation change nothing.)
pub open spec fn apply(db: DatabaseV, c: CommandV) -> DatabaseV {
    match c {
        CommandV::Resume => DatabaseV { playing: true, ..db },
        CommandV::Pause => DatabaseV { playing: false, ..db },
        CommandV::Stop => DatabaseV { playing: false, ..db },
        CommandV::NextSong => DatabaseV { queue: advance(db.queue, Seq::empty()).0, ..db },
        CommandV::Save => db,
        CommandV::InitComplete => db,
        CommandV::ErrorInfo(..) => db,
        CommandV::SyncDatabase(a, b, s) => DatabaseV {
            artists: artists_by_id(a),
            albums: albums_by_id(b),
            songs: songs_by_id(s),
            ..db
        },
        CommandV::QueueUpdate(p, q) => DatabaseV { queue: at_path(db.queue, p, |x: QueueV| q), ..db },
        CommandV::QueueAdd(p, q) => DatabaseV {
            queue: at_path(db.queue, p, |x: QueueV| add_to_end_spec(x, q).0),
            ..db
        },
        CommandV::QueueInsert(p, i, q) => DatabaseV {
            queue: at_path(db.queue, p, |x: QueueV| insert_spec(x, q, i as int).0),
            ..db
        },
        CommandV::QueueRemove(p) => DatabaseV { queue: remove_spec(db.queue, p, 0).0, ..db },
        CommandV::QueueGoto(p) => DatabaseV { queue: set_index(db.queue, p, 0, Seq::empty()).0, ..db },
        CommandV::QueueSetShuffle(p, m, n) => DatabaseV {
            queue: at_path(db.queue, p, |x: QueueV| with_shuffle(x, m, n)),
            ..db
        },
        CommandV::AddSong(s) => add_song_spec(db, s, next_id(db.songs.dom())),
        CommandV::AddAlbum(a) => add_album_spec(db, a, next_id(db.albums.dom())),
        CommandV::AddArtist(a) => {
            let id = next_id(db.artists.dom());
            DatabaseV { artists: db.artists.insert(id, ArtistV { id, ..a }), ..db }
        },
        CommandV::AddCover(cv) => {
            let id = next_id(db.covers.dom());
            DatabaseV { covers: db.covers.insert(id, CoverV { id, ..cv }), ..db }
        },
        CommandV::ModifySong(s) => if db.songs.contains_key(s.id) {
            DatabaseV { songs: db.songs.insert(s.id, s), ..db }
        } else {
            db
        },
        CommandV::ModifyAlbum(a) => if db.albums.contains_key(a.id) {
            DatabaseV { albums: db.albums.insert(a.id, a), ..db }
        } else {
            db
        },
        CommandV::ModifyArtist(a) => if db.artists.contains_key(a.id) {
            DatabaseV { artists: db.artists.insert(a.id, a), ..db }
        } else {
            db
        },
        CommandV::RemoveSong(id) => DatabaseV { songs: db.songs.remove(id), ..db },
        CommandV::RemoveAlbum(id) => DatabaseV { albums: db.albums.remove(id), ..db },
        CommandV::RemoveArtist(id) => DatabaseV { artists: db.artists.remove(id), ..db },
        CommandV::SetSongDuration(id, ms) => if db.songs.contains_key(id) {
            DatabaseV { songs: db.songs.insert(id, SongV { duration_millis: ms, ..db.songs[id] }), ..db }
        } else {
            db
        },
        CommandV::SetLibraryDirectory(p) => DatabaseV { lib_directory: p, ..db },
    }
}

/// The actions a command asks the host to carry out afterwards.
pub open spec fn apply_shapes(db: DatabaseV, c: CommandV) -> Seq<ActionShape> {
    match c {
        CommandV::NextSong => advance(db.queue, Seq::empty()).2,
        CommandV::QueueGoto(p) => set_index(db.queue, p, 0, Seq::empty()).1,
        _ => Seq::empty(),
    }
}

/// The views of a sequence of commands.
pub open spec fn commands_view(v: Seq<Command>) -> Seq<CommandV> {
    v.map_values(|c: Command| c@)
}

/// The commands a new subscriber receives first: the artists, albums and songs
/// (each mapping listed in some order of its ids), the queue, `Resume` if playing,
/// the library root, and `InitComplete`.
pub open spec fn init_sequence(db: DatabaseV, cs: Seq<CommandV>) -> bool {
    &&& cs.len() == if db.playing { 5int } else { 4int }
    &&& cs[0] matches CommandV::SyncDatabase(a, b, s) && exists|ka: Seq<u64>, kb: Seq<u64>, ks: Seq<u64>|
        enumerates(ka, db.artists.dom()) && enumerates(kb, db.albums.dom()) && enumerates(ks, db.songs.dom())
            && lists_values(db.artists, ka, a) && lists_values(db.albums, kb, b) && lists_values(db.songs, ks, s)
    &&& cs[1] == CommandV::QueueUpdate(Seq::empty(), db.queue)
    &&& db.playing ==> cs[2] == CommandV::Resume
    &&& cs[cs.len() - 2] == CommandV::SetLibraryDirectory(db.lib_directory)
    &&& cs[cs.len() - 1] == CommandV::InitComplete
}

/// The store after applying each command in turn.
pub open spec fn apply_all(db: DatabaseV, cs: Seq<CommandV>) -> DatabaseV
    decreases cs.len(),
{
    if cs.len() == 0 {
        db
    } else {
        apply(apply_all(db, cs.drop_last()), cs.last())
    }
}

/// Replicas that start equal and apply the same commands in the same order end
/// equal: a subscriber that receives every command the server applies mirrors it.
pub proof fn lemma_replicas_agree(server: DatabaseV, client: DatabaseV, cs: Seq<CommandV>)
    requires
        server == client,
    ensures
        apply_all(server, cs) == apply_all(client, cs),
    decreases cs.len(),
{
    if cs.len() > 0 {
        lemma_replicas_agree(server, client, cs.drop_last());
    }
}

/// The ids of `m`, in the order the map hands them out.
fn song_keys(m: &HashMap<u64, Song>) -> (r: Vec<u64>)
    ensures
        r@.to_set() == m@.dom(),
        r@.len() == m@.dom().len(),
{
    let ghost ks = m.keys().remaining().unref();
    proof {
        ks.unique_seq_to_set();
    }
    let mut r: Vec<u64> = Vec::new();
    for k in it: m.keys()
        invariant
            ks == it.seq().unref(),
            ks.no_duplicates(),
            ks.to_set() == m@.dom(),
            r@ == ks.subrange(0, it.index()),
    {
        r.push(*k);
        proof {
            assert(r@ =~= ks.subrange(0, it.index() + 1));
        }
    }
    proof {
        assert(r@ =~= ks);
    }
    r
}

/// Copies of the artists of `m`, in the order the map hands out its keys.
fn artist_values(m: &HashMap<u64, Artist>) -> (r: Vec<Artist>)
    ensures
        exists|keys: Seq<u64>| enumerates(keys, m@.dom()) && lists_values(artists_view(m@), keys, artists_seq_view(r@)),
{
    let ghost mv = artists_view(m@);
    let ghost ks = m.keys().remaining().unref();
    let mut r: Vec<Artist> = Vec::new();
    for k in it: m.keys()
        invariant
            ks == it.seq().unref(),
            ks.no_duplicates(),
            ks.to_set() == m@.dom(),
            mv == artists_view(m@),
            artists_seq_view(r@) == ks.subrange(0, it.index()).map_values(|k: u64| mv[k]),
    {
        proof {
            assert(ks.contains(*k));
        }
        let ghost before = r@;
        match m.get(k) {
            Some(v) => {
                r.push(v.duplicate());
            },
            None => {},
        }
        proof {
            let idx = it.index();
            assert(ks.subrange(0, idx + 1) =~= ks.subrange(0, idx).push(ks[idx]));
            assert(ks.subrange(0, idx + 1).map_values(|k: u64| mv[k]) =~= ks.subrange(0, idx).map_values(|k: u64| mv[k]).push(mv[ks[idx]]));
            assert(artists_seq_view(r@) =~= artists_seq_view(before).push(r@.last()@));
        }
    }
    proof {
        assert(ks.subrange(0, ks.len() as int) =~= ks);
        assert(enumerates(ks, m@.dom()));
        assert(lists_values(mv, ks, ks.map_values(|k: u64| mv[k])));
    }
    r
}

/// Copies of the albums of `m`, in the order the map hands out its keys.
fn album_values(m: &HashMap<u64, Album>) -> (r: Vec<Album>)
    ensures
        exists|keys: Seq<u64>| enumerates(keys, m@.dom()) && lists_values(albums_view(m@), keys, albums_seq_view(r@)),
{
    let ghost mv = albums_view(m@);
    let ghost ks = m.keys().remaining().unref();
    let mut r: Vec<Album> = Vec::new();
    for k in it: m.keys()
        invariant
            ks == it.seq().unref(),
            ks.no_duplicates(),
            ks.to_set() == m@.dom(),
            mv == albums_view(m@),
            albums_seq_view(r@) == ks.subrange(0, it.index()).map_values(|k: u64| mv[k]),
    {
        proof {
            assert(ks.contains(*k));
        }
        let ghost before = r@;
        match m.get(k) {
            Some(v) => {
                r.push(v.duplicate());
            },
            None => {},
        }
        proof {
            let idx = it.index();
            assert(ks.subrange(0, idx + 1) =~= ks.subrange(0, idx).push(ks[idx]));
            assert(ks.subrange(0, idx + 1).map_values(|k: u64| mv[k]) =~= ks.subrange(0, idx).map_values(|k: u64| mv[k]).push(mv[ks[idx]]));
            assert(albums_seq_view(r@) =~= albums_seq_view(before).push(r@.last()@));
        }
    }
    proof {
        assert(ks.subrange(0, ks.len() as int) =~= ks);
        assert(enumerates(ks, m@.dom()));
        assert(lists_values(mv, ks, ks.map_values(|k: u64| mv[k])));
    }
    r
}

/// Copies of the songs of `m`, in the order the map hands out its keys.
fn song_values(m: &HashMap<u64, Song>) -> (r: Vec<Song>)
    ensures
        exists|keys: Seq<u64>| enumerates(keys, m@.dom()) && lists_values(songs_view(m@), keys, songs_seq_view(r@)),
{
    let ghost mv = songs_view(m@);
    let ghost ks = m.keys().remaining().unref();
    let mut r: Vec<Song> = Vec::new();
    for k in it: m.keys()
        invariant
            ks == it.seq().unref(),
            ks.no_duplicates(),
            ks.to_set() == m@.dom(),
            mv == songs_view(m@),
            songs_seq_view(r@) == ks.subrange(0, it.index()).map_values(|k: u64| mv[k]),
    {
        proof {
            assert(ks.contains(*k));
        }
        let ghost before = r@;
        match m.get(k) {
            Some(v) => {
                r.push(v.duplicate());
            },
            None => {},
        }
        proof {
            let idx = it.index();
            assert(ks.subrange(0, idx + 1) =~= ks.subrange(0, idx).push(ks[idx]));
            assert(ks.subrange(0, idx + 1).map_values(|k: u64| mv[k]) =~= ks.subrange(0, idx).map_values(|k: u64| mv[k]).push(mv[ks[idx]]));
            assert(songs_seq_view(r@) =~= songs_seq_view(before).push(r@.last()@));
        }
    }
    proof {
        assert(ks.subrange(0, ks.len() as int) =~= ks);
        assert(enumerates(ks, m@.dom()));
        assert(lists_values(mv, ks, ks.map_values(|k: u64| mv[k])));
    }
    r
}

/// The ids below `n` form a set of `n` elements.
proof fn lemma_ids_below(n: nat)
    requires
        n <= u64::MAX + 1,
    ensures
        Set::new(|k: u64| k < n).finite(),
        Set::new(|k: u64| k < n).len() == n,
    decreases n,
{
    if n == 0 {
        assert(Set::new(|k: u64| k < n) =~= Set::<u64>::empty());
    } else {
        lemma_ids_below((n - 1) as nat);
        assert(Set::new(|k: u64| k < n) =~= Set::new(|k: u64| k < n - 1).insert((n - 1) as u64));
    }
}

/// Finds the smallest id that `m` does not use.
fn lowest_free_id<V>(m: &HashMap<u64, V>) -> (r: u64)
    ensures
        lowest_free(m@.dom(), r),
{
    let len = m.len();
    let mut key: u64 = 0;
    while m.contains_key(&key)
        invariant
            forall|k: u64| k < key ==> m@.dom().contains(k),
            len == m@.dom().len(),
            key <= len,
        decreases len - key,
    {
        proof {
            lemma_ids_below((key + 1) as nat);
            assert(Set::new(|k: u64| k < key + 1).subset_of(m@.dom()));
            vstd::set_lib::lemma_len_subset(Set::new(|k: u64| k < key + 1), m@.dom());
        }
        key = key + 1;
    }
    key
}

impl Database {
    /// An empty store with the given library root and an empty root folder as queue.
    pub fn new_empty(lib_dir: String) -> (r: Database)
        ensures
            r@.lib_directory == lib_dir@,
            r@.artists.is_empty(),
            r@.albums.is_empty(),
            r@.songs.is_empty(),
            r@.covers.is_empty(),
            r@.queue == (QueueV { enabled: true, content: ContentV::Folder(0, Seq::empty(), Seq::empty()) }),
            !r@.playing,
    {
        let children: Vec<Queue> = Vec::new();
        let content = QueueContent::Folder(0, children, String::new());
        proof {
            lemma_content_view(content);
            lemma_children_view(children);
            assert(children_view(children) =~= Seq::<QueueV>::empty());
        }
        let r = Database {
            lib_directory: lib_dir,
            artists: HashMap::new(),
            albums: HashMap::new(),
            songs: HashMap::new(),
            covers: HashMap::new(),
            queue: Queue::new(content),
            playing: false,
        };
        proof {
            assert(artists_view(r.artists@) =~= Map::empty());
            assert(albums_view(r.albums@) =~= Map::empty());
            assert(songs_view(r.songs@) =~= Map::empty());
            assert(covers_view(r.covers@) =~= Map::empty());
        }
        r
    }

    /// Adds an artist under the lowest free id, which it returns; the artist's own id is replaced.
    pub fn add_artist_new(&mut self, artist: Artist) -> (r: u64)
        ensures
            lowest_free(old(self)@.artists.dom(), r),
            final(self)@ == (DatabaseV {
                artists: old(self)@.artists.insert(r, ArtistV { id: r, ..artist@ }),
                ..old(self)@
            }),
            ids_match(old(self)@) && links_closed(old(self)@) && artist@.albums.len() == 0 ==> ids_match(
                final(self)@,
            ) && links_closed(final(self)@),
    {
        let mut artist = artist;
        let id = lowest_free_id(&self.artists);
        artist.id = id;
        self.artists.insert(id, artist);
        proof {
            assert(artists_view(self.artists@) =~= artists_view(old(self).artists@).insert(id, ArtistV { id, ..artist@ }));
            let o = old(self)@;
            let f = self@;
            if ids_match(o) && links_closed(o) && artist@.albums.len() == 0 {
                assert forall|y: u64, i: int|
                    f.artists.contains_key(y) && 0 <= i < f.artists[y].albums.len() implies {
                        let al = #[trigger] f.artists[y].albums[i];
                        f.albums.contains_key(al) && f.albums[al].artist == f.artists[y].id
                    } by {
                    assert(f.artists[y].albums[i] == o.artists[y].albums[i]);
                }
            }
        }
        id
    }

    /// Adds a cover under the lowest free id, which it returns.
    pub fn add_cover_new(&mut self, cover: Cover) -> (r: u64)
        ensures
            lowest_free(old(self)@.covers.dom(), r),
            final(self)@ == (DatabaseV {
                covers: old(self)@.covers.insert(r, CoverV { id: r, ..cover@ }),
                ..old(self)@
            }),
    {
        let mut cover = cover;
        let id = lowest_free_id(&self.covers);
        cover.id = id;
        self.covers.insert(id, cover);
        proof {
            assert(covers_view(self.covers@) =~= covers_view(old(self).covers@).insert(id, CoverV { id, ..cover@ }));
        }
        id
    }

    /// Replaces the song stored under `song.id` and returns the one it held; `Err`
    /// when no song has that id. Links between entities are left as they are.
    pub fn update_song(&mut self, song: Song) -> (r: Result<Song, ()>)
        ensures
            old(self)@.songs.contains_key(song.id) <==> r is Ok,
            r matches Ok(prev) ==> prev@ == old(self)@.songs[song.id]
                && final(self)@ == (DatabaseV { songs: old(self)@.songs.insert(song.id, song@), ..old(self)@ }),
            r is Err ==> final(self)@ == old(self)@,
    {
        let id = song.id;
        let ghost sv = song@;
        if self.songs.contains_key(&id) {
            match self.songs.insert(id, song) {
                Some(prev) => {
                    proof {
                        assert(songs_view(self.songs@) =~= songs_view(old(self).songs@).insert(id, sv));
                    }
                    Ok(prev)
                },
                None => Err(()),
            }
        } else {
            Err(())
        }
    }

    /// Replaces the album stored under `album.id` and returns the one it held; `Err`
    /// when no album has that id. Links between entities are left as they are.
    pub fn update_album(&mut self, album: Album) -> (r: Result<Album, ()>)
        ensures
            old(self)@.albums.contains_key(album.id) <==> r is Ok,
            r matches Ok(prev) ==> prev@ == old(self)@.albums[album.id]
                && final(self)@ == (DatabaseV { albums: old(self)@.albums.insert(album.id, album@), ..old(self)@ }),
            r is Err ==> final(self)@ == old(self)@,
    {
        let id = album.id;
        let ghost av = album@;
        if self.albums.contains_key(&id) {
            match self.albums.insert(id, album) {
                Some(prev) => {
                    proof {
                        assert(albums_view(self.albums@) =~= albums_view(old(self).albums@).insert(id, av));
                    }
                    Ok(prev)
                },
                None => Err(()),
            }
        } else {
            Err(())
        }
    }

    /// Replaces the artist stored under `artist.id` and returns the one it held; `Err`
    /// when no artist has that id. Links between entities are left as they are.
    pub fn update_artist(&mut self, artist: Artist) -> (r: Result<Artist, ()>)
        ensures
            old(self)@.artists.contains_key(artist.id) <==> r is Ok,
            r matches Ok(prev) ==> prev@ == old(self)@.artists[artist.id]
                && final(self)@ == (DatabaseV { artists: old(self)@.artists.insert(artist.id, artist@), ..old(self)@ }),
            r is Err ==> final(self)@ == old(self)@,
    {
        let id = artist.id;
        let ghost av = artist@;
        if self.artists.contains_key(&id) {
            match self.artists.insert(id, artist) {
                Some(prev) => {
                    proof {
                        assert(artists_view(self.artists@) =~= artists_view(old(self).artists@).insert(id, av));
                    }
                    Ok(prev)
                },
                None => Err(()),
            }
        } else {
            Err(())
        }
    }

    /// Stores `song` under its own id, replacing and returning any song there.
    pub fn update_or_add_song(&mut self, song: Song) -> (r: Option<Song>)
        ensures
            final(self)@ == (DatabaseV { songs: old(self)@.songs.insert(song.id, song@), ..old(self)@ }),
            old(self)@.songs.contains_key(song.id) <==> r is Some,
            r matches Some(prev) ==> prev@ == old(self)@.songs[song.id],
    {
        let ghost sv = song@;
        let r = self.songs.insert(song.id, song);
        proof {
            assert(songs_view(self.songs@) =~= songs_view(old(self).songs@).insert(sv.id, sv));
        }
        r
    }

    /// Removes the song with this id and returns it; references to it elsewhere stay.
    pub fn remove_song(&mut self, id: u64) -> (r: Option<Song>)
        ensures
            final(self)@ == (DatabaseV { songs: old(self)@.songs.remove(id), ..old(self)@ }),
            old(self)@.songs.contains_key(id) <==> r is Some,
            r matches Some(prev) ==> prev@ == old(self)@.songs[id],
    {
        let r = self.songs.remove(&id);
        proof {
            assert(songs_view(self.songs@) =~= songs_view(old(self).songs@).remove(id));
        }
        r
    }

    /// Removes the album with this id and returns it; references to it elsewhere stay.
    pub fn remove_album(&mut self, id: u64) -> (r: Option<Album>)
        ensures
            final(self)@ == (DatabaseV { albums: old(self)@.albums.remove(id), ..old(self)@ }),
            old(self)@.albums.contains_key(id) <==> r is Some,
            r matches Some(prev) ==> prev@ == old(self)@.albums[id],
    {
        let r = self.albums.remove(&id);
        proof {
            assert(albums_view(self.albums@) =~= albums_view(old(self).albums@).remove(id));
        }
        r
    }

    /// Removes the artist with this id and returns it; references to it elsewhere stay.
    pub fn remove_artist(&mut self, id: u64) -> (r: Option<Artist>)
        ensures
            final(self)@ == (DatabaseV { artists: old(self)@.artists.remove(id), ..old(self)@ }),
            old(self)@.artists.contains_key(id) <==> r is Some,
            r matches Some(prev) ==> prev@ == old(self)@.artists[id],
    {
        let r = self.artists.remove(&id);
        proof {
            assert(artists_view(self.artists@) =~= artists_view(old(self).artists@).remove(id));
        }
        r
    }

    /// The snapshot of this store (see `snapshot_bytes`); mappings come in the order
    /// in which the maps hand out their keys.
    #[verifier::rlimit(100)]
    pub fn to_bytes(&self) -> (r: Vec<u8>)
        ensures
            exists|ka: Seq<u64>, kb: Seq<u64>, ks: Seq<u64>, kc: Seq<u64>|
                snapshot_keys(self@, ka, kb, ks, kc) && r@ == snapshot_bytes(self@, ka, kb, ks, kc),
    {
        let mut out: Vec<u8> = Vec::new();
        let ghost o0 = out@;
        put_text(&mut out, self.lib_directory.as_str());
        let ghost o1 = out@;
        assert(o1 =~= text_bytes(self.lib_directory@));
        put_artist_map(&mut out, &self.artists);
        let ghost o2 = out@;
        put_album_map(&mut out, &self.albums);
        let ghost o3 = out@;
        put_song_map(&mut out, &self.songs);
        let ghost o4 = out@;
        put_cover_map(&mut out, &self.covers);
        proof {
            lemma_snapshot_layout(self@, self.artists@, self.albums@, self.songs@, self.covers@, o1, o2, o3, o4, out@);
        }
        out
    }

    /// Reads a snapshot: the store it describes, with an empty root folder as queue
    /// and playback stopped.
    #[verifier::rlimit(100)]
    pub fn from_bytes(buf: &[u8]) -> (r: Result<Database, CodecError>)
        ensures
            r matches Ok(d) ==> d@.queue == (QueueV { enabled: true, content: ContentV::Folder(0, Seq::empty(), Seq::empty()) })
                && !d@.playing,
            forall|db: DatabaseV, ka: Seq<u64>, kb: Seq<u64>, ks: Seq<u64>, kc: Seq<u64>|
                snapshot_keys(db, ka, kb, ks, kc) && holds_at(buf@, 0, #[trigger] snapshot_bytes(db, ka, kb, ks, kc))
                ==> (r matches Ok(d) && d@.lib_directory == db.lib_directory && d@.artists == db.artists
                    && d@.albums == db.albums && d@.songs == db.songs && d@.covers == db.covers),
            forall|db: DatabaseV, ka: Seq<u64>, kb: Seq<u64>, ks: Seq<u64>, kc: Seq<u64>|
                snapshot_keys(db, ka, kb, ks, kc) && cut_at(buf@, 0, #[trigger] snapshot_bytes(db, ka, kb, ks, kc)) ==> r is Err,
    {
        let buf_len = buf.len();
        proof {
            assert forall|db: DatabaseV, ka: Seq<u64>, kb: Seq<u64>, ks: Seq<u64>, kc: Seq<u64>|
                cut_at(buf@, 0, #[trigger] snapshot_bytes(db, ka, kb, ks, kc)) implies ({
                    let p1 = text_bytes(db.lib_directory).len();
                    let p2 = p1 + artist_map_bytes(db.artists, ka).len();
                    let p3 = p2 + album_map_bytes(db.albums, kb).len();
                    let p4 = p3 + song_map_bytes(db.songs, ks).len();
                    &&& (cut_at(buf@, 0, text_bytes(db.lib_directory)) || holds_at(buf@, 0, text_bytes(db.lib_directory)))
                    &&& (holds_at(buf@, 0, text_bytes(db.lib_directory)) ==> cut_at(buf@, p1 as int, artist_map_bytes(db.artists, ka))
                        || holds_at(buf@, p1 as int, artist_map_bytes(db.artists, ka)))
                    &&& (holds_at(buf@, p1 as int, artist_map_bytes(db.artists, ka)) ==> cut_at(buf@, p2 as int, album_map_bytes(db.albums, kb))
                        || holds_at(buf@, p2 as int, album_map_bytes(db.albums, kb)))
                    &&& (holds_at(buf@, p2 as int, album_map_bytes(db.albums, kb)) ==> cut_at(buf@, p3 as int, song_map_bytes(db.songs, ks))
                        || holds_at(buf@, p3 as int, song_map_bytes(db.songs, ks)))
                    &&& (holds_at(buf@, p3 as int, song_map_bytes(db.songs, ks)) ==> cut_at(buf@, p4 as int, cover_map_bytes(db.covers, kc)))
                }) by {
                let p1 = text_bytes(db.lib_directory).len();
                let p2 = p1 + artist_map_bytes(db.artists, ka).len();
                let p3 = p2 + album_map_bytes(db.albums, kb).len();
                let t3 = song_map_bytes(db.songs, ks) + cover_map_bytes(db.covers, kc);
                let t2 = album_map_bytes(db.albums, kb) + t3;
                let t1 = artist_map_bytes(db.artists, ka) + t2;
                lemma_cut_split_if(buf@, 0, text_bytes(db.lib_directory), t1);
                lemma_cut_split_if(buf@, p1 as int, artist_map_bytes(db.artists, ka), t2);
                lemma_cut_split_if(buf@, p2 as int, album_map_bytes(db.albums, kb), t3);
                lemma_cut_split_if(buf@, p3 as int, song_map_bytes(db.songs, ks), cover_map_bytes(db.covers, kc));
            }
            assert forall|db: DatabaseV, ka: Seq<u64>, kb: Seq<u64>, ks: Seq<u64>, kc: Seq<u64>|
                snapshot_keys(db, ka, kb, ks, kc) && holds_at(buf@, 0, #[trigger] snapshot_bytes(db, ka, kb, ks, kc)) implies {
                    let p1 = text_bytes(db.lib_directory).len();
                    let p2 = p1 + artist_map_bytes(db.artists, ka).len();
                    let p3 = p2 + album_map_bytes(db.albums, kb).len();
                    let p4 = p3 + song_map_bytes(db.songs, ks).len();
                    &&& holds_at(buf@, 0, text_bytes(db.lib_directory))
                    &&& holds_at(buf@, p1 as int, artist_map_bytes(db.artists, ka))
                    &&& holds_at(buf@, p2 as int, album_map_bytes(db.albums, kb))
                    &&& holds_at(buf@, p3 as int, song_map_bytes(db.songs, ks))
                    &&& holds_at(buf@, p4 as int, cover_map_bytes(db.covers, kc))
                } by {
                let p1 = text_bytes(db.lib_directory).len();
                let p2 = p1 + artist_map_bytes(db.artists, ka).len();
                let p3 = p2 + album_map_bytes(db.albums, kb).len();
                let t3 = song_map_bytes(db.songs, ks) + cover_map_bytes(db.covers, kc);
                let t2 = album_map_bytes(db.albums, kb) + t3;
                let t1 = artist_map_bytes(db.artists, ka) + t2;
                lemma_holds_concat(buf@, 0, text_bytes(db.lib_directory), t1);
                lemma_holds_concat(buf@, p1 as int, artist_map_bytes(db.artists, ka), t2);
                lemma_holds_concat(buf@, p2 as int, album_map_bytes(db.albums, kb), t3);
                lemma_holds_concat(buf@, p3 as int, song_map_bytes(db.songs, ks), cover_map_bytes(db.covers, kc));
            }
        }
        let (lib_directory, p1) = get_text(buf, 0)?;
        let (artists, p2) = get_artist_map(buf, p1)?;
        let (albums, p3) = get_album_map(buf, p2)?;
        let (songs, p4) = get_song_map(buf, p3)?;
        let (covers, _p5) = get_cover_map(buf, p4)?;
        proof {
            assert forall|db: DatabaseV, ka: Seq<u64>, kb: Seq<u64>, ks: Seq<u64>, kc: Seq<u64>|
                !(snapshot_keys(db, ka, kb, ks, kc) && cut_at(buf@, 0, #[trigger] snapshot_bytes(db, ka, kb, ks, kc))) by {
                if snapshot_keys(db, ka, kb, ks, kc) && cut_at(buf@, 0, snapshot_bytes(db, ka, kb, ks, kc)) {
                    let t = text_bytes(db.lib_directory);
                    let a = artist_map_bytes(db.artists, ka);
                    let b = album_map_bytes(db.albums, kb);
                    let c = song_map_bytes(db.songs, ks);
                    let d = cover_map_bytes(db.covers, kc);
                    assert(!cut_at(buf@, 0, t));
                    assert(p1 == t.len());
                    assert(!cut_at(buf@, p1 as int, a));
                    assert(p2 == p1 + a.len());
                    assert(!cut_at(buf@, p2 as int, b));
                    assert(p3 == p2 + b.len());
                    assert(!cut_at(buf@, p3 as int, c));
                    assert(p4 == p3 + c.len());
                    assert(!cut_at(buf@, p4 as int, d));
                }
            }
        }
        let children: Vec<Queue> = Vec::new();
        let content = QueueContent::Folder(0, children, String::new());
        proof {
            lemma_content_view(content);
            lemma_children_view(children);
            assert(children_view(children) =~= Seq::<QueueV>::empty());
        }
        Ok(Database { lib_directory, artists, albums, songs, covers, queue: Queue::new(content), playing: false })
    }

    /// Replaces the three catalog mappings by the given entities, each under its id.
    pub fn sync(&mut self, artists: Vec<Artist>, albums: Vec<Album>, songs: Vec<Song>)
        ensures
            final(self)@ == (DatabaseV {
                artists: artists_by_id(artists_seq_view(artists@)),
                albums: albums_by_id(albums_seq_view(albums@)),
                songs: songs_by_id(songs_seq_view(songs@)),
                ..old(self)@
            }),
    {
        let mut ma: HashMap<u64, Artist> = HashMap::new();
        let ghost va = artists_seq_view(artists@);
        let mut i: usize = 0;
        proof {
            assert(artists_view(ma@) =~= artists_by_id(va.subrange(0, 0)));
        }
        while i < artists.len()
            invariant
                i <= artists.len(),
                va == artists_seq_view(artists@),
                artists_view(ma@) == artists_by_id(va.subrange(0, i as int)),
            decreases artists.len() - i,
        {
            let a = artists[i].duplicate();
            ma.insert(a.id, a);
            proof {
                assert(va.subrange(0, i + 1).drop_last() =~= va.subrange(0, i as int));
                assert(artists_view(ma@) =~= artists_by_id(va.subrange(0, i + 1)));
            }
            i += 1;
        }
        let mut mb: HashMap<u64, Album> = HashMap::new();
        let ghost vb = albums_seq_view(albums@);
        let mut i: usize = 0;
        proof {
            assert(albums_view(mb@) =~= albums_by_id(vb.subrange(0, 0)));
        }
        while i < albums.len()
            invariant
                i <= albums.len(),
                vb == albums_seq_view(albums@),
                albums_view(mb@) == albums_by_id(vb.subrange(0, i as int)),
            decreases albums.len() - i,
        {
            let a = albums[i].duplicate();
            mb.insert(a.id, a);
            proof {
                assert(vb.subrange(0, i + 1).drop_last() =~= vb.subrange(0, i as int));
                assert(albums_view(mb@) =~= albums_by_id(vb.subrange(0, i + 1)));
            }
            i += 1;
        }
        let mut ms: HashMap<u64, Song> = HashMap::new();
        let ghost vs = songs_seq_view(songs@);
        let mut i: usize = 0;
        proof {
            assert(songs_view(ms@) =~= songs_by_id(vs.subrange(0, 0)));
        }
        while i < songs.len()
            invariant
                i <= songs.len(),
                vs == songs_seq_view(songs@),
                songs_view(ms@) == songs_by_id(vs.subrange(0, i as int)),
            decreases songs.len() - i,
        {
            let a = songs[i].duplicate();
            ms.insert(a.id, a);
            proof {
                assert(vs.subrange(0, i + 1).drop_last() =~= vs.subrange(0, i as int));
                assert(songs_view(ms@) =~= songs_by_id(vs.subrange(0, i + 1)));
            }
            i += 1;
        }
        proof {
            assert(va.subrange(0, artists.len() as int) =~= va);
            assert(vb.subrange(0, albums.len() as int) =~= vb);
            assert(vs.subrange(0, songs.len() as int) =~= vs);
        }
        self.artists = ma;
        self.albums = mb;
        self.songs = ms;
    }

    /// Sets the duration of the song with this id, if there is one.
    pub fn set_song_duration(&mut self, id: u64, duration_millis: u64)
        ensures
            final(self)@ == apply(old(self)@, CommandV::SetSongDuration(id, duration_millis)),
    {
        if let Some(mut song) = self.songs.remove(&id) {
            let ghost before = song@;
            song.duration_millis = duration_millis;
            self.songs.insert(id, song);
            proof {
                assert(songs_view(self.songs@) =~= songs_view(old(self).songs@).insert(
                    id,
                    SongV { duration_millis, ..before },
                ));
            }
        } else {
            proof {
                assert(self.songs@ == old(self).songs@);
            }
        }
    }

    /// Applies a command to this store and returns the actions it asks the host to
    /// carry out (new random songs, new shuffle orders). Sending the command to
    /// subscribers, and saving, is the host's part.
    #[verifier::rlimit(100)]
    pub fn apply_command(&mut self, command: Command) -> (actions: Vec<QueueAction>)
        ensures
            final(self)@ == apply(old(self)@, command@),
            appended(Seq::empty(), actions@, apply_shapes(old(self)@, command@)),
    {
        let ghost cv = command@;
        let mut actions: Vec<QueueAction> = Vec::new();
        proof {
            assert(actions@.subrange(0, 0) =~= Seq::<QueueAction>::empty());
            assert(crate::queue::acts_view(actions@.subrange(0, 0)) =~= Seq::empty());
        }
        match command {
            Command::Resume => {
                self.playing = true;
            },
            Command::Pause => {
                self.playing = false;
            },
            Command::Stop => {
                self.playing = false;
            },
            Command::NextSong => {
                self.queue.advance_index(&mut actions);
            },
            Command::Save => {},
            Command::InitComplete => {},
            Command::ErrorInfo(..) => {},
            Command::SyncDatabase(a, b, c) => {
                self.sync(a, b, c);
            },
            Command::QueueUpdate(index, new_data) => {
                if let Some(v) = self.queue.get_item_at_index_mut(&index, 0) {
                    *v = new_data;
                }
            },
            Command::QueueAdd(index, new_data) => {
                if let Some(v) = self.queue.get_item_at_index_mut(&index, 0) {
                    v.add_to_end(new_data);
                }
            },
            Command::QueueInsert(index, pos, new_data) => {
                if let Some(v) = self.queue.get_item_at_index_mut(&index, 0) {
                    v.insert(new_data, pos);
                }
            },
            Command::QueueRemove(index) => {
                self.queue.remove_by_index(&index, 0);
            },
            Command::QueueGoto(index) => {
                self.queue.set_index_inner(&index, 0, Vec::new(), &mut actions);
            },
            Command::QueueSetShuffle(index, map, next) => {
                if let Some(v) = self.queue.get_item_at_index_mut(&index, 0) {
                    v.set_shuffle(map, next);
                }
            },
            Command::AddSong(song) => {
                let id = self.add_song_new(song);
                proof {
                    lemma_next_id(old(self)@.songs.dom(), id);
                }
            },
            Command::AddAlbum(album) => {
                let id = self.add_album_new(album);
                proof {
                    lemma_next_id(old(self)@.albums.dom(), id);
                }
            },
            Command::AddArtist(artist) => {
                let id = self.add_artist_new(artist);
                proof {
                    lemma_next_id(old(self)@.artists.dom(), id);
                }
            },
            Command::AddCover(cover) => {
                let id = self.add_cover_new(cover);
                proof {
                    lemma_next_id(old(self)@.covers.dom(), id);
                }
            },
            Command::ModifySong(song) => {
                let _ = self.update_song(song);
            },
            Command::ModifyAlbum(album) => {
                let _ = self.update_album(album);
            },
            Command::ModifyArtist(artist) => {
                let _ = self.update_artist(artist);
            },
            Command::RemoveSong(id) => {
                self.remove_song(id);
            },
            Command::RemoveAlbum(id) => {
                self.remove_album(id);
            },
            Command::RemoveArtist(id) => {
                self.remove_artist(id);
            },
            Command::SetSongDuration(id, ms) => {
                self.set_song_duration(id, ms);
            },
            Command::SetLibraryDirectory(dir) => {
                self.lib_directory = dir;
            },
        }
        actions
    }

    /// The commands that bring a new subscriber up to date: the catalog, the queue,
    /// `Resume` if playing, the library root, and `InitComplete` last.
    pub fn init_connection(&self) -> (r: Vec<Command>)
        ensures
            init_sequence(self@, commands_view(r@)),
    {
        let a = artist_values(&self.artists);
        let b = album_values(&self.albums);
        let s = song_values(&self.songs);
        let mut r: Vec<Command> = Vec::new();
        r.push(Command::SyncDatabase(a, b, s));
        let path: Vec<usize> = Vec::new();
        proof {
            assert(path@ =~= Seq::<usize>::empty());
        }
        r.push(Command::QueueUpdate(path, self.queue.duplicate()));
        if self.playing {
            r.push(Command::Resume);
        }
        r.push(Command::SetLibraryDirectory(self.lib_directory.clone()));
        r.push(Command::InitComplete);
        proof {
            let v = self@;
            assert(v.artists.dom() =~= self.artists@.dom());
            assert(v.albums.dom() =~= self.albums@.dom());
            assert(v.songs.dom() =~= self.songs@.dom());
            let cs = commands_view(r@);
            assert(cs[0] == r@[0]@);
            if let CommandV::SyncDatabase(a2, b2, s2) = cs[0] {
                let ka = choose|k: Seq<u64>| enumerates(k, self.artists@.dom()) && lists_values(v.artists, k, a2);
                let kb = choose|k: Seq<u64>| enumerates(k, self.albums@.dom()) && lists_values(v.albums, k, b2);
                let ks = choose|k: Seq<u64>| enumerates(k, self.songs@.dom()) && lists_values(v.songs, k, s2);
                assert(enumerates(ka, v.artists.dom()) && enumerates(kb, v.albums.dom()) && enumerates(ks, v.songs.dom()));
            }
            assert(cs[1] == r@[1]@);
            assert(cs[cs.len() - 1] == r@[r@.len() - 1]@);
            assert(cs[cs.len() - 2] == r@[r@.len() - 2]@);
            if self.playing {
                assert(cs[2] == r@[2]@);
            }
        }
        r
    }

    /// A store for a client: no library root yet, nothing in it.
    pub fn new_clientside() -> (r: Database)
        ensures
            r@.lib_directory.len() == 0,
            r@.artists.is_empty(),
            r@.albums.is_empty(),
            r@.songs.is_empty(),
            r@.covers.is_empty(),
            !r@.playing,
    {
        Database::new_empty(String::new())
    }

    /// The command that carries out an action a queue walk asked for: a random
    /// song of the catalog added at the stream's path (none when the catalog has
    /// no songs), or the new shuffle order set.
    pub fn command_for_action(&self, action: QueueAction) -> (r: Option<Command>)
        ensures
            match action@ {
                crate::queue_spec::ActionV::AddRandomSong(path) => if self@.songs.is_empty() {
                    r is None
                } else {
                    r matches Some(c) && c@ matches CommandV::QueueAdd(p, q) && p == path
                        && q == (QueueV { enabled: true, content: ContentV::Song(q.content->Song_0) })
                        && self@.songs.contains_key(q.content->Song_0)
                },
                crate::queue_spec::ActionV::SetShuffle(path, map, next) => r matches Some(c) && c@
                    == CommandV::QueueSetShuffle(path, map, next),
            },
    {
        match action {
            QueueAction::AddRandomSong(path) => {
                let keys = song_keys(&self.songs);
                proof {
                    assert(self@.songs.dom() =~= self.songs@.dom());
                }
                if keys.len() == 0 {
                    proof {
                        assert(keys@ =~= Seq::<u64>::empty());
                        assert(self@.songs.dom() =~= Set::<u64>::empty());
                        assert(self@.songs =~= Map::<u64, SongV>::empty());
                    }
                    None
                } else {
                    let id = keys[random_below(keys.len())];
                    let content = QueueContent::Song(id);
                    proof {
                        lemma_content_view(content);
                        assert(keys@.contains(id));
                        assert(self@.songs.dom().contains(id));
                        assert(!self@.songs.is_empty());
                    }
                    Some(Command::QueueAdd(path, Queue::new(content)))
                }
            },
            QueueAction::SetShuffle(path, map, next) => Some(Command::QueueSetShuffle(path, map, next)),
        }
    }

    pub fn get_song(&self, id: &u64) -> (r: Option<&Song>)
        ensures
            self@.songs.contains_key(*id) <==> r is Some,
            r matches Some(s) ==> s@ == self@.songs[*id],
    {
        self.songs.get(id)
    }

    pub fn get_cover(&self, id: &u64) -> (r: Option<&Cover>)
        ensures
            self@.covers.contains_key(*id) <==> r is Some,
            r matches Some(c) ==> c@ == self@.covers[*id],
    {
        self.covers.get(id)
    }

    pub fn songs(&self) -> (r: &HashMap<u64, Song>)
        ensures
            songs_view(r@) == self@.songs,
    {
        &self.songs
    }

    pub fn albums(&self) -> (r: &HashMap<u64, Album>)
        ensures
            albums_view(r@) == self@.albums,
    {
        &self.albums
    }

    pub fn artists(&self) -> (r: &HashMap<u64, Artist>)
        ensures
            artists_view(r@) == self@.artists,
    {
        &self.artists
    }

    pub fn covers(&self) -> (r: &HashMap<u64, Cover>)
        ensures
            covers_view(r@) == self@.covers,
    {
        &self.covers
    }

    /// Adds an album under the lowest free id, which it returns, and lists it with
    /// its artist if that artist exists.
    pub fn add_album_new(&mut self, album: Album) -> (r: u64)
        ensures
            lowest_free(old(self)@.albums.dom(), r),
            final(self)@ == add_album_spec(old(self)@, album@, r),
            ids_match(old(self)@) && links_closed(old(self)@) && album@.songs.len() == 0 ==> ids_match(
                final(self)@,
            ) && links_closed(final(self)@),
    {
        let mut album = album;
        let x = album.artist;
        let id = lowest_free_id(&self.albums);
        album.id = id;
        let ghost av = album@;
        self.albums.insert(id, album);
        proof {
            assert(albums_view(self.albums@) =~= albums_view(old(self).albums@).insert(id, av));
        }
        if let Some(mut artist) = self.artists.remove(&x) {
            let ghost before = artist@;
            artist.albums.push(id);
            self.artists.insert(x, artist);
            proof {
                assert(artists_view(self.artists@) =~= artists_view(old(self).artists@).insert(
                    x,
                    ArtistV { albums: before.albums.push(id), ..before },
                ));
            }
        } else {
            proof {
                assert(self.artists@ == old(self).artists@);
            }
        }
        proof {
            let o = old(self)@;
            let f = self@;
            if ids_match(o) && links_closed(o) && av.songs.len() == 0 {
                assert forall|a: u64, i: int|
                    f.albums.contains_key(a) && 0 <= i < f.albums[a].songs.len() implies {
                        let s = #[trigger] f.albums[a].songs[i];
                        f.songs.contains_key(s) && f.songs[s].album == Some(f.albums[a].id)
                    } by {
                    if a != id {
                        assert(o.albums[a].songs[i] == f.albums[a].songs[i]);
                    }
                }
                assert forall|y: u64, i: int|
                    f.artists.contains_key(y) && 0 <= i < f.artists[y].albums.len() implies {
                        let al = #[trigger] f.artists[y].albums[i];
                        f.albums.contains_key(al) && f.albums[al].artist == f.artists[y].id
                    } by {
                    if y == x && i == o.artists[y].albums.len() {
                        assert(f.artists[y].albums[i] == id);
                    } else {
                        let al = o.artists[y].albums[i];
                        assert(f.artists[y].albums[i] == al);
                        assert(o.albums.contains_key(al));
                        assert(al != id);
                    }
                }
            }
        }
        id
    }

    /// Adds a song under the lowest free id, which it returns, and lists it with its
    /// album if that is set and exists, else with its artist's singles if the artist exists.
    pub fn add_song_new(&mut self, song: Song) -> (r: u64)
        ensures
            lowest_free(old(self)@.songs.dom(), r),
            final(self)@ == add_song_spec(old(self)@, song@, r),
            ids_match(old(self)@) && links_closed(old(self)@) ==> ids_match(final(self)@) && links_closed(
                final(self)@,
            ),
    {
        let mut song = song;
        let album = song.album;
        let x = song.artist;
        let id = lowest_free_id(&self.songs);
        song.id = id;
        let ghost sv = song@;
        self.songs.insert(id, song);
        proof {
            assert(songs_view(self.songs@) =~= songs_view(old(self).songs@).insert(id, sv));
        }
        let mut in_album = false;
        if let Some(a) = album {
            if let Some(mut al) = self.albums.remove(&a) {
                let ghost before = al@;
                al.songs.push(id);
                self.albums.insert(a, al);
                in_album = true;
                proof {
                    assert(albums_view(self.albums@) =~= albums_view(old(self).albums@).insert(
                        a,
                        AlbumV { songs: before.songs.push(id), ..before },
                    ));
                }
            }
        }
        if !in_album {
            if let Some(mut artist) = self.artists.remove(&x) {
                let ghost before = artist@;
                artist.singles.push(id);
                self.artists.insert(x, artist);
                proof {
                    assert(artists_view(self.artists@) =~= artists_view(old(self).artists@).insert(
                        x,
                        ArtistV { singles: before.singles.push(id), ..before },
                    ));
                }
            }
        }
        proof {
            let o = old(self)@;
            let f = self@;
            assert(f == add_song_spec(o, song@, id)) by {
                assert(f.albums =~= add_song_spec(o, song@, id).albums);
                assert(f.artists =~= add_song_spec(o, song@, id).artists);
            }
            if ids_match(o) && links_closed(o) {
                assert forall|b: u64, i: int|
                    f.albums.contains_key(b) && 0 <= i < f.albums[b].songs.len() implies {
                        let s = #[trigger] f.albums[b].songs[i];
                        f.songs.contains_key(s) && f.songs[s].album == Some(f.albums[b].id)
                    } by {
                    if in_album && b == album->0 && i == o.albums[b].songs.len() {
                        assert(f.albums[b].songs[i] == id);
                    } else {
                        let s = o.albums[b].songs[i];
                        assert(f.albums[b].songs[i] == s);
                        assert(o.songs.contains_key(s));
                        assert(s != id);
                    }
                }
                assert forall|y: u64, i: int|
                    f.artists.contains_key(y) && 0 <= i < f.artists[y].albums.len() implies {
                        let al = #[trigger] f.artists[y].albums[i];
                        f.albums.contains_key(al) && f.albums[al].artist == f.artists[y].id
                    } by {
                    assert(f.artists[y].albums[i] == o.artists[y].albums[i]);
                }
            }
        }
        id
    }
}

} // verus!

//! The catalog's entities: artists, albums, songs and covers, with their byte encodings.
use vstd::prelude::*;
use crate::codec::{
    cut_at, get_opt_u64, get_text, get_texts, get_u64, get_u64s, holds_at, lemma_cut_split_if, lemma_cut_step, lemma_cut_split, le_bytes, lemma_holds_concat, lemma_holds_prefix,
    opt_u64_bytes, put_opt_u64, put_text, put_texts, put_u64, put_u64s, strings_view, text_bytes,
    texts_bytes, u64s_bytes, CodecError,
};

verus! {

/// Free-form tags such as `Year=1997`, `Genre=rock` or `Fav`.
#[derive(Debug, Clone, PartialEq, Eq, Default)]
pub struct GeneralData {
    pub tags: Vec<String>,
}

/// A path relative to the library root.
#[derive(Debug, Clone, PartialEq, Eq)]
pub struct DatabaseLocation {
    pub rel_path: String,
}

#[derive(Debug, Clone, PartialEq, Eq)]
pub struct Artist {
    pub id: u64,
    pub name: String,
    pub cover: Option<u64>,
    pub albums: Vec<u64>,
    pub singles: Vec<u64>,
    pub general: GeneralData,
}

#[derive(Debug, Clone, PartialEq, Eq)]
pub struct Album {
    pub id: u64,
    pub artist: u64,
    pub name: String,
    pub cover: Option<u64>,
    pub songs: Vec<u64>,
    pub general: GeneralData,
}

#[derive(Debug, Clone, PartialEq, Eq)]
pub struct Song {
    pub id: u64,
    pub location: DatabaseLocation,
    pub title: String,
    pub album: Option<u64>,
    pub artist: u64,
    pub more_artists: Vec<u64>,
    pub cover: Option<u64>,
    pub file_size: u64,
    pub duration_millis: u64,
    pub general: GeneralData,
}

#[derive(Debug, Clone, PartialEq, Eq)]
pub struct Cover {
    pub id: u64,
    pub location: DatabaseLocation,
}

/// Abstract value of an artist.
pub struct ArtistV {
    pub id: u64,
    pub name: Seq<char>,
    pub cover: Option<u64>,
    pub albums: Seq<u64>,
    pub singles: Seq<u64>,
    pub general: Seq<Seq<char>>,
}

/// Abstract value of an album.
pub struct AlbumV {
    pub id: u64,
    pub artist: u64,
    pub name: Seq<char>,
    pub cover: Option<u64>,
    pub songs: Seq<u64>,
    pub general: Seq<Seq<char>>,
}

/// Abstract value of a song.
pub struct SongV {
    pub id: u64,
    pub location: Seq<char>,
    pub title: Seq<char>,
    pub album: Option<u64>,
    pub artist: u64,
    pub more_artists: Seq<u64>,
    pub cover: Option<u64>,
    pub file_size: u64,
    pub duration_millis: u64,
    pub general: Seq<Seq<char>>,
}

/// Abstract value of a cover.
pub struct CoverV {
    pub id: u64,
    pub location: Seq<char>,
}

impl View for Artist {
    type V = ArtistV;

    open spec fn view(&self) -> ArtistV {
        ArtistV {
            id: self.id,
            name: self.name@,
            cover: self.cover,
            albums: self.albums@,
            singles: self.singles@,
            general: strings_view(self.general.tags@),
        }
    }
}

impl View for Album {
    type V = AlbumV;

    open spec fn view(&self) -> AlbumV {
        AlbumV {
            id: self.id,
            artist: self.artist,
            name: self.name@,
            cover: self.cover,
            songs: self.songs@,
            general: strings_view(self.general.tags@),
        }
    }
}

impl View for Song {
    type V = SongV;

    open spec fn view(&self) -> SongV {
        SongV {
            id: self.id,
            location: self.location.rel_path@,
            title: self.title@,
            album: self.album,
            artist: self.artist,
            more_artists: self.more_artists@,
            cover: self.cover,
            file_size: self.file_size,
            duration_millis: self.duration_millis,
            general: strings_view(self.general.tags@),
        }
    }
}

impl View for Cover {
    type V = CoverV;

    open spec fn view(&self) -> CoverV {
        CoverV { id: self.id, location: self.location.rel_path@ }
    }
}

/// Artist: id, name, cover, albums, singles, tags.
pub open spec fn artist_bytes(a: ArtistV) -> Seq<u8> {
    le_bytes(a.id) + (text_bytes(a.name) + (opt_u64_bytes(a.cover) + (u64s_bytes(a.albums) + (
    u64s_bytes(a.singles) + texts_bytes(a.general)))))
}

/// Album: id, artist, name, cover, songs, tags.
pub open spec fn album_bytes(a: AlbumV) -> Seq<u8> {
    le_bytes(a.id) + (le_bytes(a.artist) + (text_bytes(a.name) + (opt_u64_bytes(a.cover) + (
    u64s_bytes(a.songs) + texts_bytes(a.general)))))
}

/// Song: id, location, title, album, artist, more artists, cover, file size,
/// duration, tags.
pub open spec fn song_bytes(s: SongV) -> Seq<u8> {
    le_bytes(s.id) + (text_bytes(s.location) + (text_bytes(s.title) + (opt_u64_bytes(s.album) + (
    le_bytes(s.artist) + (u64s_bytes(s.more_artists) + (opt_u64_bytes(s.cover) + (le_bytes(
    s.file_size) + (le_bytes(s.duration_millis) + texts_bytes(s.general)))))))))
}

/// Cover: id, location.
pub open spec fn cover_bytes(c: CoverV) -> Seq<u8> {
    le_bytes(c.id) + text_bytes(c.location)
}


impl GeneralData {
    /// A copy with the same tags.
    pub fn duplicate(&self) -> (r: GeneralData)
        ensures
            strings_view(r.tags@) == strings_view(self.tags@),
    {
        let tags = self.tags.clone();
        proof {
            assert(strings_view(tags@) =~= strings_view(self.tags@));
        }
        GeneralData { tags }
    }
}

impl Artist {
    /// A copy with the same value.
    pub fn duplicate(&self) -> (r: Artist)
        ensures
            r@ == self@,
    {
        let r = Artist {
            id: self.id,
            name: self.name.clone(),
            cover: self.cover,
            albums: self.albums.clone(),
            singles: self.singles.clone(),
            general: self.general.duplicate(),
        };
        proof {
            assert(r.albums@ =~= self.albums@);
            assert(r.singles@ =~= self.singles@);
        }
        r
    }

    /// Appends the encoding of this artist.
    pub fn to_bytes(&self, out: &mut Vec<u8>)
        ensures
            final(out)@ == old(out)@ + artist_bytes(self@),
    {
        let ghost o = out@;
        put_u64(out, self.id);
        put_text(out, self.name.as_str());
        put_opt_u64(out, self.cover);
        put_u64s(out, &self.albums);
        put_u64s(out, &self.singles);
        put_texts(out, &self.general.tags);
        proof {
            assert(out@ =~= o + artist_bytes(self@));
        }
    }

    /// Reads an artist at `pos`; returns it and the position after it.
    #[verifier::rlimit(100)]
    pub fn from_bytes(buf: &[u8], pos: usize) -> (r: Result<(Artist, usize), CodecError>)
        ensures
            r matches Ok((x, p)) ==> pos < p <= buf@.len(),
            forall|v: ArtistV| holds_at(buf@, pos as int, #[trigger] artist_bytes(v)) ==> (r matches Ok((x, p))
                && x@ == v && p == pos + artist_bytes(v).len()),
            forall|v: ArtistV| cut_at(buf@, pos as int, #[trigger] artist_bytes(v)) ==> r is Err,
    {
        let buf_len = buf.len();
        proof {
            assert forall|v: ArtistV| cut_at(buf@, pos as int, #[trigger] artist_bytes(v)) implies ({
                let q1 = pos + le_bytes(v.id).len();
                let q2 = q1 + text_bytes(v.name).len();
                let q3 = q2 + opt_u64_bytes(v.cover).len();
                let q4 = q3 + u64s_bytes(v.albums).len();
                let q5 = q4 + u64s_bytes(v.singles).len();
                cut_at(buf@, pos as int, le_bytes(v.id)) || (holds_at(buf@, pos as int, le_bytes(v.id)) && (cut_at(buf@, q1, text_bytes(v.name)) || (holds_at(buf@, q1, text_bytes(v.name)) && (cut_at(buf@, q2, opt_u64_bytes(v.cover)) || (holds_at(buf@, q2, opt_u64_bytes(v.cover)) && (cut_at(buf@, q3, u64s_bytes(v.albums)) || (holds_at(buf@, q3, u64s_bytes(v.albums)) && (cut_at(buf@, q4, u64s_bytes(v.singles)) || (holds_at(buf@, q4, u64s_bytes(v.singles)) && (cut_at(buf@, q5, texts_bytes(v.general))))))))))))
            }) by {
                let q1 = pos + le_bytes(v.id).len();
                let q2 = q1 + text_bytes(v.name).len();
                let q3 = q2 + opt_u64_bytes(v.cover).len();
                let q4 = q3 + u64s_bytes(v.albums).len();
                let q5 = q4 + u64s_bytes(v.singles).len();
                lemma_cut_split_if(buf@, pos as int, le_bytes(v.id), text_bytes(v.name) + (opt_u64_bytes(v.cover) + (u64s_bytes(v.albums) + (u64s_bytes(v.singles) + (texts_bytes(v.general))))));
                lemma_cut_split_if(buf@, q1, text_bytes(v.name), opt_u64_bytes(v.cover) + (u64s_bytes(v.albums) + (u64s_bytes(v.singles) + (texts_bytes(v.general)))));
                lemma_cut_split_if(buf@, q2, opt_u64_bytes(v.cover), u64s_bytes(v.albums) + (u64s_bytes(v.singles) + (texts_bytes(v.general))));
                lemma_cut_split_if(buf@, q3, u64s_bytes(v.albums), u64s_bytes(v.singles) + (texts_bytes(v.general)));
                lemma_cut_split_if(buf@, q4, u64s_bytes(v.singles), texts_bytes(v.general));
            }
            assert forall|v: ArtistV| holds_at(buf@, pos as int, #[trigger] artist_bytes(v)) implies {
                let q1 = pos + le_bytes(v.id).len();
                let q2 = q1 + text_bytes(v.name).len();
                let q3 = q2 + opt_u64_bytes(v.cover).len();
                let q4 = q3 + u64s_bytes(v.albums).len();
                let q5 = q4 + u64s_bytes(v.singles).len();
                &&& holds_at(buf@, pos as int, le_bytes(v.id))
                &&& holds_at(buf@, q1, text_bytes(v.name))
                &&& holds_at(buf@, q2, opt_u64_bytes(v.cover))
                &&& holds_at(buf@, q3, u64s_bytes(v.albums))
                &&& holds_at(buf@, q4, u64s_bytes(v.singles))
                &&& holds_at(buf@, q5, texts_bytes(v.general))
            } by {
                let q1 = pos + le_bytes(v.id).len();
                let q2 = q1 + text_bytes(v.name).len();
                let q3 = q2 + opt_u64_bytes(v.cover).len();
                let q4 = q3 + u64s_bytes(v.albums).len();
                let q5 = q4 + u64s_bytes(v.singles).len();
                let t4 = u64s_bytes(v.singles) + texts_bytes(v.general);
                let t3 = u64s_bytes(v.albums) + t4;
                let t2 = opt_u64_bytes(v.cover) + t3;
                let t1 = text_bytes(v.name) + t2;
                let t0 = le_bytes(v.id) + t1;
                lemma_holds_concat(buf@, pos as int, le_bytes(v.id), t1);
                lemma_holds_concat(buf@, q1, text_bytes(v.name), t2);
                lemma_holds_concat(buf@, q2, opt_u64_bytes(v.cover), t3);
                lemma_holds_concat(buf@, q3, u64s_bytes(v.albums), t4);
                lemma_holds_concat(buf@, q4, u64s_bytes(v.singles), texts_bytes(v.general));
            }
        }
        let (id, p1) = get_u64(buf, pos)?;
        let (name, p2) = get_text(buf, p1)?;
        let (cover, p3) = get_opt_u64(buf, p2)?;
        let (albums, p4) = get_u64s(buf, p3)?;
        let (singles, p5) = get_u64s(buf, p4)?;
        let (tags, p6) = get_texts(buf, p5)?;
        proof {
            assert forall|v: ArtistV| !cut_at(buf@, pos as int, #[trigger] artist_bytes(v)) by {
            }
        }
        Ok((Artist { id, name, cover, albums, singles, general: GeneralData { tags } }, p6))
    }
}

impl Album {
    /// A copy with the same value.
    pub fn duplicate(&self) -> (r: Album)
        ensures
            r@ == self@,
    {
        let r = Album {
            id: self.id,
            artist: self.artist,
            name: self.name.clone(),
            cover: self.cover,
            songs: self.songs.clone(),
            general: self.general.duplicate(),
        };
        proof {
            assert(r.songs@ =~= self.songs@);
        }
        r
    }

    /// Appends the encoding of this album.
    pub fn to_bytes(&self, out: &mut Vec<u8>)
        ensures
            final(out)@ == old(out)@ + album_bytes(self@),
    {
        let ghost o = out@;
        put_u64(out, self.id);
        put_u64(out, self.artist);
        put_text(out, self.name.as_str());
        put_opt_u64(out, self.cover);
        put_u64s(out, &self.songs);
        put_texts(out, &self.general.tags);
        proof {
            assert(out@ =~= o + album_bytes(self@));
        }
    }

    /// Reads an album at `pos`; returns it and the position after it.
    #[verifier::rlimit(100)]
    pub fn from_bytes(buf: &[u8], pos: usize) -> (r: Result<(Album, usize), CodecError>)
        ensures
            r matches Ok((x, p)) ==> pos < p <= buf@.len(),
            forall|v: AlbumV| holds_at(buf@, pos as int, #[trigger] album_bytes(v)) ==> (r matches Ok((x, p))
                && x@ == v && p == pos + album_bytes(v).len()),
            forall|v: AlbumV| cut_at(buf@, pos as int, #[trigger] album_bytes(v)) ==> r is Err,
    {
        let buf_len = buf.len();
        proof {
            assert forall|v: AlbumV| cut_at(buf@, pos as int, #[trigger] album_bytes(v)) implies ({
                let q1 = pos + le_bytes(v.id).len();
                let q2 = q1 + le_bytes(v.artist).len();
                let q3 = q2 + text_bytes(v.name).len();
                let q4 = q3 + opt_u64_bytes(v.cover).len();
                let q5 = q4 + u64s_bytes(v.songs).len();
                cut_at(buf@, pos as int, le_bytes(v.id)) || (holds_at(buf@, pos as int, le_bytes(v.id)) && (cut_at(buf@, q1, le_bytes(v.artist)) || (holds_at(buf@, q1, le_bytes(v.artist)) && (cut_at(buf@, q2, text_bytes(v.name)) || (holds_at(buf@, q2, text_bytes(v.name)) && (cut_at(buf@, q3, opt_u64_bytes(v.cover)) || (holds_at(buf@, q3, opt_u64_bytes(v.cover)) && (cut_at(buf@, q4, u64s_bytes(v.songs)) || (holds_at(buf@, q4, u64s_bytes(v.songs)) && (cut_at(buf@, q5, texts_bytes(v.general))))))))))))
            }) by {
                let q1 = pos + le_bytes(v.id).len();
                let q2 = q1 + le_bytes(v.artist).len();
                let q3 = q2 + text_bytes(v.name).len();
                let q4 = q3 + opt_u64_bytes(v.cover).len();
                let q5 = q4 + u64s_bytes(v.songs).len();
                lemma_cut_split_if(buf@, pos as int, le_bytes(v.id), le_bytes(v.artist) + (text_bytes(v.name) + (opt_u64_bytes(v.cover) + (u64s_bytes(v.songs) + (texts_bytes(v.general))))));
                lemma_cut_split_if(buf@, q1, le_bytes(v.artist), text_bytes(v.name) + (opt_u64_bytes(v.cover) + (u64s_bytes(v.songs) + (texts_bytes(v.general)))));
                lemma_cut_split_if(buf@, q2, text_bytes(v.name), opt_u64_bytes(v.cover) + (u64s_bytes(v.songs) + (texts_bytes(v.general))));
                lemma_cut_split_if(buf@, q3, opt_u64_bytes(v.cover), u64s_bytes(v.songs) + (texts_bytes(v.general)));
                lemma_cut_split_if(buf@, q4, u64s_bytes(v.songs), texts_bytes(v.general));
            }
            assert forall|v: AlbumV| holds_at(buf@, pos as int, #[trigger] album_bytes(v)) implies {
                let q1 = pos + le_bytes(v.id).len();
                let q2 = q1 + le_bytes(v.artist).len();
                let q3 = q2 + text_bytes(v.name).len();
                let q4 = q3 + opt_u64_bytes(v.cover).len();
                let q5 = q4 + u64s_bytes(v.songs).len();
                &&& holds_at(buf@, pos as int, le_bytes(v.id))
                &&& holds_at(buf@, q1, le_bytes(v.artist))
                &&& holds_at(buf@, q2, text_bytes(v.name))
                &&& holds_at(buf@, q3, opt_u64_bytes(v.cover))
                &&& holds_at(buf@, q4, u64s_bytes(v.songs))
                &&& holds_at(buf@, q5, texts_bytes(v.general))
            } by {
                let q1 = pos + le_bytes(v.id).len();
                let q2 = q1 + le_bytes(v.artist).len();
                let q3 = q2 + text_bytes(v.name).len();
                let q4 = q3 + opt_u64_bytes(v.cover).len();
                let q5 = q4 + u64s_bytes(v.songs).len();
                let t4 = u64s_bytes(v.songs) + texts_bytes(v.general);
                let t3 = opt_u64_bytes(v.cover) + t4;
                let t2 = text_bytes(v.name) + t3;
                let t1 = le_bytes(v.artist) + t2;
                let t0 = le_bytes(v.id) + t1;
                lemma_holds_concat(buf@, pos as int, le_bytes(v.id), t1);
                lemma_holds_concat(buf@, q1, le_bytes(v.artist), t2);
                lemma_holds_concat(buf@, q2, text_bytes(v.name), t3);
                lemma_holds_concat(buf@, q3, opt_u64_bytes(v.cover), t4);
                lemma_holds_concat(buf@, q4, u64s_bytes(v.songs), texts_bytes(v.general));
            }
        }
        let (id, p1) = get_u64(buf, pos)?;
        let (artist, p2) = get_u64(buf, p1)?;
        let (name, p3) = get_text(buf, p2)?;
        let (cover, p4) = get_opt_u64(buf, p3)?;
        let (songs, p5) = get_u64s(buf, p4)?;
        let (tags, p6) = get_texts(buf, p5)?;
        proof {
            assert forall|v: AlbumV| !cut_at(buf@, pos as int, #[trigger] album_bytes(v)) by {
            }
        }
        Ok((Album { id, artist, name, cover, songs, general: GeneralData { tags } }, p6))
    }
}

impl Song {
    /// A song with id 0 (replaced when it is added), no tags, and no size or
    /// duration recorded.
    pub fn new(
        location: DatabaseLocation,
        title: String,
        album: Option<u64>,
        artist: u64,
        more_artists: Vec<u64>,
        cover: Option<u64>,
    ) -> (r: Song)
        ensures
            r@ == (SongV {
                id: 0,
                location: location.rel_path@,
                title: title@,
                album,
                artist,
                more_artists: more_artists@,
                cover,
                file_size: 0,
                duration_millis: 0,
                general: Seq::empty(),
            }),
    {
        let tags: Vec<String> = Vec::new();
        assert(strings_view(tags@) =~= Seq::<Seq<char>>::empty());
        Song {
            id: 0,
            location,
            title,
            album,
            artist,
            more_artists,
            cover,
            file_size: 0,
            duration_millis: 0,
            general: GeneralData { tags },
        }
    }

    /// A copy with the same value.
    pub fn duplicate(&self) -> (r: Song)
        ensures
            r@ == self@,
    {
        let r = Song {
            id: self.id,
            location: DatabaseLocation { rel_path: self.location.rel_path.clone() },
            title: self.title.clone(),
            album: self.album,
            artist: self.artist,
            more_artists: self.more_artists.clone(),
            cover: self.cover,
            file_size: self.file_size,
            duration_millis: self.duration_millis,
            general: self.general.duplicate(),
        };
        proof {
            assert(r.more_artists@ =~= self.more_artists@);
        }
        r
    }

    /// Appends the encoding of this song.
    pub fn to_bytes(&self, out: &mut Vec<u8>)
        ensures
            final(out)@ == old(out)@ + song_bytes(self@),
    {
        let ghost o = out@;
        put_u64(out, self.id);
        put_text(out, self.location.rel_path.as_str());
        put_text(out, self.title.as_str());
        put_opt_u64(out, self.album);
        put_u64(out, self.artist);
        put_u64s(out, &self.more_artists);
        put_opt_u64(out, self.cover);
        put_u64(out, self.file_size);
        put_u64(out, self.duration_millis);
        put_texts(out, &self.general.tags);
        proof {
            assert(out@ =~= o + song_bytes(self@));
        }
    }

    /// Reads a song at `pos`; returns it and the position after it.
    #[verifier::rlimit(100)]
    pub fn from_bytes(buf: &[u8], pos: usize) -> (r: Result<(Song, usize), CodecError>)
        ensures
            r matches Ok((x, p)) ==> pos < p <= buf@.len(),
            forall|v: SongV| holds_at(buf@, pos as int, #[trigger] song_bytes(v)) ==> (r matches Ok((x, p))
                && x@ == v && p == pos + song_bytes(v).len()),
            forall|v: SongV| cut_at(buf@, pos as int, #[trigger] song_bytes(v)) ==> r is Err,
    {
        let buf_len = buf.len();
        proof {
            assert forall|v: SongV| cut_at(buf@, pos as int, #[trigger] song_bytes(v)) implies ({
                let q1 = pos + le_bytes(v.id).len();
                let q2 = q1 + text_bytes(v.location).len();
                let q3 = q2 + text_bytes(v.title).len();
                let q4 = q3 + opt_u64_bytes(v.album).len();
                let q5 = q4 + le_bytes(v.artist).len();
                let q6 = q5 + u64s_bytes(v.more_artists).len();
                let q7 = q6 + opt_u64_bytes(v.cover).len();
                let q8 = q7 + le_bytes(v.file_size).len();
                let q9 = q8 + le_bytes(v.duration_millis).len();
                cut_at(buf@, pos as int, le_bytes(v.id)) || (holds_at(buf@, pos as int, le_bytes(v.id)) && (cut_at(buf@, q1, text_bytes(v.location)) || (holds_at(buf@, q1, text_bytes(v.location)) && (cut_at(buf@, q2, text_bytes(v.title)) || (holds_at(buf@, q2, text_bytes(v.title)) && (cut_at(buf@, q3, opt_u64_bytes(v.album)) || (holds_at(buf@, q3, opt_u64_bytes(v.album)) && (cut_at(buf@, q4, le_bytes(v.artist)) || (holds_at(buf@, q4, le_bytes(v.artist)) && (cut_at(buf@, q5, u64s_bytes(v.more_artists)) || (holds_at(buf@, q5, u64s_bytes(v.more_artists)) && (cut_at(buf@, q6, opt_u64_bytes(v.cover)) || (holds_at(buf@, q6, opt_u64_bytes(v.cover)) && (cut_at(buf@, q7, le_bytes(v.file_size)) || (holds_at(buf@, q7, le_bytes(v.file_size)) && (cut_at(buf@, q8, le_bytes(v.duration_millis)) || (holds_at(buf@, q8, le_bytes(v.duration_millis)) && (cut_at(buf@, q9, texts_bytes(v.general))))))))))))))))))))
            }) by {
                let q1 = pos + le_bytes(v.id).len();
                let q2 = q1 + text_bytes(v.location).len();
                let q3 = q2 + text_bytes(v.title).len();
                let q4 = q3 + opt_u64_bytes(v.album).len();
                let q5 = q4 + le_bytes(v.artist).len();
                let q6 = q5 + u64s_bytes(v.more_artists).len();
                let q7 = q6 + opt_u64_bytes(v.cover).len();
                let q8 = q7 + le_bytes(v.file_size).len();
                let q9 = q8 + le_bytes(v.duration_millis).len();
                lemma_cut_split_if(buf@, pos as int, le_bytes(v.id), text_bytes(v.location) + (text_bytes(v.title) + (opt_u64_bytes(v.album) + (le_bytes(v.artist) + (u64s_bytes(v.more_artists) + (opt_u64_bytes(v.cover) + (le_bytes(v.file_size) + (le_bytes(v.duration_millis) + (texts_bytes(v.general))))))))));
                lemma_cut_split_if(buf@, q1, text_bytes(v.location), text_bytes(v.title) + (opt_u64_bytes(v.album) + (le_bytes(v.artist) + (u64s_bytes(v.more_artists) + (opt_u64_bytes(v.cover) + (le_bytes(v.file_size) + (le_bytes(v.duration_millis) + (texts_bytes(v.general)))))))));
                lemma_cut_split_if(buf@, q2, text_bytes(v.title), opt_u64_bytes(v.album) + (le_bytes(v.artist) + (u64s_bytes(v.more_artists) + (opt_u64_bytes(v.cover) + (le_bytes(v.file_size) + (le_bytes(v.duration_millis) + (texts_bytes(v.general))))))));
                lemma_cut_split_if(buf@, q3, opt_u64_bytes(v.album), le_bytes(v.artist) + (u64s_bytes(v.more_artists) + (opt_u64_bytes(v.cover) + (le_bytes(v.file_size) + (le_bytes(v.duration_millis) + (texts_bytes(v.general)))))));
                lemma_cut_split_if(buf@, q4, le_bytes(v.artist), u64s_bytes(v.more_artists) + (opt_u64_bytes(v.cover) + (le_bytes(v.file_size) + (le_bytes(v.duration_millis) + (texts_bytes(v.general))))));
                lemma_cut_split_if(buf@, q5, u64s_bytes(v.more_artists), opt_u64_bytes(v.cover) + (le_bytes(v.file_size) + (le_bytes(v.duration_millis) + (texts_bytes(v.general)))));
                lemma_cut_split_if(buf@, q6, opt_u64_bytes(v.cover), le_bytes(v.file_size) + (le_bytes(v.duration_millis) + (texts_bytes(v.general))));
                lemma_cut_split_if(buf@, q7, le_bytes(v.file_size), le_bytes(v.duration_millis) + (texts_bytes(v.general)));
                lemma_cut_split_if(buf@, q8, le_bytes(v.duration_millis), texts_bytes(v.general));
            }
            assert forall|v: SongV| holds_at(buf@, pos as int, #[trigger] song_bytes(v)) implies {
                let q1 = pos + le_bytes(v.id).len();
                let q2 = q1 + text_bytes(v.location).len();
                let q3 = q2 + text_bytes(v.title).len();
                let q4 = q3 + opt_u64_bytes(v.album).len();
                let q5 = q4 + le_bytes(v.artist).len();
                let q6 = q5 + u64s_bytes(v.more_artists).len();
                let q7 = q6 + opt_u64_bytes(v.cover).len();
                let q8 = q7 + le_bytes(v.file_size).len();
                let q9 = q8 + le_bytes(v.duration_millis).len();
                &&& holds_at(buf@, pos as int, le_bytes(v.id))
                &&& holds_at(buf@, q1, text_bytes(v.location))
                &&& holds_at(buf@, q2, text_bytes(v.title))
                &&& holds_at(buf@, q3, opt_u64_bytes(v.album))
                &&& holds_at(buf@, q4, le_bytes(v.artist))
                &&& holds_at(buf@, q5, u64s_bytes(v.more_artists))
                &&& holds_at(buf@, q6, opt_u64_bytes(v.cover))
                &&& holds_at(buf@, q7, le_bytes(v.file_size))
                &&& holds_at(buf@, q8, le_bytes(v.duration_millis))
                &&& holds_at(buf@, q9, texts_bytes(v.general))
            } by {
                let q1 = pos + le_bytes(v.id).len();
                let q2 = q1 + text_bytes(v.location).len();
                let q3 = q2 + text_bytes(v.title).len();
                let q4 = q3 + opt_u64_bytes(v.album).len();
                let q5 = q4 + le_bytes(v.artist).len();
                let q6 = q5 + u64s_bytes(v.more_artists).len();
                let q7 = q6 + opt_u64_bytes(v.cover).len();
                let q8 = q7 + le_bytes(v.file_size).len();
                let q9 = q8 + le_bytes(v.duration_millis).len();
                let t8 = le_bytes(v.duration_millis) + texts_bytes(v.general);
                let t7 = le_bytes(v.file_size) + t8;
                let t6 = opt_u64_bytes(v.cover) + t7;
                let t5 = u64s_bytes(v.more_artists) + t6;
                let t4 = le_bytes(v.artist) + t5;
                let t3 = opt_u64_bytes(v.album) + t4;
                let t2 = text_bytes(v.title) + t3;
                let t1 = text_bytes(v.location) + t2;
                let t0 = le_bytes(v.id) + t1;
                lemma_holds_concat(buf@, pos as int, le_bytes(v.id), t1);
                lemma_holds_concat(buf@, q1, text_bytes(v.location), t2);
                lemma_holds_concat(buf@, q2, text_bytes(v.title), t3);
                lemma_holds_concat(buf@, q3, opt_u64_bytes(v.album), t4);
                lemma_holds_concat(buf@, q4, le_bytes(v.artist), t5);
                lemma_holds_concat(buf@, q5, u64s_bytes(v.more_artists), t6);
                lemma_holds_concat(buf@, q6, opt_u64_bytes(v.cover), t7);
                lemma_holds_concat(buf@, q7, le_bytes(v.file_size), t8);
                lemma_holds_concat(buf@, q8, le_bytes(v.duration_millis), texts_bytes(v.general));
            }
        }
        let (id, p1) = get_u64(buf, pos)?;
        let (rel_path, p2) = get_text(buf, p1)?;
        let (title, p3) = get_text(buf, p2)?;
        let (album, p4) = get_opt_u64(buf, p3)?;
        let (artist, p5) = get_u64(buf, p4)?;
        let (more_artists, p6) = get_u64s(buf, p5)?;
        let (cover, p7) = get_opt_u64(buf, p6)?;
        let (file_size, p8) = get_u64(buf, p7)?;
        let (duration_millis, p9) = get_u64(buf, p8)?;
        let (tags, p10) = get_texts(buf, p9)?;
        proof {
            assert forall|v: SongV| !cut_at(buf@, pos as int, #[trigger] song_bytes(v)) by {
            }
        }
        Ok((Song { id, location: DatabaseLocation { rel_path }, title, album, artist, more_artists, cover, file_size, duration_millis, general: GeneralData { tags } }, p10))
    }
}

impl Cover {
    /// A copy with the same value.
    pub fn duplicate(&self) -> (r: Cover)
        ensures
            r@ == self@,
    {
        Cover { id: self.id, location: DatabaseLocation { rel_path: self.location.rel_path.clone() } }
    }

    /// Appends the encoding of this cover.
    pub fn to_bytes(&self, out: &mut Vec<u8>)
        ensures
            final(out)@ == old(out)@ + cover_bytes(self@),
    {
        let ghost o = out@;
        put_u64(out, self.id);
        put_text(out, self.location.rel_path.as_str());
        proof {
            assert(out@ =~= o + cover_bytes(self@));
        }
    }

    /// Reads a cover at `pos`; returns it and the position after it.
    #[verifier::rlimit(30)]
    pub fn from_bytes(buf: &[u8], pos: usize) -> (r: Result<(Cover, usize), CodecError>)
        ensures
            r matches Ok((x, p)) ==> pos < p <= buf@.len(),
            forall|v: CoverV| holds_at(buf@, pos as int, #[trigger] cover_bytes(v)) ==> (r matches Ok((x, p))
                && x@ == v && p == pos + cover_bytes(v).len()),
            forall|v: CoverV| cut_at(buf@, pos as int, #[trigger] cover_bytes(v)) ==> r is Err,
    {
        let buf_len = buf.len();
        proof {
            assert forall|v: CoverV| cut_at(buf@, pos as int, #[trigger] cover_bytes(v)) implies ({
                let q1 = pos + le_bytes(v.id).len();
                cut_at(buf@, pos as int, le_bytes(v.id)) || (holds_at(buf@, pos as int, le_bytes(v.id)) && (cut_at(buf@, q1, text_bytes(v.location))))
            }) by {
                let q1 = pos + le_bytes(v.id).len();
                lemma_cut_split_if(buf@, pos as int, le_bytes(v.id), text_bytes(v.location));
            }
            assert forall|v: CoverV| holds_at(buf@, pos as int, #[trigger] cover_bytes(v)) implies {
                let q1 = pos + le_bytes(v.id).len();
                &&& holds_at(buf@, pos as int, le_bytes(v.id))
                &&& holds_at(buf@, q1, text_bytes(v.location))
            } by {
                let q1 = pos + le_bytes(v.id).len();
                let t0 = le_bytes(v.id) + text_bytes(v.location);
                lemma_holds_concat(buf@, pos as int, le_bytes(v.id), text_bytes(v.location));
            }
        }
        let (id, p1) = get_u64(buf, pos)?;
        let (rel_path, p2) = get_text(buf, p1)?;
        proof {
            assert forall|v: CoverV| !cut_at(buf@, pos as int, #[trigger] cover_bytes(v)) by {
            }
        }
        Ok((Cover { id, location: DatabaseLocation { rel_path } }, p2))
    }
}

/// The encodings of a sequence of artists, one after the other.
pub open spec fn artists_body(s: Seq<ArtistV>) -> Seq<u8>
    decreases s.len(),
{
    if s.len() == 0 {
        Seq::empty()
    } else {
        artists_body(s.drop_last()) + artist_bytes(s.last())
    }
}

/// A sequence of artists: its length, then each artist.
pub open spec fn artists_bytes(s: Seq<ArtistV>) -> Seq<u8> {
    le_bytes(s.len() as u64) + artists_body(s)
}

proof fn lemma_artists_body_len(s: Seq<ArtistV>)
    ensures
        artists_body(s).len() >= 8 * s.len(),
    decreases s.len(),
{
    if s.len() > 0 {
        lemma_artists_body_len(s.drop_last());
    }
}

proof fn lemma_artists_body_prefix(s: Seq<ArtistV>, i: int)
    requires
        0 <= i < s.len(),
    ensures
        artists_body(s.subrange(0, i + 1)) == artists_body(s.subrange(0, i)) + artist_bytes(s[i]),
        artists_body(s).len() >= artists_body(s.subrange(0, i + 1)).len(),
        artists_body(s).subrange(0, artists_body(s.subrange(0, i + 1)).len() as int) == artists_body(s.subrange(0, i + 1)),
    decreases s.len() - i,
{
    assert(s.subrange(0, i + 1).drop_last() =~= s.subrange(0, i));
    if i + 1 < s.len() {
        lemma_artists_body_prefix(s, i + 1);
        let a = artists_body(s.subrange(0, i + 1));
        let b = artists_body(s.subrange(0, i + 2));
        assert(artists_body(s).subrange(0, a.len() as int) =~= b.subrange(0, a.len() as int));
        assert(b.subrange(0, a.len() as int) =~= a);
    } else {
        assert(s.subrange(0, i + 1) =~= s);
        assert(artists_body(s).subrange(0, artists_body(s).len() as int) =~= artists_body(s));
    }
}

pub open spec fn artists_seq_view(v: Seq<Artist>) -> Seq<ArtistV> {
    v.map_values(|x: Artist| x@)
}

/// Appends a sequence of artists.
pub fn put_artists(out: &mut Vec<u8>, v: &Vec<Artist>)
    ensures
        final(out)@ == old(out)@ + artists_bytes(artists_seq_view(v@)),
{
    put_u64(out, v.len() as u64);
    let ghost start = out@;
    let ghost sv = artists_seq_view(v@);
    let mut i: usize = 0;
    while i < v.len()
        invariant
            i <= v@.len(),
            sv == artists_seq_view(v@),
            out@ == start + artists_body(sv.subrange(0, i as int)),
        decreases v.len() - i,
    {
        v[i].to_bytes(out);
        proof {
            assert(sv.subrange(0, i + 1).drop_last() =~= sv.subrange(0, i as int));
        }
        i += 1;
        assert(out@ =~= start + artists_body(sv.subrange(0, i as int)));
    }
    assert(sv.subrange(0, i as int) =~= sv);
    assert(out@ =~= old(out)@ + artists_bytes(artists_seq_view(v@)));
}

/// Reads a sequence of artists at `pos`.
#[verifier::rlimit(100)]
#[verifier::spinoff_prover]
pub fn get_artists(buf: &[u8], pos: usize) -> (r: Result<(Vec<Artist>, usize), CodecError>)
    ensures
        r matches Ok((v, p)) ==> pos < p <= buf@.len(),
        forall|s: Seq<ArtistV>| holds_at(buf@, pos as int, #[trigger] artists_bytes(s)) ==> (r matches Ok((v, p))
            && artists_seq_view(v@) == s && p == pos + artists_bytes(s).len()),
        forall|s: Seq<ArtistV>| cut_at(buf@, pos as int, #[trigger] artists_bytes(s)) ==> r is Err,
{
    let buf_len = buf.len();
    proof {
        assert forall|s: Seq<ArtistV>| cut_at(buf@, pos as int, #[trigger] artists_bytes(s)) implies (cut_at(buf@, pos as int, le_bytes(s.len() as u64))
            || (holds_at(buf@, pos as int, le_bytes(s.len() as u64)) && cut_at(buf@, pos + 8, artists_body(s)))) && s.len() <= u64::MAX by {
            lemma_cut_split(buf@, pos as int, le_bytes(s.len() as u64), artists_body(s));
            lemma_artists_body_len(s);
        }
        assert forall|s: Seq<ArtistV>| holds_at(buf@, pos as int, #[trigger] artists_bytes(s)) implies
            holds_at(buf@, pos as int, le_bytes(s.len() as u64)) && holds_at(buf@, pos + 8, artists_body(s))
            && s.len() <= u64::MAX by {
            lemma_holds_concat(buf@, pos as int, le_bytes(s.len() as u64), artists_body(s));
            lemma_artists_body_len(s);
        }
    }
    let (count, mut p) = get_u64(buf, pos)?;
    let mut v: Vec<Artist> = Vec::new();
    let mut i: u64 = 0;
    while i < count
        invariant
            i <= count,
            v@.len() == i,
            pos < p <= buf@.len(),
            forall|s: Seq<ArtistV>| holds_at(buf@, pos as int, #[trigger] artists_bytes(s)) ==> {
                &&& s.len() == count
                &&& artists_seq_view(v@) == s.subrange(0, i as int)
                &&& p == pos + 8 + artists_body(s.subrange(0, i as int)).len()
                &&& holds_at(buf@, pos + 8, artists_body(s))
            },
            forall|s: Seq<ArtistV>| cut_at(buf@, pos as int, #[trigger] artists_bytes(s)) ==> {
                &&& s.len() == count
                &&& p == pos + 8 + artists_body(s.subrange(0, i as int)).len()
                &&& cut_at(buf@, pos + 8, artists_body(s))
            },
        decreases count - i,
    {
        proof {
            assert forall|s: Seq<ArtistV>| cut_at(buf@, pos as int, #[trigger] artists_bytes(s)) implies
                (cut_at(buf@, p as int, artist_bytes(s[i as int])) || holds_at(buf@, p as int, artist_bytes(s[i as int])))
                && artists_body(s.subrange(0, i + 1)) == artists_body(s.subrange(0, i as int)) + artist_bytes(s[i as int]) by {
                lemma_artists_body_prefix(s, i as int);
                lemma_cut_step(buf@, pos + 8, artists_body(s.subrange(0, i as int)), artist_bytes(s[i as int]), artists_body(s));
            }
            assert forall|s: Seq<ArtistV>| holds_at(buf@, pos as int, #[trigger] artists_bytes(s)) implies
                holds_at(buf@, p as int, artist_bytes(s[i as int]))
                && p + artist_bytes(s[i as int]).len() == pos + 8 + artists_body(s.subrange(0, i + 1)).len() by {
                lemma_artists_body_prefix(s, i as int);
                lemma_holds_prefix(buf@, pos + 8, artists_body(s.subrange(0, i + 1)), artists_body(s));
                lemma_holds_concat(buf@, pos + 8, artists_body(s.subrange(0, i as int)), artist_bytes(s[i as int]));
            }
        }
        let ghost p_old = p;
        let (t, q) = Artist::from_bytes(buf, p)?;
        let ghost before = v@;
        v.push(t);
        p = q;
        i += 1;
        proof {
            assert forall|s: Seq<ArtistV>| cut_at(buf@, pos as int, #[trigger] artists_bytes(s)) implies p == pos + 8 + artists_body(s.subrange(0, i as int)).len() by {
                assert(holds_at(buf@, p_old as int, artist_bytes(s[i - 1])));
            }
        }
        proof {
            assert forall|s: Seq<ArtistV>| holds_at(buf@, pos as int, #[trigger] artists_bytes(s)) implies artists_seq_view(v@) == s.subrange(0, i as int) by {
                assert(artists_seq_view(v@) =~= artists_seq_view(before).push(v@.last()@));
                assert(artists_seq_view(v@) =~= s.subrange(0, i as int));
            }
        }
    }
    proof {
        assert forall|s: Seq<ArtistV>| holds_at(buf@, pos as int, #[trigger] artists_bytes(s)) implies artists_seq_view(v@) == s && p == pos + artists_bytes(s).len() by {
            assert(s.subrange(0, i as int) =~= s);
        }
    }
    proof {
        assert forall|s: Seq<ArtistV>| !cut_at(buf@, pos as int, #[trigger] artists_bytes(s)) by {
            if cut_at(buf@, pos as int, artists_bytes(s)) {
                assert(s.subrange(0, i as int) =~= s);
            }
        }
    }
    Ok((v, p))
}

/// The encodings of a sequence of albums, one after the other.
pub open spec fn albums_body(s: Seq<AlbumV>) -> Seq<u8>
    decreases s.len(),
{
    if s.len() == 0 {
        Seq::empty()
    } else {
        albums_body(s.drop_last()) + album_bytes(s.last())
    }
}

/// A sequence of albums: its length, then each album.
pub open spec fn albums_bytes(s: Seq<AlbumV>) -> Seq<u8> {
    le_bytes(s.len() as u64) + albums_body(s)
}

proof fn lemma_albums_body_len(s: Seq<AlbumV>)
    ensures
        albums_body(s).len() >= 8 * s.len(),
    decreases s.len(),
{
    if s.len() > 0 {
        lemma_albums_body_len(s.drop_last());
    }
}

proof fn lemma_albums_body_prefix(s: Seq<AlbumV>, i: int)
    requires
        0 <= i < s.len(),
    ensures
        albums_body(s.subrange(0, i + 1)) == albums_body(s.subrange(0, i)) + album_bytes(s[i]),
        albums_body(s).len() >= albums_body(s.subrange(0, i + 1)).len(),
        albums_body(s).subrange(0, albums_body(s.subrange(0, i + 1)).len() as int) == albums_body(s.subrange(0, i + 1)),
    decreases s.len() - i,
{
    assert(s.subrange(0, i + 1).drop_last() =~= s.subrange(0, i));
    if i + 1 < s.len() {
        lemma_albums_body_prefix(s, i + 1);
        let a = albums_body(s.subrange(0, i + 1));
        let b = albums_body(s.subrange(0, i + 2));
        assert(albums_body(s).subrange(0, a.len() as int) =~= b.subrange(0, a.len() as int));
        assert(b.subrange(0, a.len() as int) =~= a);
    } else {
        assert(s.subrange(0, i + 1) =~= s);
        assert(albums_body(s).subrange(0, albums_body(s).len() as int) =~= albums_body(s));
    }
}

pub open spec fn albums_seq_view(v: Seq<Album>) -> Seq<AlbumV> {
    v.map_values(|x: Album| x@)
}

/// Appends a sequence of albums.
pub fn put_albums(out: &mut Vec<u8>, v: &Vec<Album>)
    ensures
        final(out)@ == old(out)@ + albums_bytes(albums_seq_view(v@)),
{
    put_u64(out, v.len() as u64);
    let ghost start = out@;
    let ghost sv = albums_seq_view(v@);
    let mut i: usize = 0;
    while i < v.len()
        invariant
            i <= v@.len(),
            sv == albums_seq_view(v@),
            out@ == start + albums_body(sv.subrange(0, i as int)),
        decreases v.len() - i,
    {
        v[i].to_bytes(out);
        proof {
            assert(sv.subrange(0, i + 1).drop_last() =~= sv.subrange(0, i as int));
        }
        i += 1;
        assert(out@ =~= start + albums_body(sv.subrange(0, i as int)));
    }
    assert(sv.subrange(0, i as int) =~= sv);
    assert(out@ =~= old(out)@ + albums_bytes(albums_seq_view(v@)));
}

/// Reads a sequence of albums at `pos`.
#[verifier::rlimit(100)]
#[verifier::spinoff_prover]
pub fn get_albums(buf: &[u8], pos: usize) -> (r: Result<(Vec<Album>, usize), CodecError>)
    ensures
        r matches Ok((v, p)) ==> pos < p <= buf@.len(),
        forall|s: Seq<AlbumV>| holds_at(buf@, pos as int, #[trigger] albums_bytes(s)) ==> (r matches Ok((v, p))
            && albums_seq_view(v@) == s && p == pos + albums_bytes(s).len()),
        forall|s: Seq<AlbumV>| cut_at(buf@, pos as int, #[trigger] albums_bytes(s)) ==> r is Err,
{
    let buf_len = buf.len();
    proof {
        assert forall|s: Seq<AlbumV>| cut_at(buf@, pos as int, #[trigger] albums_bytes(s)) implies (cut_at(buf@, pos as int, le_bytes(s.len() as u64))
            || (holds_at(buf@, pos as int, le_bytes(s.len() as u64)) && cut_at(buf@, pos + 8, albums_body(s)))) && s.len() <= u64::MAX by {
            lemma_cut_split(buf@, pos as int, le_bytes(s.len() as u64), albums_body(s));
            lemma_albums_body_len(s);
        }
        assert forall|s: Seq<AlbumV>| holds_at(buf@, pos as int, #[trigger] albums_bytes(s)) implies
            holds_at(buf@, pos as int, le_bytes(s.len() as u64)) && holds_at(buf@, pos + 8, albums_body(s))
            && s.len() <= u64::MAX by {
            lemma_holds_concat(buf@, pos as int, le_bytes(s.len() as u64), albums_body(s));
            lemma_albums_body_len(s);
        }
    }
    let (count, mut p) = get_u64(buf, pos)?;
    let mut v: Vec<Album> = Vec::new();
    let mut i: u64 = 0;
    while i < count
        invariant
            i <= count,
            v@.len() == i,
            pos < p <= buf@.len(),
            forall|s: Seq<AlbumV>| holds_at(buf@, pos as int, #[trigger] albums_bytes(s)) ==> {
                &&& s.len() == count
                &&& albums_seq_view(v@) == s.subrange(0, i as int)
                &&& p == pos + 8 + albums_body(s.subrange(0, i as int)).len()
                &&& holds_at(buf@, pos + 8, albums_body(s))
            },
            forall|s: Seq<AlbumV>| cut_at(buf@, pos as int, #[trigger] albums_bytes(s)) ==> {
                &&& s.len() == count
                &&& p == pos + 8 + albums_body(s.subrange(0, i as int)).len()
                &&& cut_at(buf@, pos + 8, albums_body(s))
            },
        decreases count - i,
    {
        proof {
            assert forall|s: Seq<AlbumV>| cut_at(buf@, pos as int, #[trigger] albums_bytes(s)) implies
                (cut_at(buf@, p as int, album_bytes(s[i as int])) || holds_at(buf@, p as int, album_bytes(s[i as int])))
                && albums_body(s.subrange(0, i + 1)) == albums_body(s.subrange(0, i as int)) + album_bytes(s[i as int]) by {
                lemma_albums_body_prefix(s, i as int);
                lemma_cut_step(buf@, pos + 8, albums_body(s.subrange(0, i as int)), album_bytes(s[i as int]), albums_body(s));
            }
            assert forall|s: Seq<AlbumV>| holds_at(buf@, pos as int, #[trigger] albums_bytes(s)) implies
                holds_at(buf@, p as int, album_bytes(s[i as int]))
                && p + album_bytes(s[i as int]).len() == pos + 8 + albums_body(s.subrange(0, i + 1)).len() by {
                lemma_albums_body_prefix(s, i as int);
                lemma_holds_prefix(buf@, pos + 8, albums_body(s.subrange(0, i + 1)), albums_body(s));
                lemma_holds_concat(buf@, pos + 8, albums_body(s.subrange(0, i as int)), album_bytes(s[i as int]));
            }
        }
        let ghost p_old = p;
        let (t, q) = Album::from_bytes(buf, p)?;
        let ghost before = v@;
        v.push(t);
        p = q;
        i += 1;
        proof {
            assert forall|s: Seq<AlbumV>| cut_at(buf@, pos as int, #[trigger] albums_bytes(s)) implies p == pos + 8 + albums_body(s.subrange(0, i as int)).len() by {
                assert(holds_at(buf@, p_old as int, album_bytes(s[i - 1])));
            }
        }
        proof {
            assert forall|s: Seq<AlbumV>| holds_at(buf@, pos as int, #[trigger] albums_bytes(s)) implies albums_seq_view(v@) == s.subrange(0, i as int) by {
                assert(albums_seq_view(v@) =~= albums_seq_view(before).push(v@.last()@));
                assert(albums_seq_view(v@) =~= s.subrange(0, i as int));
            }
        }
    }
    proof {
        assert forall|s: Seq<AlbumV>| holds_at(buf@, pos as int, #[trigger] albums_bytes(s)) implies albums_seq_view(v@) == s && p == pos + albums_bytes(s).len() by {
            assert(s.subrange(0, i as int) =~= s);
        }
    }
    proof {
        assert forall|s: Seq<AlbumV>| !cut_at(buf@, pos as int, #[trigger] albums_bytes(s)) by {
            if cut_at(buf@, pos as int, albums_bytes(s)) {
                assert(s.subrange(0, i as int) =~= s);
            }
        }
    }
    Ok((v, p))
}

/// The encodings of a sequence of songs, one after the other.
pub open spec fn songs_body(s: Seq<SongV>) -> Seq<u8>
    decreases s.len(),
{
    if s.len() == 0 {
        Seq::empty()
    } else {
        songs_body(s.drop_last()) + song_bytes(s.last())
    }
}

/// A sequence of songs: its length, then each song.
pub open spec fn songs_bytes(s: Seq<SongV>) -> Seq<u8> {
    le_bytes(s.len() as u64) + songs_body(s)
}

proof fn lemma_songs_body_len(s: Seq<SongV>)
    ensures
        songs_body(s).len() >= 8 * s.len(),
    decreases s.len(),
{
    if s.len() > 0 {
        lemma_songs_body_len(s.drop_last());
    }
}

proof fn lemma_songs_body_prefix(s: Seq<SongV>, i: int)
    requires
        0 <= i < s.len(),
    ensures
        songs_body(s.subrange(0, i + 1)) == songs_body(s.subrange(0, i)) + song_bytes(s[i]),
        songs_body(s).len() >= songs_body(s.subrange(0, i + 1)).len(),
        songs_body(s).subrange(0, songs_body(s.subrange(0, i + 1)).len() as int) == songs_body(s.subrange(0, i + 1)),
    decreases s.len() - i,
{
    assert(s.subrange(0, i + 1).drop_last() =~= s.subrange(0, i));
    if i + 1 < s.len() {
        lemma_songs_body_prefix(s, i + 1);
        let a = songs_body(s.subrange(0, i + 1));
        let b = songs_body(s.subrange(0, i + 2));
        assert(songs_body(s).subrange(0, a.len() as int) =~= b.subrange(0, a.len() as int));
        assert(b.subrange(0, a.len() as int) =~= a);
    } else {
        assert(s.subrange(0, i + 1) =~= s);
        assert(songs_body(s).subrange(0, songs_body(s).len() as int) =~= songs_body(s));
    }
}

pub open spec fn songs_seq_view(v: Seq<Song>) -> Seq<SongV> {
    v.map_values(|x: Song| x@)
}

/// Appends a sequence of songs.
pub fn put_songs(out: &mut Vec<u8>, v: &Vec<Song>)
    ensures
        final(out)@ == old(out)@ + songs_bytes(songs_seq_view(v@)),
{
    put_u64(out, v.len() as u64);
    let ghost start = out@;
    let ghost sv = songs_seq_view(v@);
    let mut i: usize = 0;
    while i < v.len()
        invariant
            i <= v@.len(),
            sv == songs_seq_view(v@),
            out@ == start + songs_body(sv.subrange(0, i as int)),
        decreases v.len() - i,
    {
        v[i].to_bytes(out);
        proof {
            assert(sv.subrange(0, i + 1).drop_last() =~= sv.subrange(0, i as int));
        }
        i += 1;
        assert(out@ =~= start + songs_body(sv.subrange(0, i as int)));
    }
    assert(sv.subrange(0, i as int) =~= sv);
    assert(out@ =~= old(out)@ + songs_bytes(songs_seq_view(v@)));
}

/// Reads a sequence of songs at `pos`.
#[verifier::rlimit(100)]
#[verifier::spinoff_prover]
pub fn get_songs(buf: &[u8], pos: usize) -> (r: Result<(Vec<Song>, usize), CodecError>)
    ensures
        r matches Ok((v, p)) ==> pos < p <= buf@.len(),
        forall|s: Seq<SongV>| holds_at(buf@, pos as int, #[trigger] songs_bytes(s)) ==> (r matches Ok((v, p))
            && songs_seq_view(v@) == s && p == pos + songs_bytes(s).len()),
        forall|s: Seq<SongV>| cut_at(buf@, pos as int, #[trigger] songs_bytes(s)) ==> r is Err,
{
    let buf_len = buf.len();
    proof {
        assert forall|s: Seq<SongV>| cut_at(buf@, pos as int, #[trigger] songs_bytes(s)) implies (cut_at(buf@, pos as int, le_bytes(s.len() as u64))
            || (holds_at(buf@, pos as int, le_bytes(s.len() as u64)) && cut_at(buf@, pos + 8, songs_body(s)))) && s.len() <= u64::MAX by {
            lemma_cut_split(buf@, pos as int, le_bytes(s.len() as u64), songs_body(s));
            lemma_songs_body_len(s);
        }
        assert forall|s: Seq<SongV>| holds_at(buf@, pos as int, #[trigger] songs_bytes(s)) implies
            holds_at(buf@, pos as int, le_bytes(s.len() as u64)) && holds_at(buf@, pos + 8, songs_body(s))
            && s.len() <= u64::MAX by {
            lemma_holds_concat(buf@, pos as int, le_bytes(s.len() as u64), songs_body(s));
            lemma_songs_body_len(s);
        }
    }
    let (count, mut p) = get_u64(buf, pos)?;
    let mut v: Vec<Song> = Vec::new();
    let mut i: u64 = 0;
    while i < count
        invariant
            i <= count,
            v@.len() == i,
            pos < p <= buf@.len(),
            forall|s: Seq<SongV>| holds_at(buf@, pos as int, #[trigger] songs_bytes(s)) ==> {
                &&& s.len() == count
                &&& songs_seq_view(v@) == s.subrange(0, i as int)
                &&& p == pos + 8 + songs_body(s.subrange(0, i as int)).len()
                &&& holds_at(buf@, pos + 8, songs_body(s))
            },
            forall|s: Seq<SongV>| cut_at(buf@, pos as int, #[trigger] songs_bytes(s)) ==> {
                &&& s.len() == count
                &&& p == pos + 8 + songs_body(s.subrange(0, i as int)).len()
                &&& cut_at(buf@, pos + 8, songs_body(s))
            },
        decreases count - i,
    {
        proof {
            assert forall|s: Seq<SongV>| cut_at(buf@, pos as int, #[trigger] songs_bytes(s)) implies
                (cut_at(buf@, p as int, song_bytes(s[i as int])) || holds_at(buf@, p as int, song_bytes(s[i as int])))
                && songs_body(s.subrange(0, i + 1)) == songs_body(s.subrange(0, i as int)) + song_bytes(s[i as int]) by {
                lemma_songs_body_prefix(s, i as int);
                lemma_cut_step(buf@, pos + 8, songs_body(s.subrange(0, i as int)), song_bytes(s[i as int]), songs_body(s));
            }
            assert forall|s: Seq<SongV>| holds_at(buf@, pos as int, #[trigger] songs_bytes(s)) implies
                holds_at(buf@, p as int, song_bytes(s[i as int]))
                && p + song_bytes(s[i as int]).len() == pos + 8 + songs_body(s.subrange(0, i + 1)).len() by {
                lemma_songs_body_prefix(s, i as int);
                lemma_holds_prefix(buf@, pos + 8, songs_body(s.subrange(0, i + 1)), songs_body(s));
                lemma_holds_concat(buf@, pos + 8, songs_body(s.subrange(0, i as int)), song_bytes(s[i as int]));
            }
        }
        let ghost p_old = p;
        let (t, q) = Song::from_bytes(buf, p)?;
        let ghost before = v@;
        v.push(t);
        p = q;
        i += 1;
        proof {
            assert forall|s: Seq<SongV>| cut_at(buf@, pos as int, #[trigger] songs_bytes(s)) implies p == pos + 8 + songs_body(s.subrange(0, i as int)).len() by {
                assert(holds_at(buf@, p_old as int, song_bytes(s[i - 1])));
            }
        }
        proof {
            assert forall|s: Seq<SongV>| holds_at(buf@, pos as int, #[trigger] songs_bytes(s)) implies songs_seq_view(v@) == s.subrange(0, i as int) by {
                assert(songs_seq_view(v@) =~= songs_seq_view(before).push(v@.last()@));
                assert(songs_seq_view(v@) =~= s.subrange(0, i as int));
            }
        }
    }
    proof {
        assert forall|s: Seq<SongV>| holds_at(buf@, pos as int, #[trigger] songs_bytes(s)) implies songs_seq_view(v@) == s && p == pos + songs_bytes(s).len() by {
            assert(s.subrange(0, i as int) =~= s);
        }
    }
    proof {
        assert forall|s: Seq<SongV>| !cut_at(buf@, pos as int, #[trigger] songs_bytes(s)) by {
            if cut_at(buf@, pos as int, songs_bytes(s)) {
                assert(s.subrange(0, i as int) =~= s);
            }
        }
    }
    Ok((v, p))
}

} // verus!

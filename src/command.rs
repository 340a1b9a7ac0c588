//! Commands: every change of the catalog, the queue or playback is one of these.
use vstd::prelude::*;
use crate::codec::{cut_at, lemma_cut_split_if, get_text, get_u64, get_usize, holds_at, le_bytes, lemma_holds_concat, put_text, put_u64, text_bytes, u64s_bytes, CodecError};
use crate::entity::{
    album_bytes, albums_bytes, albums_seq_view, artist_bytes, artists_bytes, artists_seq_view, cover_bytes,
    get_albums, get_artists, get_songs, put_albums, put_artists, put_songs, song_bytes, songs_bytes, songs_seq_view,
    Album, AlbumV, Artist, ArtistV, Cover, CoverV, Song, SongV,
};
use crate::queue::{get_usizes, put_usizes, Queue};
use crate::queue_spec::{queue_bytes, usizes_as_u64, QueueV};

verus! {

/// A command that the server applies and sends on to every subscriber.
#[derive(Clone, Debug)]
pub enum Command {
    Resume,
    Pause,
    Stop,
    NextSong,
    Save,
    InitComplete,
    SyncDatabase(Vec<Artist>, Vec<Album>, Vec<Song>),
    QueueUpdate(Vec<usize>, Queue),
    QueueAdd(Vec<usize>, Queue),
    QueueInsert(Vec<usize>, usize, Queue),
    QueueRemove(Vec<usize>),
    QueueGoto(Vec<usize>),
    QueueSetShuffle(Vec<usize>, Vec<usize>, usize),
    AddSong(Song),
    AddAlbum(Album),
    AddArtist(Artist),
    AddCover(Cover),
    ModifySong(Song),
    ModifyAlbum(Album),
    ModifyArtist(Artist),
    RemoveSong(u64),
    RemoveAlbum(u64),
    RemoveArtist(u64),
    SetSongDuration(u64, u64),
    SetLibraryDirectory(String),
    ErrorInfo(String, String),
}

/// Abstract value of a command.
pub enum CommandV {
    Resume,
    Pause,
    Stop,
    NextSong,
    Save,
    InitComplete,
    SyncDatabase(Seq<ArtistV>, Seq<AlbumV>, Seq<SongV>),
    QueueUpdate(Seq<usize>, QueueV),
    QueueAdd(Seq<usize>, QueueV),
    QueueInsert(Seq<usize>, usize, QueueV),
    QueueRemove(Seq<usize>),
    QueueGoto(Seq<usize>),
    QueueSetShuffle(Seq<usize>, Seq<usize>, usize),
    AddSong(SongV),
    AddAlbum(AlbumV),
    AddArtist(ArtistV),
    AddCover(CoverV),
    ModifySong(SongV),
    ModifyAlbum(AlbumV),
    ModifyArtist(ArtistV),
    RemoveSong(u64),
    RemoveAlbum(u64),
    RemoveArtist(u64),
    SetSongDuration(u64, u64),
    SetLibraryDirectory(Seq<char>),
    ErrorInfo(Seq<char>, Seq<char>),
}

impl View for Command {
    type V = CommandV;

    open spec fn view(&self) -> CommandV {
        match self {
            Command::Resume => CommandV::Resume,
            Command::Pause => CommandV::Pause,
            Command::Stop => CommandV::Stop,
            Command::NextSong => CommandV::NextSong,
            Command::Save => CommandV::Save,
            Command::InitComplete => CommandV::InitComplete,
            Command::SyncDatabase(a, b, c) => CommandV::SyncDatabase(
                artists_seq_view(a@),
                albums_seq_view(b@),
                songs_seq_view(c@),
            ),
            Command::QueueUpdate(p, q) => CommandV::QueueUpdate(p@, q@),
            Command::QueueAdd(p, q) => CommandV::QueueAdd(p@, q@),
            Command::QueueInsert(p, i, q) => CommandV::QueueInsert(p@, *i, q@),
            Command::QueueRemove(p) => CommandV::QueueRemove(p@),
            Command::QueueGoto(p) => CommandV::QueueGoto(p@),
            Command::QueueSetShuffle(p, m, n) => CommandV::QueueSetShuffle(p@, m@, *n),
            Command::AddSong(s) => CommandV::AddSong(s@),
            Command::AddAlbum(a) => CommandV::AddAlbum(a@),
            Command::AddArtist(a) => CommandV::AddArtist(a@),
            Command::AddCover(c) => CommandV::AddCover(c@),
            Command::ModifySong(s) => CommandV::ModifySong(s@),
            Command::ModifyAlbum(a) => CommandV::ModifyAlbum(a@),
            Command::ModifyArtist(a) => CommandV::ModifyArtist(a@),
            Command::RemoveSong(i) => CommandV::RemoveSong(*i),
            Command::RemoveAlbum(i) => CommandV::RemoveAlbum(*i),
            Command::RemoveArtist(i) => CommandV::RemoveArtist(*i),
            Command::SetSongDuration(i, d) => CommandV::SetSongDuration(*i, *d),
            Command::SetLibraryDirectory(p) => CommandV::SetLibraryDirectory(p@),
            Command::ErrorInfo(t, d) => CommandV::ErrorInfo(t@, d@),
        }
    }
}

/// A command: its tag byte (its position in the declaration of `Command`), then its fields in order.
pub open spec fn command_bytes(c: CommandV) -> Seq<u8> {
    seq![command_tag(c)] + match c {
        CommandV::Resume => Seq::empty(),
        CommandV::Pause => Seq::empty(),
        CommandV::Stop => Seq::empty(),
        CommandV::NextSong => Seq::empty(),
        CommandV::Save => Seq::empty(),
        CommandV::InitComplete => Seq::empty(),
        CommandV::SyncDatabase(f0, f1, f2) => artists_bytes(f0) + (albums_bytes(f1) + (songs_bytes(f2))),
        CommandV::QueueUpdate(f0, f1) => u64s_bytes(usizes_as_u64(f0)) + (queue_bytes(f1)),
        CommandV::QueueAdd(f0, f1) => u64s_bytes(usizes_as_u64(f0)) + (queue_bytes(f1)),
        CommandV::QueueInsert(f0, f1, f2) => u64s_bytes(usizes_as_u64(f0)) + (le_bytes(f1 as u64) + (queue_bytes(f2))),
        CommandV::QueueRemove(f0) => u64s_bytes(usizes_as_u64(f0)),
        CommandV::QueueGoto(f0) => u64s_bytes(usizes_as_u64(f0)),
        CommandV::QueueSetShuffle(f0, f1, f2) => u64s_bytes(usizes_as_u64(f0)) + (u64s_bytes(usizes_as_u64(f1)) + (le_bytes(f2 as u64))),
        CommandV::AddSong(f0) => song_bytes(f0),
        CommandV::AddAlbum(f0) => album_bytes(f0),
        CommandV::AddArtist(f0) => artist_bytes(f0),
        CommandV::AddCover(f0) => cover_bytes(f0),
        CommandV::ModifySong(f0) => song_bytes(f0),
        CommandV::ModifyAlbum(f0) => album_bytes(f0),
        CommandV::ModifyArtist(f0) => artist_bytes(f0),
        CommandV::RemoveSong(f0) => le_bytes(f0),
        CommandV::RemoveAlbum(f0) => le_bytes(f0),
        CommandV::RemoveArtist(f0) => le_bytes(f0),
        CommandV::SetSongDuration(f0, f1) => le_bytes(f0) + (le_bytes(f1)),
        CommandV::SetLibraryDirectory(f0) => text_bytes(f0),
        CommandV::ErrorInfo(f0, f1) => text_bytes(f0) + (text_bytes(f1)),
    }
}

/// The tag byte of a command.
pub open spec fn command_tag(c: CommandV) -> u8 {
    match c {
        CommandV::Resume => 0u8,
        CommandV::Pause => 1u8,
        CommandV::Stop => 2u8,
        CommandV::NextSong => 3u8,
        CommandV::Save => 4u8,
        CommandV::InitComplete => 5u8,
        CommandV::SyncDatabase(..) => 6u8,
        CommandV::QueueUpdate(..) => 7u8,
        CommandV::QueueAdd(..) => 8u8,
        CommandV::QueueInsert(..) => 9u8,
        CommandV::QueueRemove(..) => 10u8,
        CommandV::QueueGoto(..) => 11u8,
        CommandV::QueueSetShuffle(..) => 12u8,
        CommandV::AddSong(..) => 13u8,
        CommandV::AddAlbum(..) => 14u8,
        CommandV::AddArtist(..) => 15u8,
        CommandV::AddCover(..) => 16u8,
        CommandV::ModifySong(..) => 17u8,
        CommandV::ModifyAlbum(..) => 18u8,
        CommandV::ModifyArtist(..) => 19u8,
        CommandV::RemoveSong(..) => 20u8,
        CommandV::RemoveAlbum(..) => 21u8,
        CommandV::RemoveArtist(..) => 22u8,
        CommandV::SetSongDuration(..) => 23u8,
        CommandV::SetLibraryDirectory(..) => 24u8,
        CommandV::ErrorInfo(..) => 25u8,
    }
}

impl Command {
    /// Appends the encoding of this command (see `command_bytes`).
    #[verifier::rlimit(100)]
    #[verifier::spinoff_prover]
    pub fn to_bytes(&self, out: &mut Vec<u8>)
        ensures
            final(out)@ == old(out)@ + command_bytes(self@),
    {
        let ghost o = out@;
        match self {
            Command::Resume => {
                out.push(0u8);
                assert(out@ =~= o + command_bytes(self@));
            },
            Command::Pause => {
                out.push(1u8);
                assert(out@ =~= o + command_bytes(self@));
            },
            Command::Stop => {
                out.push(2u8);
                assert(out@ =~= o + command_bytes(self@));
            },
            Command::NextSong => {
                out.push(3u8);
                assert(out@ =~= o + command_bytes(self@));
            },
            Command::Save => {
                out.push(4u8);
                assert(out@ =~= o + command_bytes(self@));
            },
            Command::InitComplete => {
                out.push(5u8);
                assert(out@ =~= o + command_bytes(self@));
            },
            Command::SyncDatabase(f0, f1, f2) => {
                out.push(6u8);
                put_artists(out, f0);
                put_albums(out, f1);
                put_songs(out, f2);
                assert(out@ =~= o + command_bytes(self@));
            },
            Command::QueueUpdate(f0, f1) => {
                out.push(7u8);
                put_usizes(out, f0);
                f1.to_bytes(out);
                assert(out@ =~= o + command_bytes(self@));
            },
            Command::QueueAdd(f0, f1) => {
                out.push(8u8);
                put_usizes(out, f0);
                f1.to_bytes(out);
                assert(out@ =~= o + command_bytes(self@));
            },
            Command::QueueInsert(f0, f1, f2) => {
                out.push(9u8);
                put_usizes(out, f0);
                put_u64(out, *f1 as u64);
                f2.to_bytes(out);
                assert(out@ =~= o + command_bytes(self@));
            },
            Command::QueueRemove(f0) => {
                out.push(10u8);
                put_usizes(out, f0);
                assert(out@ =~= o + command_bytes(self@));
            },
            Command::QueueGoto(f0) => {
                out.push(11u8);
                put_usizes(out, f0);
                assert(out@ =~= o + command_bytes(self@));
            },
            Command::QueueSetShuffle(f0, f1, f2) => {
                out.push(12u8);
                put_usizes(out, f0);
                put_usizes(out, f1);
                put_u64(out, *f2 as u64);
                assert(out@ =~= o + command_bytes(self@));
            },
            Command::AddSong(f0) => {
                out.push(13u8);
                f0.to_bytes(out);
                assert(out@ =~= o + command_bytes(self@));
            },
            Command::AddAlbum(f0) => {
                out.push(14u8);
                f0.to_bytes(out);
                assert(out@ =~= o + command_bytes(self@));
            },
            Command::AddArtist(f0) => {
                out.push(15u8);
                f0.to_bytes(out);
                assert(out@ =~= o + command_bytes(self@));
            },
            Command::AddCover(f0) => {
                out.push(16u8);
                f0.to_bytes(out);
                assert(out@ =~= o + command_bytes(self@));
            },
            Command::ModifySong(f0) => {
                out.push(17u8);
                f0.to_bytes(out);
                assert(out@ =~= o + command_bytes(self@));
            },
            Command::ModifyAlbum(f0) => {
                out.push(18u8);
                f0.to_bytes(out);
                assert(out@ =~= o + command_bytes(self@));
            },
            Command::ModifyArtist(f0) => {
                out.push(19u8);
                f0.to_bytes(out);
                assert(out@ =~= o + command_bytes(self@));
            },
            Command::RemoveSong(f0) => {
                out.push(20u8);
                put_u64(out, *f0);
                assert(out@ =~= o + command_bytes(self@));
            },
            Command::RemoveAlbum(f0) => {
                out.push(21u8);
                put_u64(out, *f0);
                assert(out@ =~= o + command_bytes(self@));
            },
            Command::RemoveArtist(f0) => {
                out.push(22u8);
                put_u64(out, *f0);
                assert(out@ =~= o + command_bytes(self@));
            },
            Command::SetSongDuration(f0, f1) => {
                out.push(23u8);
                put_u64(out, *f0);
                put_u64(out, *f1);
                assert(out@ =~= o + command_bytes(self@));
            },
            Command::SetLibraryDirectory(f0) => {
                out.push(24u8);
                put_text(out, f0.as_str());
                assert(out@ =~= o + command_bytes(self@));
            },
            Command::ErrorInfo(f0, f1) => {
                out.push(25u8);
                put_text(out, f0.as_str());
                put_text(out, f1.as_str());
                assert(out@ =~= o + command_bytes(self@));
            },
        }
    }

    /// Reads a command at `pos`; returns it and the position after it.
    #[verifier::rlimit(100)]
    pub fn from_bytes(buf: &[u8], pos: usize) -> (r: Result<(Command, usize), CodecError>)
        ensures
            r matches Ok((c, p)) ==> pos < p <= buf@.len(),
            forall|v: CommandV| holds_at(buf@, pos as int, #[trigger] command_bytes(v)) ==> (r matches Ok((c, p))
                && c@ == v && p == pos + command_bytes(v).len()),
            forall|v: CommandV| cut_at(buf@, pos as int, #[trigger] command_bytes(v)) ==> r is Err,
    {
        proof {
            assert forall|v: CommandV| cut_at(buf@, pos as int, #[trigger] command_bytes(v)) && pos < buf@.len() implies
                buf@[pos as int] == command_tag(v) by {
                assert(buf@.subrange(pos as int, buf@.len() as int)[0] == buf@[pos as int]);
            }
            assert forall|v: CommandV| holds_at(buf@, pos as int, #[trigger] command_bytes(v)) implies pos < buf@.len()
                && buf@[pos as int] == command_tag(v) by {
                assert(buf@.subrange(pos as int, pos + command_bytes(v).len())[0] == buf@[pos as int]);
            }
        }
        if pos >= buf.len() {
            return Err(CodecError::UnexpectedEnd);
        }
        let tag = buf[pos];
        if tag == 0u8 {
            read_resume(buf, pos)
        } else if tag == 1u8 {
            read_pause(buf, pos)
        } else if tag == 2u8 {
            read_stop(buf, pos)
        } else if tag == 3u8 {
            read_next_song(buf, pos)
        } else if tag == 4u8 {
            read_save(buf, pos)
        } else if tag == 5u8 {
            read_init_complete(buf, pos)
        } else if tag == 6u8 {
            read_sync_database(buf, pos)
        } else if tag == 7u8 {
            read_queue_update(buf, pos)
        } else if tag == 8u8 {
            read_queue_add(buf, pos)
        } else if tag == 9u8 {
            read_queue_insert(buf, pos)
        } else if tag == 10u8 {
            read_queue_remove(buf, pos)
        } else if tag == 11u8 {
            read_queue_goto(buf, pos)
        } else if tag == 12u8 {
            read_queue_set_shuffle(buf, pos)
        } else if tag == 13u8 {
            read_add_song(buf, pos)
        } else if tag == 14u8 {
            read_add_album(buf, pos)
        } else if tag == 15u8 {
            read_add_artist(buf, pos)
        } else if tag == 16u8 {
            read_add_cover(buf, pos)
        } else if tag == 17u8 {
            read_modify_song(buf, pos)
        } else if tag == 18u8 {
            read_modify_album(buf, pos)
        } else if tag == 19u8 {
            read_modify_artist(buf, pos)
        } else if tag == 20u8 {
            read_remove_song(buf, pos)
        } else if tag == 21u8 {
            read_remove_album(buf, pos)
        } else if tag == 22u8 {
            read_remove_artist(buf, pos)
        } else if tag == 23u8 {
            read_set_song_duration(buf, pos)
        } else if tag == 24u8 {
            read_set_library_directory(buf, pos)
        } else if tag == 25u8 {
            read_error_info(buf, pos)
        } else {
            proof {
                assert forall|v: CommandV| !holds_at(buf@, pos as int, #[trigger] command_bytes(v)) by {
                    if holds_at(buf@, pos as int, command_bytes(v)) {
                        assert(buf@[pos as int] == command_tag(v));
                    }
                }
                assert forall|v: CommandV| !cut_at(buf@, pos as int, #[trigger] command_bytes(v)) by {
                    if cut_at(buf@, pos as int, command_bytes(v)) {
                        assert(buf@[pos as int] == command_tag(v));
                    }
                }
            }
            Err(CodecError::InvalidTag)
        }
    }
}

fn read_resume(buf: &[u8], pos: usize) -> (r: Result<(Command, usize), CodecError>)
    ensures
        r matches Ok((c, p)) ==> pos < p <= buf@.len(),
        forall|v: CommandV| holds_at(buf@, pos as int, #[trigger] command_bytes(v)) && v is Resume ==> (r matches Ok((c, p))
            && c@ == v && p == pos + command_bytes(v).len()),
        forall|v: CommandV| cut_at(buf@, pos as int, #[trigger] command_bytes(v)) && v is Resume ==> r is Err,
{
    let buf_len = buf.len();
    proof {
        assert forall|v: CommandV| holds_at(buf@, pos as int, #[trigger] command_bytes(v)) && v is Resume implies pos + 1 <= buf@.len() by {
        }
    }
    if pos >= buf.len() {
        return Err(CodecError::UnexpectedEnd);
    }
    Ok((Command::Resume, pos + 1))
}

fn read_pause(buf: &[u8], pos: usize) -> (r: Result<(Command, usize), CodecError>)
    ensures
        r matches Ok((c, p)) ==> pos < p <= buf@.len(),
        forall|v: CommandV| holds_at(buf@, pos as int, #[trigger] command_bytes(v)) && v is Pause ==> (r matches Ok((c, p))
            && c@ == v && p == pos + command_bytes(v).len()),
        forall|v: CommandV| cut_at(buf@, pos as int, #[trigger] command_bytes(v)) && v is Pause ==> r is Err,
{
    let buf_len = buf.len();
    proof {
        assert forall|v: CommandV| holds_at(buf@, pos as int, #[trigger] command_bytes(v)) && v is Pause implies pos + 1 <= buf@.len() by {
        }
    }
    if pos >= buf.len() {
        return Err(CodecError::UnexpectedEnd);
    }
    Ok((Command::Pause, pos + 1))
}

fn read_stop(buf: &[u8], pos: usize) -> (r: Result<(Command, usize), CodecError>)
    ensures
        r matches Ok((c, p)) ==> pos < p <= buf@.len(),
        forall|v: CommandV| holds_at(buf@, pos as int, #[trigger] command_bytes(v)) && v is Stop ==> (r matches Ok((c, p))
            && c@ == v && p == pos + command_bytes(v).len()),
        forall|v: CommandV| cut_at(buf@, pos as int, #[trigger] command_bytes(v)) && v is Stop ==> r is Err,
{
    let buf_len = buf.len();
    proof {
        assert forall|v: CommandV| holds_at(buf@, pos as int, #[trigger] command_bytes(v)) && v is Stop implies pos + 1 <= buf@.len() by {
        }
    }
    if pos >= buf.len() {
        return Err(CodecError::UnexpectedEnd);
    }
    Ok((Command::Stop, pos + 1))
}

fn read_next_song(buf: &[u8], pos: usize) -> (r: Result<(Command, usize), CodecError>)
    ensures
        r matches Ok((c, p)) ==> pos < p <= buf@.len(),
        forall|v: CommandV| holds_at(buf@, pos as int, #[trigger] command_bytes(v)) && v is NextSong ==> (r matches Ok((c, p))
            && c@ == v && p == pos + command_bytes(v).len()),
        forall|v: CommandV| cut_at(buf@, pos as int, #[trigger] command_bytes(v)) && v is NextSong ==> r is Err,
{
    let buf_len = buf.len();
    proof {
        assert forall|v: CommandV| holds_at(buf@, pos as int, #[trigger] command_bytes(v)) && v is NextSong implies pos + 1 <= buf@.len() by {
        }
    }
    if pos >= buf.len() {
        return Err(CodecError::UnexpectedEnd);
    }
    Ok((Command::NextSong, pos + 1))
}

fn read_save(buf: &[u8], pos: usize) -> (r: Result<(Command, usize), CodecError>)
    ensures
        r matches Ok((c, p)) ==> pos < p <= buf@.len(),
        forall|v: CommandV| holds_at(buf@, pos as int, #[trigger] command_bytes(v)) && v is Save ==> (r matches Ok((c, p))
            && c@ == v && p == pos + command_bytes(v).len()),
        forall|v: CommandV| cut_at(buf@, pos as int, #[trigger] command_bytes(v)) && v is Save ==> r is Err,
{
    let buf_len = buf.len();
    proof {
        assert forall|v: CommandV| holds_at(buf@, pos as int, #[trigger] command_bytes(v)) && v is Save implies pos + 1 <= buf@.len() by {
        }
    }
    if pos >= buf.len() {
        return Err(CodecError::UnexpectedEnd);
    }
    Ok((Command::Save, pos + 1))
}

fn read_init_complete(buf: &[u8], pos: usize) -> (r: Result<(Command, usize), CodecError>)
    ensures
        r matches Ok((c, p)) ==> pos < p <= buf@.len(),
        forall|v: CommandV| holds_at(buf@, pos as int, #[trigger] command_bytes(v)) && v is InitComplete ==> (r matches Ok((c, p))
            && c@ == v && p == pos + command_bytes(v).len()),
        forall|v: CommandV| cut_at(buf@, pos as int, #[trigger] command_bytes(v)) && v is InitComplete ==> r is Err,
{
    let buf_len = buf.len();
    proof {
        assert forall|v: CommandV| holds_at(buf@, pos as int, #[trigger] command_bytes(v)) && v is InitComplete implies pos + 1 <= buf@.len() by {
        }
    }
    if pos >= buf.len() {
        return Err(CodecError::UnexpectedEnd);
    }
    Ok((Command::InitComplete, pos + 1))
}

fn read_sync_database(buf: &[u8], pos: usize) -> (r: Result<(Command, usize), CodecError>)
    ensures
        r matches Ok((c, p)) ==> pos < p <= buf@.len(),
        forall|v: CommandV| holds_at(buf@, pos as int, #[trigger] command_bytes(v)) && v is SyncDatabase ==> (r matches Ok((c, p))
            && c@ == v && p == pos + command_bytes(v).len()),
        forall|v: CommandV| cut_at(buf@, pos as int, #[trigger] command_bytes(v)) && v is SyncDatabase ==> r is Err,
{
    let buf_len = buf.len();
    proof {
        assert forall|v: CommandV| cut_at(buf@, pos as int, #[trigger] command_bytes(v)) && v is SyncDatabase implies pos >= buf@.len() || (v matches CommandV::SyncDatabase(f0, f1, f2)
            && (cut_at(buf@, pos + 1, artists_bytes(f0)) || (holds_at(buf@, pos + 1, artists_bytes(f0)) && (cut_at(buf@, pos + 1 + artists_bytes(f0).len(), albums_bytes(f1)) || (holds_at(buf@, pos + 1 + artists_bytes(f0).len(), albums_bytes(f1)) && (cut_at(buf@, pos + 1 + artists_bytes(f0).len() + albums_bytes(f1).len(), songs_bytes(f2)))))))) by {
            if let CommandV::SyncDatabase(f0, f1, f2) = v {
                lemma_cut_split_if(buf@, pos as int, seq![6u8], artists_bytes(f0) + (albums_bytes(f1) + (songs_bytes(f2))));
                lemma_cut_split_if(buf@, pos + 1, artists_bytes(f0), albums_bytes(f1) + (songs_bytes(f2)));
                lemma_cut_split_if(buf@, pos + 1 + artists_bytes(f0).len(), albums_bytes(f1), songs_bytes(f2));
            }
        }
        assert forall|v: CommandV| holds_at(buf@, pos as int, #[trigger] command_bytes(v)) && v is SyncDatabase implies (v matches CommandV::SyncDatabase(f0, f1, f2)
            && holds_at(buf@, pos + 1, artists_bytes(f0)) && holds_at(buf@, pos + 1 + artists_bytes(f0).len(), albums_bytes(f1)) && holds_at(buf@, pos + 1 + artists_bytes(f0).len() + albums_bytes(f1).len(), songs_bytes(f2))) by {
            if let CommandV::SyncDatabase(f0, f1, f2) = v {
                lemma_holds_concat(buf@, pos as int, seq![6u8], artists_bytes(f0) + (albums_bytes(f1) + (songs_bytes(f2))));
                lemma_holds_concat(buf@, pos + 1, artists_bytes(f0), albums_bytes(f1) + (songs_bytes(f2)));
                lemma_holds_concat(buf@, pos + 1 + artists_bytes(f0).len(), albums_bytes(f1), songs_bytes(f2));
            }
        }
    }
    if pos >= buf.len() {
        return Err(CodecError::UnexpectedEnd);
    }
    let (f0, p0) = get_artists(buf, pos + 1)?;
    let (f1, p1) = get_albums(buf, p0)?;
    let (f2, p2) = get_songs(buf, p1)?;
    proof {
        assert forall|v: CommandV| !(cut_at(buf@, pos as int, #[trigger] command_bytes(v)) && v is SyncDatabase) by {
        }
    }
    Ok((Command::SyncDatabase(f0, f1, f2), p2))
}

fn read_queue_update(buf: &[u8], pos: usize) -> (r: Result<(Command, usize), CodecError>)
    ensures
        r matches Ok((c, p)) ==> pos < p <= buf@.len(),
        forall|v: CommandV| holds_at(buf@, pos as int, #[trigger] command_bytes(v)) && v is QueueUpdate ==> (r matches Ok((c, p))
            && c@ == v && p == pos + command_bytes(v).len()),
        forall|v: CommandV| cut_at(buf@, pos as int, #[trigger] command_bytes(v)) && v is QueueUpdate ==> r is Err,
{
    let buf_len = buf.len();
    proof {
        assert forall|v: CommandV| cut_at(buf@, pos as int, #[trigger] command_bytes(v)) && v is QueueUpdate implies pos >= buf@.len() || (v matches CommandV::QueueUpdate(f0, f1)
            && (cut_at(buf@, pos + 1, u64s_bytes(usizes_as_u64(f0))) || (holds_at(buf@, pos + 1, u64s_bytes(usizes_as_u64(f0))) && (cut_at(buf@, pos + 1 + u64s_bytes(usizes_as_u64(f0)).len(), queue_bytes(f1)))))) by {
            if let CommandV::QueueUpdate(f0, f1) = v {
                lemma_cut_split_if(buf@, pos as int, seq![7u8], u64s_bytes(usizes_as_u64(f0)) + (queue_bytes(f1)));
                lemma_cut_split_if(buf@, pos + 1, u64s_bytes(usizes_as_u64(f0)), queue_bytes(f1));
            }
        }
        assert forall|v: CommandV| holds_at(buf@, pos as int, #[trigger] command_bytes(v)) && v is QueueUpdate implies (v matches CommandV::QueueUpdate(f0, f1)
            && holds_at(buf@, pos + 1, u64s_bytes(usizes_as_u64(f0))) && holds_at(buf@, pos + 1 + u64s_bytes(usizes_as_u64(f0)).len(), queue_bytes(f1))) by {
            if let CommandV::QueueUpdate(f0, f1) = v {
                lemma_holds_concat(buf@, pos as int, seq![7u8], u64s_bytes(usizes_as_u64(f0)) + (queue_bytes(f1)));
                lemma_holds_concat(buf@, pos + 1, u64s_bytes(usizes_as_u64(f0)), queue_bytes(f1));
            }
        }
    }
    if pos >= buf.len() {
        return Err(CodecError::UnexpectedEnd);
    }
    let (f0, p0) = get_usizes(buf, pos + 1)?;
    let (f1, p1) = Queue::from_bytes(buf, p0)?;
    proof {
        assert forall|v: CommandV| !(cut_at(buf@, pos as int, #[trigger] command_bytes(v)) && v is QueueUpdate) by {
        }
    }
    Ok((Command::QueueUpdate(f0, f1), p1))
}

fn read_queue_add(buf: &[u8], pos: usize) -> (r: Result<(Command, usize), CodecError>)
    ensures
        r matches Ok((c, p)) ==> pos < p <= buf@.len(),
        forall|v: CommandV| holds_at(buf@, pos as int, #[trigger] command_bytes(v)) && v is QueueAdd ==> (r matches Ok((c, p))
            && c@ == v && p == pos + command_bytes(v).len()),
        forall|v: CommandV| cut_at(buf@, pos as int, #[trigger] command_bytes(v)) && v is QueueAdd ==> r is Err,
{
    let buf_len = buf.len();
    proof {
        assert forall|v: CommandV| cut_at(buf@, pos as int, #[trigger] command_bytes(v)) && v is QueueAdd implies pos >= buf@.len() || (v matches CommandV::QueueAdd(f0, f1)
            && (cut_at(buf@, pos + 1, u64s_bytes(usizes_as_u64(f0))) || (holds_at(buf@, pos + 1, u64s_bytes(usizes_as_u64(f0))) && (cut_at(buf@, pos + 1 + u64s_bytes(usizes_as_u64(f0)).len(), queue_bytes(f1)))))) by {
            if let CommandV::QueueAdd(f0, f1) = v {
                lemma_cut_split_if(buf@, pos as int, seq![8u8], u64s_bytes(usizes_as_u64(f0)) + (queue_bytes(f1)));
                lemma_cut_split_if(buf@, pos + 1, u64s_bytes(usizes_as_u64(f0)), queue_bytes(f1));
            }
        }
        assert forall|v: CommandV| holds_at(buf@, pos as int, #[trigger] command_bytes(v)) && v is QueueAdd implies (v matches CommandV::QueueAdd(f0, f1)
            && holds_at(buf@, pos + 1, u64s_bytes(usizes_as_u64(f0))) && holds_at(buf@, pos + 1 + u64s_bytes(usizes_as_u64(f0)).len(), queue_bytes(f1))) by {
            if let CommandV::QueueAdd(f0, f1) = v {
                lemma_holds_concat(buf@, pos as int, seq![8u8], u64s_bytes(usizes_as_u64(f0)) + (queue_bytes(f1)));
                lemma_holds_concat(buf@, pos + 1, u64s_bytes(usizes_as_u64(f0)), queue_bytes(f1));
            }
        }
    }
    if pos >= buf.len() {
        return Err(CodecError::UnexpectedEnd);
    }
    let (f0, p0) = get_usizes(buf, pos + 1)?;
    let (f1, p1) = Queue::from_bytes(buf, p0)?;
    proof {
        assert forall|v: CommandV| !(cut_at(buf@, pos as int, #[trigger] command_bytes(v)) && v is QueueAdd) by {
        }
    }
    Ok((Command::QueueAdd(f0, f1), p1))
}

fn read_queue_insert(buf: &[u8], pos: usize) -> (r: Result<(Command, usize), CodecError>)
    ensures
        r matches Ok((c, p)) ==> pos < p <= buf@.len(),
        forall|v: CommandV| holds_at(buf@, pos as int, #[trigger] command_bytes(v)) && v is QueueInsert ==> (r matches Ok((c, p))
            && c@ == v && p == pos + command_bytes(v).len()),
        forall|v: CommandV| cut_at(buf@, pos as int, #[trigger] command_bytes(v)) && v is QueueInsert ==> r is Err,
{
    let buf_len = buf.len();
    proof {
        assert forall|v: CommandV| cut_at(buf@, pos as int, #[trigger] command_bytes(v)) && v is QueueInsert implies pos >= buf@.len() || (v matches CommandV::QueueInsert(f0, f1, f2)
            && (cut_at(buf@, pos + 1, u64s_bytes(usizes_as_u64(f0))) || (holds_at(buf@, pos + 1, u64s_bytes(usizes_as_u64(f0))) && (cut_at(buf@, pos + 1 + u64s_bytes(usizes_as_u64(f0)).len(), le_bytes(f1 as u64)) || (holds_at(buf@, pos + 1 + u64s_bytes(usizes_as_u64(f0)).len(), le_bytes(f1 as u64)) && (cut_at(buf@, pos + 1 + u64s_bytes(usizes_as_u64(f0)).len() + le_bytes(f1 as u64).len(), queue_bytes(f2)))))))) by {
            if let CommandV::QueueInsert(f0, f1, f2) = v {
                lemma_cut_split_if(buf@, pos as int, seq![9u8], u64s_bytes(usizes_as_u64(f0)) + (le_bytes(f1 as u64) + (queue_bytes(f2))));
                lemma_cut_split_if(buf@, pos + 1, u64s_bytes(usizes_as_u64(f0)), le_bytes(f1 as u64) + (queue_bytes(f2)));
                lemma_cut_split_if(buf@, pos + 1 + u64s_bytes(usizes_as_u64(f0)).len(), le_bytes(f1 as u64), queue_bytes(f2));
            }
        }
        assert forall|v: CommandV| holds_at(buf@, pos as int, #[trigger] command_bytes(v)) && v is QueueInsert implies (v matches CommandV::QueueInsert(f0, f1, f2)
            && holds_at(buf@, pos + 1, u64s_bytes(usizes_as_u64(f0))) && holds_at(buf@, pos + 1 + u64s_bytes(usizes_as_u64(f0)).len(), le_bytes(f1 as u64)) && holds_at(buf@, pos + 1 + u64s_bytes(usizes_as_u64(f0)).len() + le_bytes(f1 as u64).len(), queue_bytes(f2))) by {
            if let CommandV::QueueInsert(f0, f1, f2) = v {
                lemma_holds_concat(buf@, pos as int, seq![9u8], u64s_bytes(usizes_as_u64(f0)) + (le_bytes(f1 as u64) + (queue_bytes(f2))));
                lemma_holds_concat(buf@, pos + 1, u64s_bytes(usizes_as_u64(f0)), le_bytes(f1 as u64) + (queue_bytes(f2)));
                lemma_holds_concat(buf@, pos + 1 + u64s_bytes(usizes_as_u64(f0)).len(), le_bytes(f1 as u64), queue_bytes(f2));
            }
        }
    }
    if pos >= buf.len() {
        return Err(CodecError::UnexpectedEnd);
    }
    let (f0, p0) = get_usizes(buf, pos + 1)?;
    let (f1, p1) = get_usize(buf, p0)?;
    let (f2, p2) = Queue::from_bytes(buf, p1)?;
    proof {
        assert forall|v: CommandV| !(cut_at(buf@, pos as int, #[trigger] command_bytes(v)) && v is QueueInsert) by {
        }
    }
    Ok((Command::QueueInsert(f0, f1, f2), p2))
}

fn read_queue_remove(buf: &[u8], pos: usize) -> (r: Result<(Command, usize), CodecError>)
    ensures
        r matches Ok((c, p)) ==> pos < p <= buf@.len(),
        forall|v: CommandV| holds_at(buf@, pos as int, #[trigger] command_bytes(v)) && v is QueueRemove ==> (r matches Ok((c, p))
            && c@ == v && p == pos + command_bytes(v).len()),
        forall|v: CommandV| cut_at(buf@, pos as int, #[trigger] command_bytes(v)) && v is QueueRemove ==> r is Err,
{
    let buf_len = buf.len();
    proof {
        assert forall|v: CommandV| cut_at(buf@, pos as int, #[trigger] command_bytes(v)) && v is QueueRemove implies pos >= buf@.len() || (v matches CommandV::QueueRemove(f0)
            && (cut_at(buf@, pos + 1, u64s_bytes(usizes_as_u64(f0))))) by {
            if let CommandV::QueueRemove(f0) = v {
                lemma_cut_split_if(buf@, pos as int, seq![10u8], u64s_bytes(usizes_as_u64(f0)));
            }
        }
        assert forall|v: CommandV| holds_at(buf@, pos as int, #[trigger] command_bytes(v)) && v is QueueRemove implies (v matches CommandV::QueueRemove(f0)
            && holds_at(buf@, pos + 1, u64s_bytes(usizes_as_u64(f0)))) by {
            if let CommandV::QueueRemove(f0) = v {
                lemma_holds_concat(buf@, pos as int, seq![10u8], u64s_bytes(usizes_as_u64(f0)));
            }
        }
    }
    if pos >= buf.len() {
        return Err(CodecError::UnexpectedEnd);
    }
    let (f0, p0) = get_usizes(buf, pos + 1)?;
    proof {
        assert forall|v: CommandV| !(cut_at(buf@, pos as int, #[trigger] command_bytes(v)) && v is QueueRemove) by {
        }
    }
    Ok((Command::QueueRemove(f0), p0))
}

fn read_queue_goto(buf: &[u8], pos: usize) -> (r: Result<(Command, usize), CodecError>)
    ensures
        r matches Ok((c, p)) ==> pos < p <= buf@.len(),
        forall|v: CommandV| holds_at(buf@, pos as int, #[trigger] command_bytes(v)) && v is QueueGoto ==> (r matches Ok((c, p))
            && c@ == v && p == pos + command_bytes(v).len()),
        forall|v: CommandV| cut_at(buf@, pos as int, #[trigger] command_bytes(v)) && v is QueueGoto ==> r is Err,
{
    let buf_len = buf.len();
    proof {
        assert forall|v: CommandV| cut_at(buf@, pos as int, #[trigger] command_bytes(v)) && v is QueueGoto implies pos >= buf@.len() || (v matches CommandV::QueueGoto(f0)
            && (cut_at(buf@, pos + 1, u64s_bytes(usizes_as_u64(f0))))) by {
            if let CommandV::QueueGoto(f0) = v {
                lemma_cut_split_if(buf@, pos as int, seq![11u8], u64s_bytes(usizes_as_u64(f0)));
            }
        }
        assert forall|v: CommandV| holds_at(buf@, pos as int, #[trigger] command_bytes(v)) && v is QueueGoto implies (v matches CommandV::QueueGoto(f0)
            && holds_at(buf@, pos + 1, u64s_bytes(usizes_as_u64(f0)))) by {
            if let CommandV::QueueGoto(f0) = v {
                lemma_holds_concat(buf@, pos as int, seq![11u8], u64s_bytes(usizes_as_u64(f0)));
            }
        }
    }
    if pos >= buf.len() {
        return Err(CodecError::UnexpectedEnd);
    }
    let (f0, p0) = get_usizes(buf, pos + 1)?;
    proof {
        assert forall|v: CommandV| !(cut_at(buf@, pos as int, #[trigger] command_bytes(v)) && v is QueueGoto) by {
        }
    }
    Ok((Command::QueueGoto(f0), p0))
}

fn read_queue_set_shuffle(buf: &[u8], pos: usize) -> (r: Result<(Command, usize), CodecError>)
    ensures
        r matches Ok((c, p)) ==> pos < p <= buf@.len(),
        forall|v: CommandV| holds_at(buf@, pos as int, #[trigger] command_bytes(v)) && v is QueueSetShuffle ==> (r matches Ok((c, p))
            && c@ == v && p == pos + command_bytes(v).len()),
        forall|v: CommandV| cut_at(buf@, pos as int, #[trigger] command_bytes(v)) && v is QueueSetShuffle ==> r is Err,
{
    let buf_len = buf.len();
    proof {
        assert forall|v: CommandV| cut_at(buf@, pos as int, #[trigger] command_bytes(v)) && v is QueueSetShuffle implies pos >= buf@.len() || (v matches CommandV::QueueSetShuffle(f0, f1, f2)
            && (cut_at(buf@, pos + 1, u64s_bytes(usizes_as_u64(f0))) || (holds_at(buf@, pos + 1, u64s_bytes(usizes_as_u64(f0))) && (cut_at(buf@, pos + 1 + u64s_bytes(usizes_as_u64(f0)).len(), u64s_bytes(usizes_as_u64(f1))) || (holds_at(buf@, pos + 1 + u64s_bytes(usizes_as_u64(f0)).len(), u64s_bytes(usizes_as_u64(f1))) && (cut_at(buf@, pos + 1 + u64s_bytes(usizes_as_u64(f0)).len() + u64s_bytes(usizes_as_u64(f1)).len(), le_bytes(f2 as u64)))))))) by {
            if let CommandV::QueueSetShuffle(f0, f1, f2) = v {
                lemma_cut_split_if(buf@, pos as int, seq![12u8], u64s_bytes(usizes_as_u64(f0)) + (u64s_bytes(usizes_as_u64(f1)) + (le_bytes(f2 as u64))));
                lemma_cut_split_if(buf@, pos + 1, u64s_bytes(usizes_as_u64(f0)), u64s_bytes(usizes_as_u64(f1)) + (le_bytes(f2 as u64)));
                lemma_cut_split_if(buf@, pos + 1 + u64s_bytes(usizes_as_u64(f0)).len(), u64s_bytes(usizes_as_u64(f1)), le_bytes(f2 as u64));
            }
        }
        assert forall|v: CommandV| holds_at(buf@, pos as int, #[trigger] command_bytes(v)) && v is QueueSetShuffle implies (v matches CommandV::QueueSetShuffle(f0, f1, f2)
            && holds_at(buf@, pos + 1, u64s_bytes(usizes_as_u64(f0))) && holds_at(buf@, pos + 1 + u64s_bytes(usizes_as_u64(f0)).len(), u64s_bytes(usizes_as_u64(f1))) && holds_at(buf@, pos + 1 + u64s_bytes(usizes_as_u64(f0)).len() + u64s_bytes(usizes_as_u64(f1)).len(), le_bytes(f2 as u64))) by {
            if let CommandV::QueueSetShuffle(f0, f1, f2) = v {
                lemma_holds_concat(buf@, pos as int, seq![12u8], u64s_bytes(usizes_as_u64(f0)) + (u64s_bytes(usizes_as_u64(f1)) + (le_bytes(f2 as u64))));
                lemma_holds_concat(buf@, pos + 1, u64s_bytes(usizes_as_u64(f0)), u64s_bytes(usizes_as_u64(f1)) + (le_bytes(f2 as u64)));
                lemma_holds_concat(buf@, pos + 1 + u64s_bytes(usizes_as_u64(f0)).len(), u64s_bytes(usizes_as_u64(f1)), le_bytes(f2 as u64));
            }
        }
    }
    if pos >= buf.len() {
        return Err(CodecError::UnexpectedEnd);
    }
    let (f0, p0) = get_usizes(buf, pos + 1)?;
    let (f1, p1) = get_usizes(buf, p0)?;
    let (f2, p2) = get_usize(buf, p1)?;
    proof {
        assert forall|v: CommandV| !(cut_at(buf@, pos as int, #[trigger] command_bytes(v)) && v is QueueSetShuffle) by {
        }
    }
    Ok((Command::QueueSetShuffle(f0, f1, f2), p2))
}

fn read_add_song(buf: &[u8], pos: usize) -> (r: Result<(Command, usize), CodecError>)
    ensures
        r matches Ok((c, p)) ==> pos < p <= buf@.len(),
        forall|v: CommandV| holds_at(buf@, pos as int, #[trigger] command_bytes(v)) && v is AddSong ==> (r matches Ok((c, p))
            && c@ == v && p == pos + command_bytes(v).len()),
        forall|v: CommandV| cut_at(buf@, pos as int, #[trigger] command_bytes(v)) && v is AddSong ==> r is Err,
{
    let buf_len = buf.len();
    proof {
        assert forall|v: CommandV| cut_at(buf@, pos as int, #[trigger] command_bytes(v)) && v is AddSong implies pos >= buf@.len() || (v matches CommandV::AddSong(f0)
            && (cut_at(buf@, pos + 1, song_bytes(f0)))) by {
            if let CommandV::AddSong(f0) = v {
                lemma_cut_split_if(buf@, pos as int, seq![13u8], song_bytes(f0));
            }
        }
        assert forall|v: CommandV| holds_at(buf@, pos as int, #[trigger] command_bytes(v)) && v is AddSong implies (v matches CommandV::AddSong(f0)
            && holds_at(buf@, pos + 1, song_bytes(f0))) by {
            if let CommandV::AddSong(f0) = v {
                lemma_holds_concat(buf@, pos as int, seq![13u8], song_bytes(f0));
            }
        }
    }
    if pos >= buf.len() {
        return Err(CodecError::UnexpectedEnd);
    }
    let (f0, p0) = Song::from_bytes(buf, pos + 1)?;
    proof {
        assert forall|v: CommandV| !(cut_at(buf@, pos as int, #[trigger] command_bytes(v)) && v is AddSong) by {
        }
    }
    Ok((Command::AddSong(f0), p0))
}

fn read_add_album(buf: &[u8], pos: usize) -> (r: Result<(Command, usize), CodecError>)
    ensures
        r matches Ok((c, p)) ==> pos < p <= buf@.len(),
        forall|v: CommandV| holds_at(buf@, pos as int, #[trigger] command_bytes(v)) && v is AddAlbum ==> (r matches Ok((c, p))
            && c@ == v && p == pos + command_bytes(v).len()),
        forall|v: CommandV| cut_at(buf@, pos as int, #[trigger] command_bytes(v)) && v is AddAlbum ==> r is Err,
{
    let buf_len = buf.len();
    proof {
        assert forall|v: CommandV| cut_at(buf@, pos as int, #[trigger] command_bytes(v)) && v is AddAlbum implies pos >= buf@.len() || (v matches CommandV::AddAlbum(f0)
            && (cut_at(buf@, pos + 1, album_bytes(f0)))) by {
            if let CommandV::AddAlbum(f0) = v {
                lemma_cut_split_if(buf@, pos as int, seq![14u8], album_bytes(f0));
            }
        }
        assert forall|v: CommandV| holds_at(buf@, pos as int, #[trigger] command_bytes(v)) && v is AddAlbum implies (v matches CommandV::AddAlbum(f0)
            && holds_at(buf@, pos + 1, album_bytes(f0))) by {
            if let CommandV::AddAlbum(f0) = v {
                lemma_holds_concat(buf@, pos as int, seq![14u8], album_bytes(f0));
            }
        }
    }
    if pos >= buf.len() {
        return Err(CodecError::UnexpectedEnd);
    }
    let (f0, p0) = Album::from_bytes(buf, pos + 1)?;
    proof {
        assert forall|v: CommandV| !(cut_at(buf@, pos as int, #[trigger] command_bytes(v)) && v is AddAlbum) by {
        }
    }
    Ok((Command::AddAlbum(f0), p0))
}

fn read_add_artist(buf: &[u8], pos: usize) -> (r: Result<(Command, usize), CodecError>)
    ensures
        r matches Ok((c, p)) ==> pos < p <= buf@.len(),
        forall|v: CommandV| holds_at(buf@, pos as int, #[trigger] command_bytes(v)) && v is AddArtist ==> (r matches Ok((c, p))
            && c@ == v && p == pos + command_bytes(v).len()),
        forall|v: CommandV| cut_at(buf@, pos as int, #[trigger] command_bytes(v)) && v is AddArtist ==> r is Err,
{
    let buf_len = buf.len();
    proof {
        assert forall|v: CommandV| cut_at(buf@, pos as int, #[trigger] command_bytes(v)) && v is AddArtist implies pos >= buf@.len() || (v matches CommandV::AddArtist(f0)
            && (cut_at(buf@, pos + 1, artist_bytes(f0)))) by {
            if let CommandV::AddArtist(f0) = v {
                lemma_cut_split_if(buf@, pos as int, seq![15u8], artist_bytes(f0));
            }
        }
        assert forall|v: CommandV| holds_at(buf@, pos as int, #[trigger] command_bytes(v)) && v is AddArtist implies (v matches CommandV::AddArtist(f0)
            && holds_at(buf@, pos + 1, artist_bytes(f0))) by {
            if let CommandV::AddArtist(f0) = v {
                lemma_holds_concat(buf@, pos as int, seq![15u8], artist_bytes(f0));
            }
        }
    }
    if pos >= buf.len() {
        return Err(CodecError::UnexpectedEnd);
    }
    let (f0, p0) = Artist::from_bytes(buf, pos + 1)?;
    proof {
        assert forall|v: CommandV| !(cut_at(buf@, pos as int, #[trigger] command_bytes(v)) && v is AddArtist) by {
        }
    }
    Ok((Command::AddArtist(f0), p0))
}

fn read_add_cover(buf: &[u8], pos: usize) -> (r: Result<(Command, usize), CodecError>)
    ensures
        r matches Ok((c, p)) ==> pos < p <= buf@.len(),
        forall|v: CommandV| holds_at(buf@, pos as int, #[trigger] command_bytes(v)) && v is AddCover ==> (r matches Ok((c, p))
            && c@ == v && p == pos + command_bytes(v).len()),
        forall|v: CommandV| cut_at(buf@, pos as int, #[trigger] command_bytes(v)) && v is AddCover ==> r is Err,
{
    let buf_len = buf.len();
    proof {
        assert forall|v: CommandV| cut_at(buf@, pos as int, #[trigger] command_bytes(v)) && v is AddCover implies pos >= buf@.len() || (v matches CommandV::AddCover(f0)
            && (cut_at(buf@, pos + 1, cover_bytes(f0)))) by {
            if let CommandV::AddCover(f0) = v {
                lemma_cut_split_if(buf@, pos as int, seq![16u8], cover_bytes(f0));
            }
        }
        assert forall|v: CommandV| holds_at(buf@, pos as int, #[trigger] command_bytes(v)) && v is AddCover implies (v matches CommandV::AddCover(f0)
            && holds_at(buf@, pos + 1, cover_bytes(f0))) by {
            if let CommandV::AddCover(f0) = v {
                lemma_holds_concat(buf@, pos as int, seq![16u8], cover_bytes(f0));
            }
        }
    }
    if pos >= buf.len() {
        return Err(CodecError::UnexpectedEnd);
    }
    let (f0, p0) = Cover::from_bytes(buf, pos + 1)?;
    proof {
        assert forall|v: CommandV| !(cut_at(buf@, pos as int, #[trigger] command_bytes(v)) && v is AddCover) by {
        }
    }
    Ok((Command::AddCover(f0), p0))
}

fn read_modify_song(buf: &[u8], pos: usize) -> (r: Result<(Command, usize), CodecError>)
    ensures
        r matches Ok((c, p)) ==> pos < p <= buf@.len(),
        forall|v: CommandV| holds_at(buf@, pos as int, #[trigger] command_bytes(v)) && v is ModifySong ==> (r matches Ok((c, p))
            && c@ == v && p == pos + command_bytes(v).len()),
        forall|v: CommandV| cut_at(buf@, pos as int, #[trigger] command_bytes(v)) && v is ModifySong ==> r is Err,
{
    let buf_len = buf.len();
    proof {
        assert forall|v: CommandV| cut_at(buf@, pos as int, #[trigger] command_bytes(v)) && v is ModifySong implies pos >= buf@.len() || (v matches CommandV::ModifySong(f0)
            && (cut_at(buf@, pos + 1, song_bytes(f0)))) by {
            if let CommandV::ModifySong(f0) = v {
                lemma_cut_split_if(buf@, pos as int, seq![17u8], song_bytes(f0));
            }
        }
        assert forall|v: CommandV| holds_at(buf@, pos as int, #[trigger] command_bytes(v)) && v is ModifySong implies (v matches CommandV::ModifySong(f0)
            && holds_at(buf@, pos + 1, song_bytes(f0))) by {
            if let CommandV::ModifySong(f0) = v {
                lemma_holds_concat(buf@, pos as int, seq![17u8], song_bytes(f0));
            }
        }
    }
    if pos >= buf.len() {
        return Err(CodecError::UnexpectedEnd);
    }
    let (f0, p0) = Song::from_bytes(buf, pos + 1)?;
    proof {
        assert forall|v: CommandV| !(cut_at(buf@, pos as int, #[trigger] command_bytes(v)) && v is ModifySong) by {
        }
    }
    Ok((Command::ModifySong(f0), p0))
}

fn read_modify_album(buf: &[u8], pos: usize) -> (r: Result<(Command, usize), CodecError>)
    ensures
        r matches Ok((c, p)) ==> pos < p <= buf@.len(),
        forall|v: CommandV| holds_at(buf@, pos as int, #[trigger] command_bytes(v)) && v is ModifyAlbum ==> (r matches Ok((c, p))
            && c@ == v && p == pos + command_bytes(v).len()),
        forall|v: CommandV| cut_at(buf@, pos as int, #[trigger] command_bytes(v)) && v is ModifyAlbum ==> r is Err,
{
    let buf_len = buf.len();
    proof {
        assert forall|v: CommandV| cut_at(buf@, pos as int, #[trigger] command_bytes(v)) && v is ModifyAlbum implies pos >= buf@.len() || (v matches CommandV::ModifyAlbum(f0)
            && (cut_at(buf@, pos + 1, album_bytes(f0)))) by {
            if let CommandV::ModifyAlbum(f0) = v {
                lemma_cut_split_if(buf@, pos as int, seq![18u8], album_bytes(f0));
            }
        }
        assert forall|v: CommandV| holds_at(buf@, pos as int, #[trigger] command_bytes(v)) && v is ModifyAlbum implies (v matches CommandV::ModifyAlbum(f0)
            && holds_at(buf@, pos + 1, album_bytes(f0))) by {
            if let CommandV::ModifyAlbum(f0) = v {
                lemma_holds_concat(buf@, pos as int, seq![18u8], album_bytes(f0));
            }
        }
    }
    if pos >= buf.len() {
        return Err(CodecError::UnexpectedEnd);
    }
    let (f0, p0) = Album::from_bytes(buf, pos + 1)?;
    proof {
        assert forall|v: CommandV| !(cut_at(buf@, pos as int, #[trigger] command_bytes(v)) && v is ModifyAlbum) by {
        }
    }
    Ok((Command::ModifyAlbum(f0), p0))
}

fn read_modify_artist(buf: &[u8], pos: usize) -> (r: Result<(Command, usize), CodecError>)
    ensures
        r matches Ok((c, p)) ==> pos < p <= buf@.len(),
        forall|v: CommandV| holds_at(buf@, pos as int, #[trigger] command_bytes(v)) && v is ModifyArtist ==> (r matches Ok((c, p))
            && c@ == v && p == pos + command_bytes(v).len()),
        forall|v: CommandV| cut_at(buf@, pos as int, #[trigger] command_bytes(v)) && v is ModifyArtist ==> r is Err,
{
    let buf_len = buf.len();
    proof {
        assert forall|v: CommandV| cut_at(buf@, pos as int, #[trigger] command_bytes(v)) && v is ModifyArtist implies pos >= buf@.len() || (v matches CommandV::ModifyArtist(f0)
            && (cut_at(buf@, pos + 1, artist_bytes(f0)))) by {
            if let CommandV::ModifyArtist(f0) = v {
                lemma_cut_split_if(buf@, pos as int, seq![19u8], artist_bytes(f0));
            }
        }
        assert forall|v: CommandV| holds_at(buf@, pos as int, #[trigger] command_bytes(v)) && v is ModifyArtist implies (v matches CommandV::ModifyArtist(f0)
            && holds_at(buf@, pos + 1, artist_bytes(f0))) by {
            if let CommandV::ModifyArtist(f0) = v {
                lemma_holds_concat(buf@, pos as int, seq![19u8], artist_bytes(f0));
            }
        }
    }
    if pos >= buf.len() {
        return Err(CodecError::UnexpectedEnd);
    }
    let (f0, p0) = Artist::from_bytes(buf, pos + 1)?;
    proof {
        assert forall|v: CommandV| !(cut_at(buf@, pos as int, #[trigger] command_bytes(v)) && v is ModifyArtist) by {
        }
    }
    Ok((Command::ModifyArtist(f0), p0))
}

fn read_remove_song(buf: &[u8], pos: usize) -> (r: Result<(Command, usize), CodecError>)
    ensures
        r matches Ok((c, p)) ==> pos < p <= buf@.len(),
        forall|v: CommandV| holds_at(buf@, pos as int, #[trigger] command_bytes(v)) && v is RemoveSong ==> (r matches Ok((c, p))
            && c@ == v && p == pos + command_bytes(v).len()),
        forall|v: CommandV| cut_at(buf@, pos as int, #[trigger] command_bytes(v)) && v is RemoveSong ==> r is Err,
{
    let buf_len = buf.len();
    proof {
        assert forall|v: CommandV| cut_at(buf@, pos as int, #[trigger] command_bytes(v)) && v is RemoveSong implies pos >= buf@.len() || (v matches CommandV::RemoveSong(f0)
            && (cut_at(buf@, pos + 1, le_bytes(f0)))) by {
            if let CommandV::RemoveSong(f0) = v {
                lemma_cut_split_if(buf@, pos as int, seq![20u8], le_bytes(f0));
            }
        }
        assert forall|v: CommandV| holds_at(buf@, pos as int, #[trigger] command_bytes(v)) && v is RemoveSong implies (v matches CommandV::RemoveSong(f0)
            && holds_at(buf@, pos + 1, le_bytes(f0))) by {
            if let CommandV::RemoveSong(f0) = v {
                lemma_holds_concat(buf@, pos as int, seq![20u8], le_bytes(f0));
            }
        }
    }
    if pos >= buf.len() {
        return Err(CodecError::UnexpectedEnd);
    }
    let (f0, p0) = get_u64(buf, pos + 1)?;
    proof {
        assert forall|v: CommandV| !(cut_at(buf@, pos as int, #[trigger] command_bytes(v)) && v is RemoveSong) by {
        }
    }
    Ok((Command::RemoveSong(f0), p0))
}

fn read_remove_album(buf: &[u8], pos: usize) -> (r: Result<(Command, usize), CodecError>)
    ensures
        r matches Ok((c, p)) ==> pos < p <= buf@.len(),
        forall|v: CommandV| holds_at(buf@, pos as int, #[trigger] command_bytes(v)) && v is RemoveAlbum ==> (r matches Ok((c, p))
            && c@ == v && p == pos + command_bytes(v).len()),
        forall|v: CommandV| cut_at(buf@, pos as int, #[trigger] command_bytes(v)) && v is RemoveAlbum ==> r is Err,
{
    let buf_len = buf.len();
    proof {
        assert forall|v: CommandV| cut_at(buf@, pos as int, #[trigger] command_bytes(v)) && v is RemoveAlbum implies pos >= buf@.len() || (v matches CommandV::RemoveAlbum(f0)
            && (cut_at(buf@, pos + 1, le_bytes(f0)))) by {
            if let CommandV::RemoveAlbum(f0) = v {
                lemma_cut_split_if(buf@, pos as int, seq![21u8], le_bytes(f0));
            }
        }
        assert forall|v: CommandV| holds_at(buf@, pos as int, #[trigger] command_bytes(v)) && v is RemoveAlbum implies (v matches CommandV::RemoveAlbum(f0)
            && holds_at(buf@, pos + 1, le_bytes(f0))) by {
            if let CommandV::RemoveAlbum(f0) = v {
                lemma_holds_concat(buf@, pos as int, seq![21u8], le_bytes(f0));
            }
        }
    }
    if pos >= buf.len() {
        return Err(CodecError::UnexpectedEnd);
    }
    let (f0, p0) = get_u64(buf, pos + 1)?;
    proof {
        assert forall|v: CommandV| !(cut_at(buf@, pos as int, #[trigger] command_bytes(v)) && v is RemoveAlbum) by {
        }
    }
    Ok((Command::RemoveAlbum(f0), p0))
}

fn read_remove_artist(buf: &[u8], pos: usize) -> (r: Result<(Command, usize), CodecError>)
    ensures
        r matches Ok((c, p)) ==> pos < p <= buf@.len(),
        forall|v: CommandV| holds_at(buf@, pos as int, #[trigger] command_bytes(v)) && v is RemoveArtist ==> (r matches Ok((c, p))
            && c@ == v && p == pos + command_bytes(v).len()),
        forall|v: CommandV| cut_at(buf@, pos as int, #[trigger] command_bytes(v)) && v is RemoveArtist ==> r is Err,
{
    let buf_len = buf.len();
    proof {
        assert forall|v: CommandV| cut_at(buf@, pos as int, #[trigger] command_bytes(v)) && v is RemoveArtist implies pos >= buf@.len() || (v matches CommandV::RemoveArtist(f0)
            && (cut_at(buf@, pos + 1, le_bytes(f0)))) by {
            if let CommandV::RemoveArtist(f0) = v {
                lemma_cut_split_if(buf@, pos as int, seq![22u8], le_bytes(f0));
            }
        }
        assert forall|v: CommandV| holds_at(buf@, pos as int, #[trigger] command_bytes(v)) && v is RemoveArtist implies (v matches CommandV::RemoveArtist(f0)
            && holds_at(buf@, pos + 1, le_bytes(f0))) by {
            if let CommandV::RemoveArtist(f0) = v {
                lemma_holds_concat(buf@, pos as int, seq![22u8], le_bytes(f0));
            }
        }
    }
    if pos >= buf.len() {
        return Err(CodecError::UnexpectedEnd);
    }
    let (f0, p0) = get_u64(buf, pos + 1)?;
    proof {
        assert forall|v: CommandV| !(cut_at(buf@, pos as int, #[trigger] command_bytes(v)) && v is RemoveArtist) by {
        }
    }
    Ok((Command::RemoveArtist(f0), p0))
}

fn read_set_song_duration(buf: &[u8], pos: usize) -> (r: Result<(Command, usize), CodecError>)
    ensures
        r matches Ok((c, p)) ==> pos < p <= buf@.len(),
        forall|v: CommandV| holds_at(buf@, pos as int, #[trigger] command_bytes(v)) && v is SetSongDuration ==> (r matches Ok((c, p))
            && c@ == v && p == pos + command_bytes(v).len()),
        forall|v: CommandV| cut_at(buf@, pos as int, #[trigger] command_bytes(v)) && v is SetSongDuration ==> r is Err,
{
    let buf_len = buf.len();
    proof {
        assert forall|v: CommandV| cut_at(buf@, pos as int, #[trigger] command_bytes(v)) && v is SetSongDuration implies pos >= buf@.len() || (v matches CommandV::SetSongDuration(f0, f1)
            && (cut_at(buf@, pos + 1, le_bytes(f0)) || (holds_at(buf@, pos + 1, le_bytes(f0)) && (cut_at(buf@, pos + 1 + le_bytes(f0).len(), le_bytes(f1)))))) by {
            if let CommandV::SetSongDuration(f0, f1) = v {
                lemma_cut_split_if(buf@, pos as int, seq![23u8], le_bytes(f0) + (le_bytes(f1)));
                lemma_cut_split_if(buf@, pos + 1, le_bytes(f0), le_bytes(f1));
            }
        }
        assert forall|v: CommandV| holds_at(buf@, pos as int, #[trigger] command_bytes(v)) && v is SetSongDuration implies (v matches CommandV::SetSongDuration(f0, f1)
            && holds_at(buf@, pos + 1, le_bytes(f0)) && holds_at(buf@, pos + 1 + le_bytes(f0).len(), le_bytes(f1))) by {
            if let CommandV::SetSongDuration(f0, f1) = v {
                lemma_holds_concat(buf@, pos as int, seq![23u8], le_bytes(f0) + (le_bytes(f1)));
                lemma_holds_concat(buf@, pos + 1, le_bytes(f0), le_bytes(f1));
            }
        }
    }
    if pos >= buf.len() {
        return Err(CodecError::UnexpectedEnd);
    }
    let (f0, p0) = get_u64(buf, pos + 1)?;
    let (f1, p1) = get_u64(buf, p0)?;
    proof {
        assert forall|v: CommandV| !(cut_at(buf@, pos as int, #[trigger] command_bytes(v)) && v is SetSongDuration) by {
        }
    }
    Ok((Command::SetSongDuration(f0, f1), p1))
}

fn read_set_library_directory(buf: &[u8], pos: usize) -> (r: Result<(Command, usize), CodecError>)
    ensures
        r matches Ok((c, p)) ==> pos < p <= buf@.len(),
        forall|v: CommandV| holds_at(buf@, pos as int, #[trigger] command_bytes(v)) && v is SetLibraryDirectory ==> (r matches Ok((c, p))
            && c@ == v && p == pos + command_bytes(v).len()),
        forall|v: CommandV| cut_at(buf@, pos as int, #[trigger] command_bytes(v)) && v is SetLibraryDirectory ==> r is Err,
{
    let buf_len = buf.len();
    proof {
        assert forall|v: CommandV| cut_at(buf@, pos as int, #[trigger] command_bytes(v)) && v is SetLibraryDirectory implies pos >= buf@.len() || (v matches CommandV::SetLibraryDirectory(f0)
            && (cut_at(buf@, pos + 1, text_bytes(f0)))) by {
            if let CommandV::SetLibraryDirectory(f0) = v {
                lemma_cut_split_if(buf@, pos as int, seq![24u8], text_bytes(f0));
            }
        }
        assert forall|v: CommandV| holds_at(buf@, pos as int, #[trigger] command_bytes(v)) && v is SetLibraryDirectory implies (v matches CommandV::SetLibraryDirectory(f0)
            && holds_at(buf@, pos + 1, text_bytes(f0))) by {
            if let CommandV::SetLibraryDirectory(f0) = v {
                lemma_holds_concat(buf@, pos as int, seq![24u8], text_bytes(f0));
            }
        }
    }
    if pos >= buf.len() {
        return Err(CodecError::UnexpectedEnd);
    }
    let (f0, p0) = get_text(buf, pos + 1)?;
    proof {
        assert forall|v: CommandV| !(cut_at(buf@, pos as int, #[trigger] command_bytes(v)) && v is SetLibraryDirectory) by {
        }
    }
    Ok((Command::SetLibraryDirectory(f0), p0))
}

fn read_error_info(buf: &[u8], pos: usize) -> (r: Result<(Command, usize), CodecError>)
    ensures
        r matches Ok((c, p)) ==> pos < p <= buf@.len(),
        forall|v: CommandV| holds_at(buf@, pos as int, #[trigger] command_bytes(v)) && v is ErrorInfo ==> (r matches Ok((c, p))
            && c@ == v && p == pos + command_bytes(v).len()),
        forall|v: CommandV| cut_at(buf@, pos as int, #[trigger] command_bytes(v)) && v is ErrorInfo ==> r is Err,
{
    let buf_len = buf.len();
    proof {
        assert forall|v: CommandV| cut_at(buf@, pos as int, #[trigger] command_bytes(v)) && v is ErrorInfo implies pos >= buf@.len() || (v matches CommandV::ErrorInfo(f0, f1)
            && (cut_at(buf@, pos + 1, text_bytes(f0)) || (holds_at(buf@, pos + 1, text_bytes(f0)) && (cut_at(buf@, pos + 1 + text_bytes(f0).len(), text_bytes(f1)))))) by {
            if let CommandV::ErrorInfo(f0, f1) = v {
                lemma_cut_split_if(buf@, pos as int, seq![25u8], text_bytes(f0) + (text_bytes(f1)));
                lemma_cut_split_if(buf@, pos + 1, text_bytes(f0), text_bytes(f1));
            }
        }
        assert forall|v: CommandV| holds_at(buf@, pos as int, #[trigger] command_bytes(v)) && v is ErrorInfo implies (v matches CommandV::ErrorInfo(f0, f1)
            && holds_at(buf@, pos + 1, text_bytes(f0)) && holds_at(buf@, pos + 1 + text_bytes(f0).len(), text_bytes(f1))) by {
            if let CommandV::ErrorInfo(f0, f1) = v {
                lemma_holds_concat(buf@, pos as int, seq![25u8], text_bytes(f0) + (text_bytes(f1)));
                lemma_holds_concat(buf@, pos + 1, text_bytes(f0), text_bytes(f1));
            }
        }
    }
    if pos >= buf.len() {
        return Err(CodecError::UnexpectedEnd);
    }
    let (f0, p0) = get_text(buf, pos + 1)?;
    let (f1, p1) = get_text(buf, p0)?;
    proof {
        assert forall|v: CommandV| !(cut_at(buf@, pos as int, #[trigger] command_bytes(v)) && v is ErrorInfo) by {
        }
    }
    Ok((Command::ErrorInfo(f0, f1), p1))
}

} // verus!

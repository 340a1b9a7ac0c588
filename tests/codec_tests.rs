use musicdb::codec::{get_text, get_u64, put_text, put_u64, CodecError};
use musicdb::command::Command;
use musicdb::entity::{Album, Artist, Cover, DatabaseLocation, GeneralData, Song};

#[test]
fn u64_is_little_endian() {
    let mut out = Vec::new();
    put_u64(&mut out, 0x0102030405060708);
    assert_eq!(out, vec![8, 7, 6, 5, 4, 3, 2, 1]);
    assert_eq!(get_u64(&out, 0), Ok((0x0102030405060708, 8)));
    assert_eq!(get_u64(&out, 1), Err(CodecError::UnexpectedEnd));
}

#[test]
fn text_is_length_prefixed_utf8() {
    let mut out = Vec::new();
    put_text(&mut out, "hé");
    assert_eq!(out, vec![3, 0, 0, 0, 0, 0, 0, 0, b'h', 0xC3, 0xA9]);
    let (s, end) = get_text(&out, 0).unwrap();
    assert_eq!(s, "hé");
    assert_eq!(end, out.len());
}

#[test]
fn invalid_utf8_fails() {
    let bytes = vec![1, 0, 0, 0, 0, 0, 0, 0, 0xFF];
    assert_eq!(get_text(&bytes, 0), Err(CodecError::InvalidUtf8));
    let long = vec![9, 0, 0, 0, 0, 0, 0, 0, b'a'];
    assert_eq!(get_text(&long, 0), Err(CodecError::UnexpectedEnd));
}

#[test]
fn entities_round_trip() {
    let artist = Artist {
        id: 3,
        name: "Name".to_string(),
        cover: Some(9),
        albums: vec![1, 2],
        singles: vec![7],
        general: GeneralData { tags: vec!["Genre=rock".to_string()] },
    };
    let mut out = Vec::new();
    artist.to_bytes(&mut out);
    assert_eq!(Artist::from_bytes(&out, 0).unwrap(), (artist, out.len()));

    let album = Album {
        id: 4,
        artist: 3,
        name: "Al".to_string(),
        cover: None,
        songs: vec![5, 6],
        general: GeneralData::default(),
    };
    let mut out = Vec::new();
    album.to_bytes(&mut out);
    assert_eq!(Album::from_bytes(&out, 0).unwrap(), (album, out.len()));

    let song = Song {
        id: 5,
        location: DatabaseLocation { rel_path: "a/b.mp3".to_string() },
        title: "T".to_string(),
        album: Some(4),
        artist: 3,
        more_artists: vec![8],
        cover: None,
        file_size: 99,
        duration_millis: 1000,
        general: GeneralData { tags: vec!["Fav".to_string()] },
    };
    let mut out = Vec::new();
    song.to_bytes(&mut out);
    assert_eq!(Song::from_bytes(&out, 0).unwrap(), (song, out.len()));

    let cover = Cover { id: 2, location: DatabaseLocation { rel_path: "c.jpg".to_string() } };
    let mut out = Vec::new();
    cover.to_bytes(&mut out);
    assert_eq!(Cover::from_bytes(&out, 0).unwrap(), (cover, out.len()));
}

#[test]
fn optional_flag_nonzero_means_present() {
    let cover = Artist {
        id: 1,
        name: String::new(),
        cover: Some(6),
        albums: vec![],
        singles: vec![],
        general: GeneralData::default(),
    };
    let mut out = Vec::new();
    cover.to_bytes(&mut out);
    // the flag byte follows the id (8 bytes) and the empty name (8 bytes)
    assert_eq!(out[16], 1);
    out[16] = 7;
    assert_eq!(Artist::from_bytes(&out, 0).unwrap().0.cover, Some(6));
}

#[test]
fn commands_round_trip() {
    let cmds = vec![
        Command::Pause,
        Command::QueueInsert(vec![0, 2], 1, musicdb::queue::Queue::new(musicdb::queue::QueueContent::Song(3))),
        Command::QueueSetShuffle(vec![1], vec![2, 0, 1], 2),
        Command::RemoveSong(4),
        Command::ErrorInfo("title".to_string(), "detail".to_string()),
    ];
    for c in cmds {
        let mut out = Vec::new();
        c.to_bytes(&mut out);
        let (back, end) = Command::from_bytes(&out, 0).unwrap();
        assert_eq!(end, out.len());
        let mut again = Vec::new();
        back.to_bytes(&mut again);
        assert_eq!(again, out);
    }
}

#[test]
fn unknown_command_tag_fails() {
    assert_eq!(Command::from_bytes(&[200u8], 0).err(), Some(CodecError::InvalidTag));
    assert_eq!(Command::from_bytes(&[], 0).err(), Some(CodecError::UnexpectedEnd));
}

#[test]
fn every_cut_short_encoding_fails() {
    let song = Song {
        id: 5,
        location: DatabaseLocation { rel_path: "a/b.mp3".to_string() },
        title: "T".to_string(),
        album: Some(4),
        artist: 3,
        more_artists: vec![8],
        cover: None,
        file_size: 99,
        duration_millis: 1000,
        general: GeneralData { tags: vec!["Fav".to_string()] },
    };
    let mut out = Vec::new();
    song.to_bytes(&mut out);
    for n in 0..out.len() {
        assert!(Song::from_bytes(&out[..n], 0).is_err());
    }
    let cmd = Command::QueueInsert(vec![0, 2], 1, musicdb::queue::Queue::new(musicdb::queue::QueueContent::Song(3)));
    let mut out = Vec::new();
    cmd.to_bytes(&mut out);
    for n in 0..out.len() {
        assert!(Command::from_bytes(&out[..n], 0).is_err());
    }
}

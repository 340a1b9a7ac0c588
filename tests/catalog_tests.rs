use musicdb::command::Command;
use musicdb::database::Database;
use musicdb::entity::{Album, Artist, Cover, DatabaseLocation, GeneralData, Song};
use musicdb::queue::{Queue, QueueAction, QueueContent};

fn artist(name: &str) -> Artist {
    Artist { id: 77, name: name.to_string(), cover: None, albums: vec![], singles: vec![], general: GeneralData::default() }
}

fn album(artist: u64, name: &str) -> Album {
    Album { id: 77, artist, name: name.to_string(), cover: None, songs: vec![], general: GeneralData::default() }
}

fn song(album: Option<u64>, artist: u64, title: &str) -> Song {
    Song {
        id: 77,
        location: DatabaseLocation { rel_path: format!("{title}.mp3") },
        title: title.to_string(),
        album,
        artist,
        more_artists: vec![],
        cover: None,
        file_size: 1234,
        duration_millis: 60_000,
        general: GeneralData { tags: vec!["Year=1997".to_string(), "Fav".to_string()] },
    }
}

fn seeded() -> Database {
    let mut db = Database::new_empty("/music".to_string());
    assert_eq!(db.add_artist_new(artist("A")), 0);
    assert_eq!(db.add_album_new(album(0, "X")), 0);
    assert_eq!(db.add_song_new(song(Some(0), 0, "t")), 0);
    db
}

#[test]
fn seed_catalog_links_entities() {
    let db = seeded();
    let a = db.artists().get(&0).unwrap();
    assert_eq!(a.albums, vec![0]);
    assert!(a.singles.is_empty());
    assert_eq!(db.albums().get(&0).unwrap().songs, vec![0]);
    assert_eq!(db.songs().get(&0).unwrap().album, Some(0));
    assert_eq!(db.get_song(&0).unwrap().id, 0);
}

#[test]
fn song_without_album_becomes_single() {
    let mut db = seeded();
    let id = db.add_song_new(song(None, 0, "single"));
    assert_eq!(id, 1);
    assert_eq!(db.artists().get(&0).unwrap().singles, vec![1]);
    let id2 = db.add_song_new(song(Some(9), 0, "lost album"));
    assert_eq!(db.artists().get(&0).unwrap().singles, vec![1, id2]);
    let id3 = db.add_song_new(song(None, 5, "no artist"));
    assert!(db.songs().contains_key(&id3));
}

#[test]
fn ids_are_lowest_free() {
    let mut db = Database::new_empty(String::new());
    for expected in 0..4u64 {
        assert_eq!(db.add_artist_new(artist("x")), expected);
    }
    assert!(db.remove_artist(1).is_some());
    assert_eq!(db.add_artist_new(artist("y")), 1);
    assert_eq!(db.add_artist_new(artist("z")), 4);
    assert_eq!(db.artists().get(&1).unwrap().name, "y");
    assert_eq!(db.artists().get(&1).unwrap().id, 1);
    assert_eq!(db.add_cover_new(Cover { id: 5, location: DatabaseLocation { rel_path: "c.jpg".to_string() } }), 0);
}

#[test]
fn album_of_missing_artist_is_not_linked() {
    let mut db = Database::new_empty(String::new());
    let id = db.add_album_new(album(3, "orphan"));
    assert_eq!(id, 0);
    assert!(db.artists().is_empty());
}

#[test]
fn update_replaces_by_id() {
    let mut db = seeded();
    let mut s = song(Some(0), 0, "renamed");
    s.id = 0;
    let prev = db.update_song(s).unwrap();
    assert_eq!(prev.title, "t");
    assert_eq!(db.songs().get(&0).unwrap().title, "renamed");
    let mut missing = song(None, 0, "none");
    missing.id = 42;
    assert!(db.update_song(missing).is_err());
    let mut al = album(0, "Y");
    al.id = 0;
    assert_eq!(db.update_album(al).unwrap().name, "X");
    let mut ar = artist("B");
    ar.id = 0;
    assert_eq!(db.update_artist(ar).unwrap().name, "A");
    let mut ar2 = artist("C");
    ar2.id = 9;
    assert!(db.update_artist(ar2).is_err());
}

#[test]
fn snapshot_round_trip() {
    let mut db = seeded();
    db.add_song_new(song(None, 0, "other"));
    db.add_cover_new(Cover { id: 0, location: DatabaseLocation { rel_path: "cover.png".to_string() } });
    let bytes = db.to_bytes();
    let back = Database::from_bytes(&bytes).unwrap();
    assert_eq!(back.artists(), db.artists());
    assert_eq!(back.albums(), db.albums());
    assert_eq!(back.songs(), db.songs());
    assert_eq!(back.covers(), db.covers());
    assert_eq!(back.lib_directory, "/music");
    assert!(!back.playing);
}

#[test]
fn truncated_snapshot_fails() {
    let db = seeded();
    let bytes = db.to_bytes();
    assert!(Database::from_bytes(&bytes[..bytes.len() - 1]).is_err());
}

fn apply_all(db: &mut Database, cmds: Vec<Command>) {
    for c in cmds {
        db.apply_command(c);
    }
}

fn commands() -> Vec<Command> {
    vec![
        Command::AddArtist(artist("A")),
        Command::AddAlbum(album(0, "X")),
        Command::AddSong(song(Some(0), 0, "one")),
        Command::AddSong(song(Some(0), 0, "two")),
        Command::QueueAdd(vec![], Queue::new(QueueContent::Song(0))),
        Command::QueueAdd(vec![], Queue::new(QueueContent::Song(1))),
        Command::Resume,
        Command::NextSong,
        Command::SetSongDuration(1, 5),
        Command::SetLibraryDirectory("/lib".to_string()),
    ]
}

#[test]
fn replicas_applying_same_commands_agree() {
    let mut server = Database::new_empty(String::new());
    let mut client = Database::new_empty(String::new());
    apply_all(&mut server, commands());
    // the client receives the commands as frames
    for c in commands() {
        let mut frame = Vec::new();
        c.to_bytes(&mut frame);
        let (decoded, end) = Command::from_bytes(&frame, 0).unwrap();
        assert_eq!(end, frame.len());
        client.apply_command(decoded);
    }
    assert_eq!(server.songs(), client.songs());
    assert_eq!(server.albums(), client.albums());
    assert_eq!(server.artists(), client.artists());
    assert_eq!(server.playing, client.playing);
    assert_eq!(server.lib_directory, client.lib_directory);
    assert_eq!(server.queue.get_current_song(), client.queue.get_current_song());
    assert_eq!(server.queue.get_current_song(), Some(&1));
    assert_eq!(server.songs().get(&1).unwrap().duration_millis, 5);
}

#[test]
fn broadcast_frame_is_identical_for_each_subscriber() {
    let cmd = Command::AddSong(song(None, 0, "s"));
    let mut frame = Vec::new();
    cmd.to_bytes(&mut frame);
    let mut sub_a: Vec<u8> = Vec::new();
    let mut sub_b: Vec<u8> = Vec::new();
    sub_a.extend_from_slice(&frame);
    sub_b.extend_from_slice(&frame);
    assert_eq!(sub_a, sub_b);
    let (back, _) = Command::from_bytes(&sub_a, 0).unwrap();
    assert!(matches!(back, Command::AddSong(s) if s.title == "s"));
}

#[test]
fn init_commands_bring_subscriber_up_to_date() {
    let mut db = seeded();
    db.playing = true;
    let cmds = db.init_connection();
    assert_eq!(cmds.len(), 5);
    assert!(matches!(&cmds[0], Command::SyncDatabase(a, b, s) if a.len() == 1 && b.len() == 1 && s.len() == 1));
    assert!(matches!(&cmds[1], Command::QueueUpdate(p, _) if p.is_empty()));
    assert!(matches!(&cmds[2], Command::Resume));
    assert!(matches!(&cmds[3], Command::SetLibraryDirectory(d) if d == "/music"));
    assert!(matches!(&cmds[4], Command::InitComplete));
    let mut client = Database::new_empty(String::new());
    apply_all(&mut client, cmds);
    assert_eq!(client.songs(), db.songs());
    assert_eq!(client.artists(), db.artists());
    assert!(client.playing);
}

#[test]
fn next_song_on_shuffle_asks_for_new_order() {
    let mut db = Database::new_empty(String::new());
    let shuffle = Queue::new(QueueContent::Shuffle(
        0,
        vec![0, 1],
        vec![Queue::new(QueueContent::Song(1)), Queue::new(QueueContent::Song(2))],
        1,
    ));
    db.apply_command(Command::QueueAdd(vec![], shuffle));
    let actions = db.apply_command(Command::QueueGoto(vec![0]));
    assert_eq!(actions.len(), 1);
    match &actions[0] {
        QueueAction::SetShuffle(path, map, next) => {
            assert_eq!(path, &vec![0]);
            assert_eq!(map[0], 1);
            assert!(*next < 2);
            db.apply_command(Command::QueueSetShuffle(path.clone(), map.clone(), *next));
        }
        _ => panic!(),
    }
    match db.queue.get_item_at_index(&vec![0], 0).unwrap().content() {
        QueueContent::Shuffle(_, map, _, _) => assert_eq!(map[0], 1),
        _ => panic!(),
    }
}

#[test]
fn sync_replaces_catalog() {
    let mut db = seeded();
    let mut a = artist("N");
    a.id = 5;
    db.sync(vec![a], vec![], vec![]);
    assert_eq!(db.artists().len(), 1);
    assert_eq!(db.artists().get(&5).unwrap().name, "N");
    assert!(db.songs().is_empty());
}

#[test]
fn remove_leaves_references() {
    let mut db = seeded();
    assert!(db.remove_song(0).is_some());
    assert!(db.remove_song(0).is_none());
    assert_eq!(db.albums().get(&0).unwrap().songs, vec![0]);
    assert!(db.remove_album(0).is_some());
    assert_eq!(db.artists().get(&0).unwrap().albums, vec![0]);
}

#[test]
fn random_song_action_picks_a_catalog_song() {
    let db = seeded();
    let cmd = db.command_for_action(QueueAction::AddRandomSong(vec![2])).unwrap();
    match cmd {
        Command::QueueAdd(path, q) => {
            assert_eq!(path, vec![2]);
            assert_eq!(q.get_current_song(), Some(&0));
        }
        _ => panic!(),
    }
    let empty = Database::new_clientside();
    assert!(empty.command_for_action(QueueAction::AddRandomSong(vec![])).is_none());
    let shuffle = db.command_for_action(QueueAction::SetShuffle(vec![1], vec![1, 0], 1)).unwrap();
    assert!(matches!(shuffle, Command::QueueSetShuffle(p, m, 1) if p == vec![1] && m == vec![1, 0]));
}

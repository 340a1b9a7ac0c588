use musicdb::queue::{Queue, QueueAction, QueueContent};

fn song(id: u64) -> Queue {
    Queue::new(QueueContent::Song(id))
}

fn folder(cursor: usize, children: Vec<Queue>) -> Queue {
    Queue::new(QueueContent::Folder(cursor, children, String::new()))
}

fn folder_cursor(q: &Queue) -> usize {
    match q.content() {
        QueueContent::Folder(i, _, _) => *i,
        _ => panic!("not a folder"),
    }
}

fn folder_ids(q: &Queue) -> Vec<u64> {
    match q.content() {
        QueueContent::Folder(_, v, _) => v
            .iter()
            .map(|c| match c.content() {
                QueueContent::Song(id) => *id,
                _ => panic!("not a song"),
            })
            .collect(),
        _ => panic!("not a folder"),
    }
}

#[test]
fn insert_before_cursor_keeps_current_song() {
    let mut q = folder(0, vec![song(0), song(1), song(2)]);
    assert!(q.insert(song(9), 0));
    assert_eq!(folder_cursor(&q), 1);
    assert_eq!(folder_ids(&q), vec![9, 0, 1, 2]);
    assert_eq!(q.get_current_song(), Some(&0));
    let mut actions = Vec::new();
    assert!(q.advance_index(&mut actions));
    assert_eq!(folder_cursor(&q), 2);
    assert!(q.advance_index(&mut actions));
    assert_eq!(folder_cursor(&q), 3);
    assert!(!q.advance_index(&mut actions));
    assert_eq!(folder_cursor(&q), 0);
    assert!(q.advance_index(&mut actions));
    assert_eq!(folder_cursor(&q), 1);
    assert!(actions.is_empty());
}

#[test]
fn advance_through_folder_of_four_from_start() {
    let mut q = folder(0, vec![song(9), song(0), song(1), song(2)]);
    let mut actions = Vec::new();
    let results: Vec<bool> = (0..4).map(|_| q.advance_index(&mut actions)).collect();
    assert_eq!(results, vec![true, true, true, false]);
    assert_eq!(folder_cursor(&q), 0);
}

#[test]
fn advance_folder_of_three_cursor_stops_at_last() {
    for k in 0..5usize {
        let mut q = folder(0, vec![song(1), song(2), song(3)]);
        let mut actions = Vec::new();
        let mut last = true;
        for step in 0..k {
            last = q.advance_index(&mut actions);
            if step < 2 {
                assert!(last);
            }
        }
        if k <= 2 {
            assert_eq!(folder_cursor(&q), k);
        }
        if k == 3 {
            assert!(!last);
            assert_eq!(folder_cursor(&q), 0);
        }
    }
}

#[test]
fn insert_out_of_range_fails() {
    let mut q = folder(0, vec![song(0)]);
    assert!(!q.insert(song(1), 2));
    assert!(!song(3).insert(song(1), 0));
    assert_eq!(folder_ids(&q), vec![0]);
}

#[test]
fn add_to_end_reports_position() {
    let mut q = folder(0, vec![song(0)]);
    assert_eq!(q.add_to_end(song(5)), Some(1));
    assert_eq!(folder_ids(&q), vec![0, 5]);
    let mut s = song(1);
    assert_eq!(s.add_to_end(song(2)), None);
    let mut l = Queue::new(QueueContent::Loop(2, 0, Box::new(song(1))));
    assert_eq!(l.add_to_end(song(2)), None);
    let mut sh = Queue::new(QueueContent::Shuffle(0, vec![0], vec![song(1)], 0));
    assert_eq!(sh.add_to_end(song(2)), Some(1));
    match sh.content() {
        QueueContent::Shuffle(_, map, elems, _) => {
            assert_eq!(map, &vec![0, 1]);
            assert_eq!(elems.len(), 2);
        }
        _ => panic!(),
    }
}

#[test]
fn length_counts_leaves_and_loops() {
    let inner = folder(0, vec![song(1), song(2)]);
    let looped = Queue::new(QueueContent::Loop(3, 0, Box::new(inner)));
    let forever = Queue::new(QueueContent::Loop(0, 0, Box::new(song(4))));
    let q = folder(0, vec![looped, forever, song(5)]);
    assert_eq!(q.len(), 3 * 2 + 1 + 1);
    assert_eq!(folder(0, vec![]).len(), 0);
}

#[test]
fn disabled_node_has_length_zero() {
    // an enabled byte without bits set decodes to a disabled node
    let mut bytes = Vec::new();
    song(7).to_bytes(&mut bytes);
    bytes[0] = 0;
    let (q, end) = Queue::from_bytes(&bytes, 0).unwrap();
    assert_eq!(end, bytes.len());
    assert!(!q.enabled());
    assert_eq!(q.len(), 0);
    let f = folder(0, vec![q, song(8)]);
    assert_eq!(f.len(), 1);
}

#[test]
fn current_and_next_of_nested_queue() {
    let q = folder(0, vec![folder(1, vec![song(1), song(2), song(3)]), song(4)]);
    assert_eq!(q.get_current_song(), Some(&2));
    assert_eq!(q.get_next_song(), Some(&3));
    let q2 = folder(0, vec![folder(2, vec![song(1), song(2), song(3)]), song(4)]);
    assert_eq!(q2.get_next_song(), Some(&4));
    let r = Queue::new(QueueContent::Random(vec![song(1), song(2), song(3)]));
    assert_eq!(r.get_current_song(), Some(&2));
    assert_eq!(r.get_next_song(), Some(&3));
    let sh = Queue::new(QueueContent::Shuffle(0, vec![2, 0, 1], vec![song(10), song(11), song(12)], 0));
    assert_eq!(sh.get_current_song(), Some(&12));
    assert_eq!(sh.get_next_song(), Some(&10));
}

#[test]
fn item_at_index_and_removal() {
    let mut q = folder(2, vec![song(1), folder(0, vec![song(2), song(3)]), song(4)]);
    assert_eq!(q.get_item_at_index(&vec![1, 1], 0).and_then(|n| n.get_current_song()), Some(&3));
    assert!(q.get_item_at_index(&vec![5], 0).is_none());
    let removed = q.remove_by_index(&vec![0], 0).unwrap();
    assert_eq!(removed.get_current_song(), Some(&1));
    assert_eq!(folder_cursor(&q), 1);
    let inner = q.remove_by_index(&vec![0, 0], 0).unwrap();
    assert_eq!(inner.get_current_song(), Some(&2));
    assert!(q.remove_by_index(&vec![9], 0).is_none());
    if let Some(node) = q.get_item_at_index_mut(&vec![1], 0) {
        *node = song(40);
    }
    assert_eq!(q.get_item_at_index(&vec![1], 0).and_then(|n| n.get_current_song()), Some(&40));
}

#[test]
fn shuffle_init_starts_with_next() {
    let mut q = Queue::new(QueueContent::Shuffle(0, vec![1, 0], vec![song(1), song(2)], 0));
    let mut actions = Vec::new();
    q.init(vec![3], &mut actions);
    assert_eq!(actions.len(), 1);
    match &actions[0] {
        QueueAction::SetShuffle(path, map, next) => {
            assert_eq!(path, &vec![3]);
            assert_eq!(map[0], 0);
            let mut sorted = map.clone();
            sorted.sort();
            assert_eq!(sorted, vec![0, 1]);
            assert!(*next < 2);
        }
        _ => panic!("expected a shuffle action"),
    }
}

#[test]
fn shuffle_order_covers_every_element_once() {
    let elems: Vec<Queue> = (0..7).map(song).collect();
    let mut q = Queue::new(QueueContent::Shuffle(0, vec![], elems, 4));
    let mut actions = Vec::new();
    q.init(vec![], &mut actions);
    match &actions[0] {
        QueueAction::SetShuffle(_, map, _) => {
            assert_eq!(map[0], 4);
            let mut sorted = map.clone();
            sorted.sort();
            assert_eq!(sorted, (0..7).collect::<Vec<usize>>());
        }
        _ => panic!(),
    }
}

#[test]
fn random_init_with_empty_buffer_asks_for_two_songs() {
    let mut q = Queue::new(QueueContent::Random(vec![]));
    let mut actions = Vec::new();
    q.init(vec![1, 2], &mut actions);
    assert_eq!(actions.len(), 2);
    for a in &actions {
        match a {
            QueueAction::AddRandomSong(p) => assert_eq!(p, &vec![1, 2]),
            _ => panic!(),
        }
    }
}

#[test]
fn random_advance_drops_front_and_asks_for_a_song() {
    let mut q = Queue::new(QueueContent::Random(vec![song(1), song(2), song(3)]));
    let mut actions = Vec::new();
    assert!(!q.advance_index(&mut actions));
    match q.content() {
        QueueContent::Random(v) => assert_eq!(v.len(), 2),
        _ => panic!(),
    }
    assert!(matches!(actions.last(), Some(QueueAction::AddRandomSong(p)) if p.is_empty()));
}

#[test]
fn loop_repeats_inner_queue() {
    let mut q = Queue::new(QueueContent::Loop(2, 0, Box::new(folder(0, vec![song(1), song(2)]))));
    let mut actions = Vec::new();
    let results: Vec<bool> = (0..4).map(|_| q.advance_index(&mut actions)).collect();
    assert_eq!(results, vec![true, true, true, false]);
}

#[test]
fn set_index_moves_cursors() {
    let mut q = folder(0, vec![song(1), folder(0, vec![song(2), song(3)])]);
    let mut actions = Vec::new();
    q.set_index_inner(&vec![1, 1], 0, vec![], &mut actions);
    assert_eq!(q.get_current_song(), Some(&3));
    assert!(actions.is_empty());
}

#[test]
fn queue_bytes_round_trip() {
    let q = folder(
        1,
        vec![
            song(3),
            Queue::new(QueueContent::Loop(2, 1, Box::new(song(4)))),
            Queue::new(QueueContent::Random(vec![song(5)])),
            Queue::new(QueueContent::Shuffle(0, vec![1, 0], vec![song(6), song(7)], 1)),
        ],
    );
    let mut bytes = Vec::new();
    q.to_bytes(&mut bytes);
    assert_eq!(bytes[0], 0xFF);
    assert_eq!(bytes[1], 0x00);
    let (back, end) = Queue::from_bytes(&bytes, 0).unwrap();
    assert_eq!(end, bytes.len());
    let mut again = Vec::new();
    back.to_bytes(&mut again);
    assert_eq!(again, bytes);
    assert_eq!(back.len(), q.len());
}

#[test]
fn unknown_tag_decodes_to_placeholder_folder() {
    let bytes = vec![0xFFu8, 0x42, 1, 2, 3];
    let (q, end) = Queue::from_bytes(&bytes, 0).unwrap();
    assert_eq!(end, 2);
    match q.content() {
        QueueContent::Folder(i, v, name) => {
            assert_eq!(*i, 0);
            assert!(v.is_empty());
            assert_eq!(name, "<invalid byte received>");
        }
        _ => panic!(),
    }
}

#[test]
fn short_queue_bytes_fail() {
    let mut bytes = Vec::new();
    song(3).to_bytes(&mut bytes);
    bytes.pop();
    assert!(Queue::from_bytes(&bytes, 0).is_err());
}

#[test]
fn enabled_byte_counts_set_bits() {
    let mut bytes = Vec::new();
    song(3).to_bytes(&mut bytes);
    bytes[0] = 0b0000_1111;
    assert!(Queue::from_bytes(&bytes, 0).unwrap().0.enabled());
    bytes[0] = 0b0000_0111;
    assert!(!Queue::from_bytes(&bytes, 0).unwrap().0.enabled());
}

#[test]
fn upcoming_songs_follow_playback_order() {
    let q = folder(1, vec![song(1), song(2), song(3), song(4)]);
    assert_eq!(q.upcoming_songs(2), vec![2, 3]);
    assert_eq!(q.upcoming_songs(10), vec![2, 3, 4]);
    assert_eq!(q.upcoming_songs(0), Vec::<u64>::new());
    assert_eq!(folder(0, vec![]).upcoming_songs(3), Vec::<u64>::new());
    // the queue itself does not move
    assert_eq!(q.get_current_song(), Some(&2));
}

#[test]
fn shuffle_current_descends_into_elements() {
    let sh = Queue::new(QueueContent::Shuffle(0, vec![1, 0], vec![song(1), folder(0, vec![song(5), song(6)])], 0));
    assert_eq!(sh.get_current_song(), Some(&5));
}

#[test]
fn loop_next_stops_after_last_pass() {
    let one_pass = Queue::new(QueueContent::Loop(1, 0, Box::new(folder(1, vec![song(1), song(2)]))));
    assert_eq!(one_pass.get_next_song(), None);
    let two_passes = Queue::new(QueueContent::Loop(2, 0, Box::new(folder(1, vec![song(1), song(2)]))));
    assert_eq!(two_passes.get_next_song(), Some(&1));
}

#[test]
fn removing_from_shuffle_renumbers_order() {
    let mut sh = Queue::new(QueueContent::Shuffle(0, vec![0, 2, 1], vec![song(10), song(11), song(12)], 0));
    let removed = sh.remove_by_index(&vec![0], 0).unwrap();
    assert_eq!(removed.get_current_song(), Some(&10));
    match sh.content() {
        QueueContent::Shuffle(_, map, elems, _) => {
            assert_eq!(map, &vec![1, 0]);
            assert_eq!(elems.len(), 2);
        }
        _ => panic!(),
    }
    assert_eq!(sh.get_current_song(), Some(&12));
}

#[test]
fn random_init_with_one_item_asks_for_one_song() {
    let mut q = Queue::new(QueueContent::Random(vec![song(3)]));
    let mut actions = Vec::new();
    q.init(vec![4], &mut actions);
    assert_eq!(actions, vec![QueueAction::AddRandomSong(vec![4])]);
}

#[test]
fn shuffle_of_songs_plays_each_position_once() {
    let mut sh = Queue::new(QueueContent::Shuffle(0, vec![2, 0, 1], vec![song(10), song(11), song(12)], 0));
    let mut actions = Vec::new();
    let mut played = vec![*sh.get_current_song().unwrap()];
    while sh.advance_index(&mut actions) {
        played.push(*sh.get_current_song().unwrap());
    }
    assert_eq!(played, vec![12, 10, 11]);
    assert!(actions.is_empty());
}

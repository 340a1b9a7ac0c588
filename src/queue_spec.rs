//! Mathematical model of the playback queue.
use vstd::prelude::*;
use crate::codec::{le_bytes, text_bytes, u64s_bytes};

verus! {

/// Abstract value of a queue node.
pub struct QueueV {
    pub enabled: bool,
    pub content: ContentV,
}

/// Abstract value of the content of a queue node.
pub enum ContentV {
    Song(u64),
    Folder(usize, Seq<QueueV>, Seq<char>),
    Loop(usize, usize, Box<QueueV>),
    Random(Seq<QueueV>),
    Shuffle(usize, Seq<usize>, Seq<QueueV>, usize),
}

/// `n - k`, or 0 when that would be negative.
pub open spec fn sat_sub(n: int, k: int) -> int {
    if n >= k { n - k } else { 0 }
}

/// Number of songs a node plays: 0 when disabled, one per enabled leaf otherwise,
/// with a loop counted as `max(1, total)` passes over its inner node.
pub open spec fn qlen(q: QueueV) -> nat
    decreases q, 0nat,
{
    if !q.enabled {
        0
    } else {
        match q.content {
            ContentV::Song(_) => 1,
            ContentV::Folder(_, v, _) => qlen_sum(v),
            ContentV::Random(v) => qlen_sum(v),
            ContentV::Shuffle(_, _, v, _) => qlen_sum(v),
            ContentV::Loop(total, _, inner) => if total == 0 {
                qlen(*inner)
            } else {
                total as nat * qlen(*inner)
            },
        }
    }
}

/// Sum of `qlen` over a sequence of nodes.
pub open spec fn qlen_sum(s: Seq<QueueV>) -> nat
    decreases s, s.len(),
{
    if s.len() == 0 {
        0
    } else {
        qlen_sum(s.subrange(0, s.len() - 1)) + qlen(s[s.len() - 1])
    }
}


/// Adding one more node to the end of a sequence adds its length.
pub proof fn lemma_qlen_sum_prefix(s: Seq<QueueV>, i: int)
    requires
        0 <= i < s.len(),
    ensures
        qlen_sum(s.subrange(0, i + 1)) == qlen_sum(s.subrange(0, i)) + qlen(s[i]),
        qlen_sum(s.subrange(0, i + 1)) <= qlen_sum(s),
    decreases s.len() - i,
{
    assert(s.subrange(0, i + 1).subrange(0, i) =~= s.subrange(0, i));
    if i + 1 < s.len() {
        lemma_qlen_sum_prefix(s, i + 1);
    } else {
        assert(s.subrange(0, i + 1) =~= s);
    }
}

/// The song node that is currently playing, as `get_current` finds it.
pub open spec fn current(q: QueueV) -> Option<QueueV>
    decreases q,
{
    match q.content {
        ContentV::Song(_) => Some(q),
        ContentV::Folder(i, v, _) => if i < v.len() { current(v[i as int]) } else { None },
        ContentV::Loop(_, _, inner) => current(*inner),
        ContentV::Random(v) => {
            let i = sat_sub(v.len() as int, 2);
            if i < v.len() { current(v[i]) } else { None }
        },
        ContentV::Shuffle(i, map, elems, _) => if i < map.len() && map[i as int] < elems.len() {
            current(elems[map[i as int] as int])
        } else {
            None
        },
    }
}

/// The first node a queue would play when started over.
pub open spec fn first(q: QueueV) -> Option<QueueV>
    decreases q,
{
    match q.content {
        ContentV::Song(_) => Some(q),
        ContentV::Folder(_, v, _) => if v.len() > 0 { Some(v[0]) } else { None },
        ContentV::Loop(_, _, inner) => first(*inner),
        ContentV::Random(v) => if v.len() > 0 { Some(v[0]) } else { None },
        ContentV::Shuffle(i, _, v, next) => if i == 0 {
            if v.len() > 0 { Some(v[0]) } else { None }
        } else {
            if next < v.len() { Some(v[next as int]) } else { None }
        },
    }
}

/// The node that plays after the current one, as `get_next` finds it.
pub open spec fn next(q: QueueV) -> Option<QueueV>
    decreases q,
{
    match q.content {
        ContentV::Song(_) => None,
        ContentV::Folder(i, v, _) => if i < v.len() {
            match next(v[i as int]) {
                Some(n) => Some(n),
                None => if i + 1 < v.len() { current(v[i + 1]) } else { None },
            }
        } else {
            None
        },
        ContentV::Loop(total, cur, inner) => match next(*inner) {
            Some(n) => Some(n),
            None => if total == 0 || cur + 1 < total { first(*inner) } else { None },
        },
        ContentV::Random(v) => {
            let i = sat_sub(v.len() as int, 1);
            if i < v.len() { current(v[i]) } else { None }
        },
        ContentV::Shuffle(i, map, elems, _) => if i + 1 < map.len() && map[i + 1] < elems.len() {
            Some(elems[map[i + 1] as int])
        } else {
            None
        },
    }
}

/// The node that an index path leads to, starting at position `depth` of the path.
pub open spec fn item_at(q: QueueV, path: Seq<usize>, depth: int) -> Option<QueueV>
    decreases q,
{
    if 0 <= depth < path.len() {
        let i = path[depth] as int;
        match q.content {
            ContentV::Song(_) => None,
            ContentV::Folder(_, v, _) => if i < v.len() { item_at(v[i], path, depth + 1) } else { None },
            ContentV::Loop(_, _, inner) => item_at(*inner, path, depth + 1),
            ContentV::Random(v) => if i < v.len() { item_at(v[i], path, depth + 1) } else { None },
            ContentV::Shuffle(_, map, elems, _) => if i < map.len() && map[i] < elems.len() {
                item_at(elems[map[i] as int], path, depth + 1)
            } else {
                None
            },
        }
    } else {
        Some(q)
    }
}


/// Node after `add_to_end`, and the position reported.
pub open spec fn add_to_end_spec(q: QueueV, x: QueueV) -> (QueueV, Option<int>) {
    match q.content {
        ContentV::Folder(i, v, name) => (
            QueueV { content: ContentV::Folder(i, v.push(x), name), ..q },
            Some(v.len() as int),
        ),
        ContentV::Random(v) => (QueueV { content: ContentV::Random(v.push(x)), ..q }, Some(v.len() as int)),
        ContentV::Shuffle(c, map, elems, n) => (
            QueueV { content: ContentV::Shuffle(c, map.push(elems.len() as usize), elems.push(x), n), ..q },
            Some(map.len() as int),
        ),
        _ => (q, None),
    }
}

/// Node after `insert` of `x` at `pos`, and whether it was inserted (a folder's cursor
/// saturates at the largest `usize`).
pub open spec fn insert_spec(q: QueueV, x: QueueV, pos: int) -> (QueueV, bool) {
    match q.content {
        ContentV::Folder(cur, v, name) => if pos <= v.len() {
            let c = if cur >= pos && cur < usize::MAX { cur + 1 } else { cur as int };
            (QueueV { content: ContentV::Folder(c as usize, v.insert(pos, x), name), ..q }, true)
        } else {
            (q, false)
        },
        ContentV::Shuffle(c, map, elems, n) => if pos <= map.len() {
            (
                QueueV {
                    content: ContentV::Shuffle(c, map.insert(pos, elems.len() as usize), elems.push(x), n),
                    ..q
                },
                true,
            )
        } else {
            (q, false)
        },
        _ => (q, false),
    }
}


/// A shuffle order after element `e` left: the positions above it move down by one.
pub open spec fn renumber(map: Seq<usize>, e: usize) -> Seq<usize> {
    map.map_values(|x: usize| if x > e { (x - 1) as usize } else { x })
}

/// Node after `remove_by_index` along `path` from `depth`, and the node removed.
pub open spec fn remove_spec(q: QueueV, path: Seq<usize>, depth: int) -> (QueueV, Option<QueueV>)
    decreases q,
{
    if 0 <= depth < path.len() {
        let i = path[depth] as int;
        match q.content {
            ContentV::Song(_) => (q, None),
            ContentV::Folder(ci, v, name) => if depth + 1 < path.len() {
                if i < v.len() {
                    let (c2, r) = remove_spec(v[i], path, depth + 1);
                    (QueueV { content: ContentV::Folder(ci, v.update(i, c2), name), ..q }, r)
                } else {
                    (q, None)
                }
            } else if i < v.len() {
                let ci2 = if ci > i { (ci - 1) as usize } else { ci };
                (QueueV { content: ContentV::Folder(ci2, v.remove(i), name), ..q }, Some(v[i]))
            } else {
                (q, None)
            },
            ContentV::Loop(t, c, inner) => if depth + 1 < path.len() {
                let (c2, r) = remove_spec(*inner, path, depth + 1);
                (QueueV { content: ContentV::Loop(t, c, Box::new(c2)), ..q }, r)
            } else {
                (q, None)
            },
            ContentV::Random(v) => if i < v.len() {
                (QueueV { content: ContentV::Random(v.remove(i)), ..q }, Some(v[i]))
            } else {
                (q, None)
            },
            ContentV::Shuffle(cur, map, elems, nx) => {
                let cur2 = if i < cur { (cur - 1) as usize } else { cur };
                let nx2 = if i < nx { (nx - 1) as usize } else { nx };
                if i < map.len() {
                    let e = map[i] as int;
                    if e < elems.len() {
                        (
                            QueueV {
                                content: ContentV::Shuffle(cur2, renumber(map.remove(i), e as usize), elems.remove(e), nx2),
                                ..q
                            },
                            Some(elems[e]),
                        )
                    } else {
                        (QueueV { content: ContentV::Shuffle(cur2, map.remove(i), elems, nx2), ..q }, None)
                    }
                } else {
                    (QueueV { content: ContentV::Shuffle(cur2, map, elems, nx2), ..q }, None)
                }
            },
        }
    } else {
        (q, None)
    }
}


/// `q` with the node that `path` leads to (from `depth` on) replaced by `new`;
/// unchanged when the path leads nowhere.
pub open spec fn replace_at(q: QueueV, path: Seq<usize>, depth: int, new: QueueV) -> QueueV
    decreases q,
{
    if 0 <= depth < path.len() {
        let i = path[depth] as int;
        match q.content {
            ContentV::Song(_) => q,
            ContentV::Folder(c, v, name) => if i < v.len() {
                QueueV { content: ContentV::Folder(c, v.update(i, replace_at(v[i], path, depth + 1, new)), name), ..q }
            } else {
                q
            },
            ContentV::Loop(t, c, inner) => QueueV {
                content: ContentV::Loop(t, c, Box::new(replace_at(*inner, path, depth + 1, new))),
                ..q
            },
            ContentV::Random(v) => if i < v.len() {
                QueueV { content: ContentV::Random(v.update(i, replace_at(v[i], path, depth + 1, new))), ..q }
            } else {
                q
            },
            ContentV::Shuffle(c, map, elems, nx) => if i < map.len() && map[i] < elems.len() {
                let m = map[i] as int;
                QueueV {
                    content: ContentV::Shuffle(c, map, elems.update(m, replace_at(elems[m], path, depth + 1, new)), nx),
                    ..q
                }
            } else {
                q
            },
        }
    } else {
        new
    }
}

/// `set_index`: moves each cursor along `path` (from `depth` on) and lets each
/// newly selected node start; `build` is the path walked so far.
pub open spec fn set_index(q: QueueV, path: Seq<usize>, depth: int, build: Seq<usize>) -> (QueueV, Seq<ActionShape>)
    decreases q,
{
    if 0 <= depth < path.len() {
        let i = path[depth];
        let b = build.push(i);
        match q.content {
            ContentV::Folder(_, v, name) => if i < v.len() {
                let (c2, s2) = set_index(v[i as int], path, depth + 1, b);
                (
                    QueueV { content: ContentV::Folder(i, v.update(i as int, c2), name), ..q },
                    init_shapes(v[i as int], b) + s2,
                )
            } else {
                (QueueV { content: ContentV::Folder(i, v, name), ..q }, Seq::empty())
            },
            ContentV::Loop(t, c, inner) => {
                let (i2, s2) = set_index(*inner, path, depth + 1, b);
                (QueueV { content: ContentV::Loop(t, c, Box::new(i2)), ..q }, init_shapes(*inner, b) + s2)
            },
            ContentV::Shuffle(_, map, elems, nx) => if i < map.len() && map[i as int] < elems.len() {
                let m = map[i as int] as int;
                let (e2, s2) = set_index(elems[m], path, depth + 1, b);
                (
                    QueueV { content: ContentV::Shuffle(i, map, elems.update(m, e2), nx), ..q },
                    init_shapes(elems[m], b) + s2,
                )
            } else {
                (QueueV { content: ContentV::Shuffle(i, map, elems, nx), ..q }, Seq::empty())
            },
            _ => (q, Seq::empty()),
        }
    } else {
        (q, Seq::empty())
    }
}

/// Abstract value of an action that a queue walk asks its host to carry out.
pub enum ActionV {
    AddRandomSong(Seq<usize>),
    SetShuffle(Seq<usize>, Seq<usize>, usize),
}

/// What a walk determines of an action before any random choice: where it
/// applies, and for a shuffle, how many elements it has and which comes first.
pub enum ActionShape {
    AddRandomSong(Seq<usize>),
    SetShuffle(Seq<usize>, nat, usize),
}

/// The indices `0..n` without `x`, in increasing order.
pub open spec fn others(n: nat, x: usize) -> Seq<usize>
    decreases n,
{
    if n == 0 {
        Seq::empty()
    } else if n - 1 == x {
        others((n - 1) as nat, x)
    } else {
        others((n - 1) as nat, x).push((n - 1) as usize)
    }
}

/// A new shuffle order for `n` elements that starts with `first`: `first`, then
/// every other index exactly once; and a new first element below `n` (0 when empty).
pub open spec fn shuffle_ok(n: nat, first: usize, map: Seq<usize>, new_next: usize) -> bool {
    if n == 0 {
        map.len() == 0 && new_next == 0
    } else {
        &&& map.len() > 0
        &&& map[0] == first
        &&& map.drop_first().to_multiset() == others(n, first).to_multiset()
        &&& new_next < n
    }
}

pub open spec fn fits(a: ActionV, s: ActionShape) -> bool {
    match s {
        ActionShape::AddRandomSong(p) => a == ActionV::AddRandomSong(p),
        ActionShape::SetShuffle(p, n, first) => match a {
            ActionV::SetShuffle(p2, map, nn) => p2 == p && shuffle_ok(n, first, map, nn),
            _ => false,
        },
    }
}

/// Each action fits the shape at the same position.
pub open spec fn fits_all(a: Seq<ActionV>, s: Seq<ActionShape>) -> bool {
    &&& a.len() == s.len()
    &&& forall|i: int| 0 <= i < a.len() ==> #[trigger] fits(a[i], s[i])
}

/// The requests for random songs that bring a buffer of `len` nodes up to two.
pub open spec fn top_up(path: Seq<usize>, len: nat) -> Seq<ActionShape> {
    if len == 0 {
        seq![ActionShape::AddRandomSong(path), ActionShape::AddRandomSong(path)]
    } else if len == 1 {
        seq![ActionShape::AddRandomSong(path)]
    } else {
        Seq::empty()
    }
}

/// Actions that `init` asks for when the node at `path` becomes current.
pub open spec fn init_shapes(q: QueueV, path: Seq<usize>) -> Seq<ActionShape>
    decreases q,
{
    match q.content {
        ContentV::Song(_) => Seq::empty(),
        ContentV::Folder(_, v, _) => if v.len() > 0 { init_shapes(v[0], path) } else { Seq::empty() },
        ContentV::Loop(_, _, inner) => init_shapes(*inner, path),
        ContentV::Random(v) => top_up(path, v.len()) + if v.len() > 0 {
            init_shapes(v[sat_sub(v.len() as int, 2)], path)
        } else {
            Seq::empty()
        },
        ContentV::Shuffle(_, _, elems, nx) => seq![ActionShape::SetShuffle(path, elems.len(), nx)],
    }
}

/// Position of the first enabled node of `v` at or after `from`.
pub open spec fn next_enabled(v: Seq<QueueV>, from: int) -> Option<int>
    decreases v.len() - from,
{
    if from < 0 || from >= v.len() {
        None
    } else if v[from].enabled {
        Some(from)
    } else {
        next_enabled(v, from + 1)
    }
}

/// One step of playback: the new node, whether it could advance, and the actions
/// the step asks for. A container first lets its current child advance; when that
/// child is done it moves its own cursor, and when it is done itself it resets the
/// cursor to 0 and reports `false` to its parent.
pub open spec fn advance(q: QueueV, path: Seq<usize>) -> (QueueV, bool, Seq<ActionShape>)
    decreases q,
{
    match q.content {
        ContentV::Song(_) => (q, false, Seq::empty()),
        ContentV::Folder(index, v, name) => if index < v.len() {
            let (c2, adv, s1) = advance(v[index as int], path.push(index));
            let v2 = v.update(index as int, c2);
            if adv {
                (QueueV { content: ContentV::Folder(index, v2, name), ..q }, true, s1)
            } else {
                match next_enabled(v2, index + 1) {
                    Some(j) => (
                        QueueV { content: ContentV::Folder(j as usize, v2, name), ..q },
                        true,
                        s1 + init_shapes(v2[j], path),
                    ),
                    None => (QueueV { content: ContentV::Folder(0, v2, name), ..q }, false, s1),
                }
            }
        } else {
            (QueueV { content: ContentV::Folder(0, v, name), ..q }, false, Seq::empty())
        },
        ContentV::Loop(total, cur, inner) => {
            let (i2, adv, s1) = advance(*inner, path.push(0));
            if adv {
                (QueueV { content: ContentV::Loop(total, cur, Box::new(i2)), ..q }, true, s1)
            } else {
                let c1 = if cur < usize::MAX { (cur + 1) as usize } else { cur };
                if total == 0 || c1 < total {
                    (
                        QueueV { content: ContentV::Loop(total, c1, Box::new(i2)), ..q },
                        true,
                        s1 + init_shapes(i2, path),
                    )
                } else {
                    (QueueV { content: ContentV::Loop(total, 0, Box::new(i2)), ..q }, false, s1)
                }
            }
        },
        ContentV::Random(v) => {
            let i = sat_sub(v.len() as int, 2);
            let (v1, adv, s1) = if i < v.len() {
                let (c2, adv, s1) = advance(v[i], path.push(i as usize));
                (v.update(i, c2), adv, s1)
            } else {
                (v, false, Seq::empty())
            };
            if adv {
                (QueueV { content: ContentV::Random(v1), ..q }, true, s1 + top_up(path, v1.len()))
            } else {
                let v2 = if v1.len() >= 2 { v1.drop_first() } else { v1 };
                let i2 = sat_sub(v2.len() as int, 1);
                let s2 = if i2 < v2.len() { init_shapes(v2[i2], path.push(i2 as usize)) } else { Seq::empty() };
                (
                    QueueV { content: ContentV::Random(v2), ..q },
                    false,
                    s1 + s2 + seq![ActionShape::AddRandomSong(path)],
                )
            }
        },
        ContentV::Shuffle(cur, map, elems, nx) => {
            let (e1, adv, s1) = if cur < map.len() && map[cur as int] < elems.len() {
                let (c2, adv, s1) = advance(elems[map[cur as int] as int], path.push(cur));
                (elems.update(map[cur as int] as int, c2), adv, s1)
            } else {
                (elems, false, Seq::empty())
            };
            if adv {
                (QueueV { content: ContentV::Shuffle(cur, map, e1, nx), ..q }, true, s1)
            } else if cur + 1 < map.len() {
                let c1 = cur + 1;
                let s2 = if map[c1] < e1.len() { init_shapes(e1[map[c1] as int], path) } else { Seq::empty() };
                (QueueV { content: ContentV::Shuffle(c1 as usize, map, e1, nx), ..q }, true, s1 + s2)
            } else {
                (QueueV { content: ContentV::Shuffle(0, map, e1, nx), ..q }, false, s1)
            }
        },
    }
}


/// `others(n, x)` has every index below `n` but `x`.
pub proof fn lemma_others_len(n: nat, x: usize)
    ensures
        others(n, x).len() == if x < n { n - 1 } else { n as int },
    decreases n,
{
    if n > 0 {
        lemma_others_len((n - 1) as nat, x);
    }
}

} // verus!

verus! {

/// A folder whose children are all enabled songs.
pub open spec fn is_song_folder(q: QueueV) -> bool {
    &&& q.content is Folder
    &&& forall|j: int| 0 <= j < q.content->Folder_1.len() ==> {
        &&& (#[trigger] q.content->Folder_1[j]).enabled
        &&& q.content->Folder_1[j].content is Song
    }
}

/// Advancing a folder of songs moves its cursor to the next song and reports
/// `true`, until the cursor stands on the last song: then the cursor goes back to
/// 0 and the step reports `false`. No actions are asked for.
pub proof fn lemma_song_folder_advance(q: QueueV, path: Seq<usize>)
    requires
        is_song_folder(q),
        q.content->Folder_0 < q.content->Folder_1.len() <= usize::MAX,
    ensures
        ({
            let c = q.content->Folder_0;
            let n = q.content->Folder_1.len();
            let (q2, adv, acts) = advance(q, path);
            &&& q2.content is Folder
            &&& q2.content->Folder_1 == q.content->Folder_1
            &&& q2.content->Folder_2 == q.content->Folder_2
            &&& q2.enabled == q.enabled
            &&& acts.len() == 0
            &&& (c + 1 < n ==> adv && q2.content->Folder_0 == c + 1)
            &&& (c + 1 >= n ==> !adv && q2.content->Folder_0 == 0)
        }),
{
    let c = q.content->Folder_0;
    let v = q.content->Folder_1;
    let child = v[c as int];
    assert(child.content is Song);
    assert(advance(child, path.push(c)) == (child, false, Seq::<ActionShape>::empty()));
    let v2 = v.update(c as int, child);
    assert(v2 =~= v);
    if c + 1 < v.len() {
        assert(v[c + 1].enabled);
        assert(next_enabled(v2, c + 1) == Some(c + 1));
        assert(init_shapes(v2[c + 1], path) =~= Seq::<ActionShape>::empty());
        assert(Seq::<ActionShape>::empty() + Seq::<ActionShape>::empty() =~= Seq::<ActionShape>::empty());
    } else {
        assert(next_enabled(v2, c + 1) is None);
    }
}

/// A shuffle whose elements are all enabled songs and whose order names only
/// elements that exist.
pub open spec fn is_song_shuffle(q: QueueV) -> bool {
    &&& q.content is Shuffle
    &&& forall|j: int| 0 <= j < q.content->Shuffle_2.len() ==> {
        &&& (#[trigger] q.content->Shuffle_2[j]).enabled
        &&& q.content->Shuffle_2[j].content is Song
    }
    &&& forall|j: int| 0 <= j < q.content->Shuffle_1.len() ==> #[trigger] q.content->Shuffle_1[j]
        < q.content->Shuffle_2.len()
}

/// A step of a shuffle of songs plays the element its order names at the current
/// position; it then moves to the next position and reports `true`, or, at the last
/// position, goes back to position 0 and reports `false`. Started at position 0,
/// steps therefore play the positions 0, 1, ..., n-1 once each, which with an order
/// from `shuffle_ok` (see `lemma_shuffle_covers`) is every element once.
pub proof fn lemma_song_shuffle_advance(q: QueueV, path: Seq<usize>)
    requires
        is_song_shuffle(q),
        q.content->Shuffle_0 < q.content->Shuffle_1.len() <= usize::MAX,
    ensures
        ({
            let c = q.content->Shuffle_0;
            let map = q.content->Shuffle_1;
            let elems = q.content->Shuffle_2;
            let (q2, adv, acts) = advance(q, path);
            &&& current(q) == Some(elems[map[c as int] as int])
            &&& q2.content is Shuffle
            &&& q2.content->Shuffle_1 == map
            &&& q2.content->Shuffle_2 == elems
            &&& q2.content->Shuffle_3 == q.content->Shuffle_3
            &&& q2.enabled == q.enabled
            &&& acts.len() == 0
            &&& (c + 1 < map.len() ==> adv && q2.content->Shuffle_0 == c + 1)
            &&& (c + 1 >= map.len() ==> !adv && q2.content->Shuffle_0 == 0)
        }),
{
    let c = q.content->Shuffle_0;
    let map = q.content->Shuffle_1;
    let elems = q.content->Shuffle_2;
    let m = map[c as int] as int;
    let child = elems[m];
    assert(child.content is Song);
    assert(current(child) == Some(child));
    assert(advance(child, path.push(c)) == (child, false, Seq::<ActionShape>::empty()));
    assert(elems.update(m, child) =~= elems);
    if c + 1 < map.len() {
        let m2 = map[c + 1] as int;
        assert(elems[m2].content is Song);
        assert(init_shapes(elems[m2], path) =~= Seq::<ActionShape>::empty());
        assert(Seq::<ActionShape>::empty() + Seq::<ActionShape>::empty() =~= Seq::<ActionShape>::empty());
    }
}

/// Index `k` occurs once in `others(n, x)` when it is below `n` and not `x`, else never.
pub proof fn lemma_others_count(n: nat, x: usize, k: usize)
    requires
        n <= usize::MAX,
    ensures
        others(n, x).to_multiset().count(k) == if k < n && k != x { 1nat } else { 0nat },
    decreases n,
{
    broadcast use vstd::seq_lib::group_to_multiset_ensures;
    if n > 0 {
        lemma_others_len((n - 1) as nat, x);
        lemma_others_count((n - 1) as nat, x, k);
        let prev = others((n - 1) as nat, x);
        if n - 1 != x {
            assert(others(n, x) == prev.push((n - 1) as usize));
            assert(prev.push((n - 1) as usize).to_multiset() =~= prev.to_multiset().insert((n - 1) as usize));
        }
    } else {
        assert(!others(n, x).contains(k));
    }
}

/// A shuffle order drawn for `n > 0` elements with a first element below `n`
/// names every element exactly once, so one pass through the shuffle plays each
/// element once.
pub proof fn lemma_shuffle_covers(n: nat, first: usize, map: Seq<usize>, new_next: usize)
    requires
        shuffle_ok(n, first, map, new_next),
        0 < n <= usize::MAX,
        first < n,
    ensures
        map.len() == n,
        forall|k: usize| k < n ==> #[trigger] map.to_multiset().count(k) == 1,
        forall|k: usize| k >= n ==> #[trigger] map.to_multiset().count(k) == 0,
{
    broadcast use vstd::seq_lib::group_to_multiset_ensures;
    vstd::seq_lib::lemma_multiset_commutative(seq![first], map.drop_first());
    assert(map =~= seq![first] + map.drop_first());
    lemma_others_len(n, first);
    assert(map.drop_first().len() == map.drop_first().to_multiset().len());
    assert(others(n, first).len() == others(n, first).to_multiset().len());
    assert forall|k: usize| k < n implies #[trigger] map.to_multiset().count(k) == 1 by {
        lemma_others_count(n, first, k);
        assert(seq![first].to_multiset().count(k) == if k == first { 1nat } else { 0nat }) by {
            assert(seq![first] =~= Seq::<usize>::empty().push(first));
        }
    }
    assert forall|k: usize| k >= n implies #[trigger] map.to_multiset().count(k) == 0 by {
        lemma_others_count(n, first, k);
        assert(seq![first].to_multiset().count(k) == 0) by {
            assert(seq![first] =~= Seq::<usize>::empty().push(first));
        }
    }
}

/// After `init` a random stream has two nodes buffered, or the requests for random
/// songs that make up the difference come first among the actions.
pub proof fn lemma_random_init_buffer(q: QueueV, path: Seq<usize>)
    requires
        q.content is Random,
    ensures
        ({
            let len = q.content->Random_0.len();
            let t = top_up(path, len);
            &&& len + t.len() >= 2
            &&& init_shapes(q, path).len() >= t.len()
            &&& init_shapes(q, path).subrange(0, t.len() as int) == t
            &&& (len >= 2 || init_shapes(q, path).contains(ActionShape::AddRandomSong(path)))
        }),
{
    let len = q.content->Random_0.len();
    let t = top_up(path, len);
    let rest = if len > 0 { init_shapes(q.content->Random_0[sat_sub(len as int, 2)], path) } else { Seq::empty() };
    assert(init_shapes(q, path) == t + rest);
    assert((t + rest).subrange(0, t.len() as int) =~= t);
    if len < 2 {
        assert(init_shapes(q, path)[0] == ActionShape::AddRandomSong(path));
    }
}

/// After one step a random stream has two nodes buffered or a request for a
/// random song pending.
pub proof fn lemma_random_advance_buffer(q: QueueV, path: Seq<usize>)
    requires
        q.content is Random,
    ensures
        ({
            let (q2, adv, acts) = advance(q, path);
            &&& q2.content is Random
            &&& (q2.content->Random_0.len() >= 2 || acts.contains(ActionShape::AddRandomSong(path)))
        }),
{
    let (q2, adv, acts) = advance(q, path);
    if !adv {
        assert(acts[acts.len() - 1] == ActionShape::AddRandomSong(path));
    } else if q2.content->Random_0.len() < 2 {
        let v = q.content->Random_0;
        let i = sat_sub(v.len() as int, 2);
        let s1 = advance(v[i], path.push(i as usize)).2;
        assert(acts == s1 + top_up(path, v.len()));
        assert(acts[s1.len() as int] == ActionShape::AddRandomSong(path));
    }
}

} // verus!

verus! {

/// Tag bytes of the queue's variants.
pub const TAG_SONG: u8 = 0xFF;
pub const TAG_FOLDER: u8 = 0x00;
pub const TAG_LOOP: u8 = 0xC0;
pub const TAG_RANDOM: u8 = 0x30;
pub const TAG_SHUFFLE: u8 = 0x0C;

/// `b` is the tag of one of the variants.
pub open spec fn is_tag(b: u8) -> bool {
    b == TAG_SONG || b == TAG_FOLDER || b == TAG_LOOP || b == TAG_RANDOM || b == TAG_SHUFFLE
}

/// Positions written as 64-bit integers.
pub open spec fn usizes_as_u64(s: Seq<usize>) -> Seq<u64> {
    s.map_values(|x: usize| x as u64)
}

/// A node: its enabled byte (all bits set or none), then its content.
pub open spec fn queue_bytes(q: QueueV) -> Seq<u8>
    decreases q, 0nat,
{
    seq![if q.enabled { 0xFFu8 } else { 0u8 }] + content_bytes(q.content)
}

/// Content: a tag byte, then the variant's fields in order.
pub open spec fn content_bytes(c: ContentV) -> Seq<u8>
    decreases c, 0nat,
{
    match c {
        ContentV::Song(id) => seq![TAG_SONG] + le_bytes(id),
        ContentV::Folder(i, v, name) => seq![TAG_FOLDER] + (le_bytes(i as u64) + (le_bytes(v.len() as u64)
            + queues_bytes(v) + text_bytes(name))),
        ContentV::Loop(t, k, inner) => seq![TAG_LOOP] + (le_bytes(t as u64) + (le_bytes(k as u64) + queue_bytes(
            *inner,
        ))),
        ContentV::Random(v) => seq![TAG_RANDOM] + (le_bytes(v.len() as u64) + queues_bytes(v)),
        ContentV::Shuffle(k, m, v, n) => seq![TAG_SHUFFLE] + (le_bytes(k as u64) + (u64s_bytes(usizes_as_u64(m))
            + (le_bytes(v.len() as u64) + queues_bytes(v) + le_bytes(n as u64)))),
    }
}

/// The encodings of a sequence of nodes, one after the other.
pub open spec fn queues_bytes(s: Seq<QueueV>) -> Seq<u8>
    decreases s, s.len(),
{
    if s.len() == 0 {
        Seq::empty()
    } else {
        queues_bytes(s.subrange(0, s.len() - 1)) + queue_bytes(s[s.len() - 1])
    }
}

/// The number of set bits of a byte.
pub open spec fn ones(b: u8) -> int {
    (b & 1) as int + ((b >> 1u8) & 1) as int + ((b >> 2u8) & 1) as int + ((b >> 3u8) & 1) as int + ((b >> 4u8)
        & 1) as int + ((b >> 5u8) & 1) as int + ((b >> 6u8) & 1) as int + ((b >> 7u8) & 1) as int
}

/// What an unknown tag decodes to: an empty folder with a name that says so.
pub open spec fn invalid_folder(enabled: bool) -> QueueV {
    QueueV {
        enabled,
        content: ContentV::Folder(0, Seq::empty(), "<invalid byte received>"@),
    }
}

} // verus!

verus! {

/// The id of the song that is playing now, if any.
pub open spec fn current_song(q: QueueV) -> Option<u64> {
    match current(q) {
        Some(n) => match n.content {
            ContentV::Song(id) => Some(id),
            _ => None,
        },
        None => None,
    }
}

/// The songs that play from now on, at most `n` of them: the current one, then
/// the one after each step, until a step finds the end of the queue.
pub open spec fn upcoming(q: QueueV, n: nat) -> Seq<u64>
    decreases n,
{
    if n == 0 {
        Seq::empty()
    } else {
        match current_song(q) {
            Some(id) => {
                let (q2, adv, _) = advance(q, Seq::empty());
                if adv {
                    seq![id] + upcoming(q2, (n - 1) as nat)
                } else {
                    seq![id]
                }
            },
            None => Seq::empty(),
        }
    }
}

} // verus!

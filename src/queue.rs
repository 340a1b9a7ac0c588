//! The playback queue: a tree of songs, folders, loops, random streams and shuffles.
use vstd::prelude::*;
use crate::codec::{
    cut_at, get_text, get_u64, get_u64s, get_usize, holds_at, lemma_cut_split, lemma_cut_split_if, lemma_cut_step, le_bytes, lemma_holds_concat, put_text, put_u64, text_bytes, u64s_bytes,
    CodecError,
};
use crate::random::{random_below, shuffle_indices};
use crate::queue_spec::{
    content_bytes, current_song, upcoming, invalid_folder, is_tag, ones, queue_bytes, queues_bytes, usizes_as_u64, TAG_FOLDER, TAG_LOOP, TAG_RANDOM,
    TAG_SHUFFLE, TAG_SONG, advance, fits_all, renumber, top_up, replace_at, set_index, init_shapes, next_enabled, lemma_others_len, others, shuffle_ok, ActionShape, ActionV,
    add_to_end_spec, current, first, insert_spec, item_at, lemma_qlen_sum_prefix, next, qlen, qlen_sum, remove_spec, sat_sub, ContentV, QueueV,
};

verus! {

/// A node of the playback queue.
#[derive(Debug)]
pub struct Queue {
    enabled: bool,
    content: QueueContent,
}

/// What a queue node holds.
#[derive(Debug)]
pub enum QueueContent {
    Song(u64),
    Folder(usize, Vec<Queue>, String),
    Loop(usize, usize, Box<Queue>),
    Random(Vec<Queue>),
    Shuffle(usize, Vec<usize>, Vec<Queue>, usize),
}

pub closed spec fn queue_view(q: Queue) -> QueueV
    decreases q, 0nat,
{
    QueueV { enabled: q.enabled, content: content_view(q.content) }
}

pub closed spec fn content_view(c: QueueContent) -> ContentV
    decreases c, 0nat,
{
    match c {
        QueueContent::Song(id) => ContentV::Song(id),
        QueueContent::Folder(i, v, name) => ContentV::Folder(i, queues_view(v, v.len() as nat), name@),
        QueueContent::Loop(t, c, inner) => ContentV::Loop(t, c, Box::new(queue_view(*inner))),
        QueueContent::Random(v) => ContentV::Random(queues_view(v, v.len() as nat)),
        QueueContent::Shuffle(i, m, v, n) => ContentV::Shuffle(i, m@, queues_view(v, v.len() as nat), n),
    }
}

/// Views of the first `n` nodes of `v`.
pub closed spec fn queues_view(v: Vec<Queue>, n: nat) -> Seq<QueueV>
    decreases v, n,
{
    if 0 < n <= v.len() {
        queues_view(v, (n - 1) as nat).push(queue_view(v[n - 1]))
    } else {
        Seq::empty()
    }
}

} // verus!

verus! {

impl Clone for Queue {
    fn clone(&self) -> (r: Queue)
        ensures
            r@ == self@,
    {
        self.duplicate()
    }
}

impl From<QueueContent> for Queue {
    /// An enabled node with the given content.
    fn from(value: QueueContent) -> (r: Queue) {
        Queue { enabled: true, content: value }
    }
}

impl vstd::std_specs::convert::FromSpecImpl<QueueContent> for Queue {
    open spec fn obeys_from_spec() -> bool {
        true
    }

    closed spec fn from_spec(v: QueueContent) -> Queue {
        Queue { enabled: true, content: v }
    }
}

impl View for Queue {
    type V = QueueV;

    closed spec fn view(&self) -> QueueV {
        queue_view(*self)
    }
}

/// Views of all nodes of `v`, in order.
pub closed spec fn children_view(v: Vec<Queue>) -> Seq<QueueV> {
    queues_view(v, v.len() as nat)
}

proof fn lemma_queues_view(v: Vec<Queue>, n: nat)
    requires
        n <= v.len(),
    ensures
        queues_view(v, n).len() == n,
        forall|i: int| 0 <= i < n ==> #[trigger] queues_view(v, n)[i] == queue_view(v@[i]),
    decreases n,
{
    if n > 0 {
        lemma_queues_view(v, (n - 1) as nat);
    }
}

pub proof fn lemma_children_view(v: Vec<Queue>)
    ensures
        children_view(v).len() == v.len(),
        forall|i: int| 0 <= i < v.len() ==> #[trigger] children_view(v)[i] == v@[i]@,
{
    lemma_queues_view(v, v.len() as nat);
}

} // verus!

verus! {

/// An action that a queue walk asks its host to carry out afterwards.
#[derive(Clone, Debug, PartialEq, Eq)]
pub enum QueueAction {
    /// Add a random song at the end of the random stream at this path.
    AddRandomSong(Vec<usize>),
    /// Give the shuffle at this path a new order and a new first element.
    SetShuffle(Vec<usize>, Vec<usize>, usize),
}

impl View for QueueAction {
    type V = ActionV;

    open spec fn view(&self) -> ActionV {
        match self {
            QueueAction::AddRandomSong(p) => ActionV::AddRandomSong(p@),
            QueueAction::SetShuffle(p, m, n) => ActionV::SetShuffle(p@, m@, *n),
        }
    }
}

pub open spec fn acts_view(v: Seq<QueueAction>) -> Seq<ActionV> {
    v.map_values(|a: QueueAction| a@)
}

/// `new` is `old` followed by actions that fit `shapes`.
pub open spec fn appended(old: Seq<QueueAction>, new: Seq<QueueAction>, shapes: Seq<ActionShape>) -> bool {
    &&& new.len() >= old.len()
    &&& new.subrange(0, old.len() as int) == old
    &&& fits_all(acts_view(new.subrange(old.len() as int, new.len() as int)), shapes)
}

proof fn lemma_appended_none(a: Seq<QueueAction>)
    ensures
        appended(a, a, Seq::empty()),
{
    assert(a.subrange(0, a.len() as int) =~= a);
    assert(acts_view(a.subrange(a.len() as int, a.len() as int)) =~= Seq::empty());
}

proof fn lemma_appended_trans(
    a: Seq<QueueAction>,
    b: Seq<QueueAction>,
    c: Seq<QueueAction>,
    s1: Seq<ActionShape>,
    s2: Seq<ActionShape>,
)
    requires
        appended(a, b, s1),
        appended(b, c, s2),
    ensures
        appended(a, c, s1 + s2),
{
    assert(c.subrange(0, a.len() as int) =~= b.subrange(0, a.len() as int));
    let x = acts_view(c.subrange(a.len() as int, c.len() as int));
    let x1 = acts_view(b.subrange(a.len() as int, b.len() as int));
    let x2 = acts_view(c.subrange(b.len() as int, c.len() as int));
    assert(x =~= x1 + x2);
    assert forall|i: int| 0 <= i < x.len() implies #[trigger] crate::queue_spec::fits(x[i], (s1 + s2)[i]) by {
        if i < x1.len() {
            assert(crate::queue_spec::fits(x1[i], s1[i]));
        } else {
            assert(crate::queue_spec::fits(x2[i - x1.len()], s2[i - x1.len()]));
        }
    }
}

proof fn lemma_appended_push(a: Seq<QueueAction>, x: QueueAction, s: ActionShape)
    requires
        crate::queue_spec::fits(x@, s),
    ensures
        appended(a, a.push(x), seq![s]),
{
    assert(a.push(x).subrange(0, a.len() as int) =~= a);
    assert(acts_view(a.push(x).subrange(a.len() as int, a.len() + 1 as int)) =~= seq![x@]);
}

/// Moves the positions above `e` down by one (see `renumber`).
fn renumber_after(map: &mut Vec<usize>, e: usize)
    ensures
        final(map)@ == renumber(old(map)@, e),
{
    let mut i: usize = 0;
    while i < map.len()
        invariant
            i <= map.len(),
            map@.len() == old(map)@.len(),
            forall|j: int| 0 <= j < i ==> map@[j] == (if old(map)@[j] > e { (old(map)@[j] - 1) as usize } else { old(map)@[j] }),
            forall|j: int| i <= j < map@.len() ==> map@[j] == old(map)@[j],
        decreases map.len() - i,
    {
        let x = map[i];
        if x > e {
            map.set(i, x - 1);
        }
        i += 1;
    }
    assert(map@ =~= renumber(old(map)@, e));
}

/// Asks for the random songs that bring a buffer of `len` nodes up to two.
fn push_top_up(path: &Vec<usize>, len: usize, actions: &mut Vec<QueueAction>)
    ensures
        appended(old(actions)@, final(actions)@, top_up(path@, len as nat)),
{
    let ghost a0 = actions@;
    proof {
        lemma_appended_none(a0);
    }
    if len < 2 {
        actions.push(QueueAction::AddRandomSong(copy_path(path)));
        let ghost a1 = actions@;
        proof {
            lemma_appended_push(a0, a1.last(), ActionShape::AddRandomSong(path@));
            assert(a1 =~= a0.push(a1.last()));
        }
        if len == 0 {
            actions.push(QueueAction::AddRandomSong(copy_path(path)));
            proof {
                lemma_appended_push(a1, actions@.last(), ActionShape::AddRandomSong(path@));
                assert(actions@ =~= a1.push(actions@.last()));
                lemma_appended_trans(a0, a1, actions@, seq![ActionShape::AddRandomSong(path@)], seq![ActionShape::AddRandomSong(path@)]);
                assert(seq![ActionShape::AddRandomSong(path@)] + seq![ActionShape::AddRandomSong(path@)] =~= top_up(path@, 0));
            }
        }
    }
}

fn copy_path(p: &Vec<usize>) -> (r: Vec<usize>)
    ensures
        r@ == p@,
{
    let r = p.clone();
    assert(r@ =~= p@);
    r
}

fn path_push(p: &Vec<usize>, i: usize) -> (r: Vec<usize>)
    ensures
        r@ == p@.push(i),
{
    let mut r = copy_path(p);
    r.push(i);
    r
}

/// What the view of each kind of content is.
pub proof fn lemma_content_view(c: QueueContent)
    ensures
        c matches QueueContent::Song(id) ==> content_view(c) == ContentV::Song(id),
        c matches QueueContent::Folder(i, v, n) ==> content_view(c) == ContentV::Folder(i, children_view(v), n@),
        c matches QueueContent::Loop(t, k, inner) ==> content_view(c) == ContentV::Loop(t, k, Box::new(inner@)),
        c matches QueueContent::Random(v) ==> content_view(c) == ContentV::Random(children_view(v)),
        c matches QueueContent::Shuffle(k, m, v, n) ==> content_view(c) == ContentV::Shuffle(k, m@, children_view(v), n),
{
}

/// The id an optional reference points to.
pub open spec fn opt_id(o: Option<&u64>) -> Option<u64> {
    match o {
        Some(x) => Some(*x),
        None => None,
    }
}

/// The view of an optional owned node.
pub open spec fn opt_view_owned(o: Option<Queue>) -> Option<QueueV> {
    match o {
        Some(q) => Some(q@),
        None => None,
    }
}

/// The view of an optional borrowed node.
pub open spec fn opt_view(o: Option<&Queue>) -> Option<QueueV> {
    match o {
        Some(q) => Some(q@),
        None => None,
    }
}

impl Queue {
    /// An enabled node with the given content.
    pub fn new(content: QueueContent) -> (r: Queue)
        ensures
            r@ == (QueueV { enabled: true, content: content_view(content) }),
    {
        Queue { enabled: true, content }
    }

    /// Gives a shuffle node a new order and a new first element for its next round;
    /// other nodes stay as they are.
    pub fn set_shuffle(&mut self, map: Vec<usize>, next: usize)
        ensures
            final(self)@ == (match old(self)@.content {
                ContentV::Shuffle(cur, _, elems, _) => QueueV {
                    content: ContentV::Shuffle(cur, map@, elems, next),
                    ..old(self)@
                },
                _ => old(self)@,
            }),
    {
        proof {
            lemma_content_children(self.content);
        }
        match &mut self.content {
            QueueContent::Shuffle(_, m, _, n) => {
                *m = map;
                *n = next;
            },
            _ => {},
        }
    }

    pub fn enabled(&self) -> (r: bool)
        ensures
            r == self@.enabled,
    {
        self.enabled
    }

    pub fn content(&self) -> (r: &QueueContent)
        ensures
            content_view(*r) == self@.content,
    {
        &self.content
    }

    pub fn content_mut(&mut self) -> (r: &mut QueueContent)
        ensures
            content_view(*r) == old(self)@.content,
            final(self)@ == (QueueV { enabled: old(self)@.enabled, content: content_view(*final(r)) }),
    {
        &mut self.content
    }

    /// The first node this one would play when started over.
    pub fn get_first(&self) -> (r: Option<&Queue>)
        ensures
            opt_view(r) == first(self@),
        decreases self,
    {
        proof {
            lemma_content_children(self.content);
        }
        match &self.content {
            QueueContent::Song(..) => Some(self),
            QueueContent::Folder(_, v, _) => if v.len() > 0 { Some(&v[0]) } else { None },
            QueueContent::Loop(_, _, q) => q.get_first(),
            QueueContent::Random(q) => if q.len() > 0 { Some(&q[0]) } else { None },
            QueueContent::Shuffle(i, _, v, next) => {
                if *i == 0 {
                    if v.len() > 0 { Some(&v[0]) } else { None }
                } else {
                    if *next < v.len() { Some(&v[*next]) } else { None }
                }
            },
        }
    }

    /// The node that plays after the current one.
    pub fn get_next(&self) -> (r: Option<&Queue>)
        ensures
            opt_view(r) == next(self@),
        decreases self,
    {
        proof {
            lemma_content_children(self.content);
        }
        match &self.content {
            QueueContent::Song(_) => None,
            QueueContent::Folder(i, vec, _) => {
                let i = *i;
                if i < vec.len() {
                    if let Some(v) = vec[i].get_next() {
                        Some(v)
                    } else if i + 1 < vec.len() {
                        vec[i + 1].get_current()
                    } else {
                        None
                    }
                } else {
                    None
                }
            },
            QueueContent::Loop(total, current, inner) => {
                if let Some(v) = inner.get_next() {
                    Some(v)
                } else if *total == 0 || (*current < *total && *current + 1 < *total) {
                    inner.get_first()
                } else {
                    None
                }
            },
            QueueContent::Random(v) => {
                let i = if v.len() >= 1 { v.len() - 1 } else { 0 };
                if i < v.len() {
                    v[i].get_current()
                } else {
                    None
                }
            },
            QueueContent::Shuffle(i, map, elems, _) => {
                if *i < map.len() && *i + 1 < map.len() && map[*i + 1] < elems.len() {
                    Some(&elems[map[*i + 1]])
                } else {
                    None
                }
            },
        }
    }

    /// The id of the song that is playing now.
    pub fn get_current_song(&self) -> (r: Option<&u64>)
        ensures
            opt_id(r) == (match current(self@) {
                Some(n) => match n.content {
                    ContentV::Song(id) => Some(id),
                    _ => None,
                },
                None => None,
            }),
    {
        match self.get_current() {
            Some(q) => match &q.content {
                QueueContent::Song(id) => Some(id),
                _ => None,
            },
            None => None,
        }
    }

    /// The id of the song that plays next.
    pub fn get_next_song(&self) -> (r: Option<&u64>)
        ensures
            opt_id(r) == (match next(self@) {
                Some(n) => match n.content {
                    ContentV::Song(id) => Some(id),
                    _ => None,
                },
                None => None,
            }),
    {
        match self.get_next() {
            Some(q) => match &q.content {
                QueueContent::Song(id) => Some(id),
                _ => None,
            },
            None => None,
        }
    }

    /// Appends `v` to a folder, random stream or shuffle; returns its position.
    pub fn add_to_end(&mut self, v: Queue) -> (r: Option<usize>)
        ensures
            final(self)@ == add_to_end_spec(old(self)@, v@).0,
            r matches Some(p) ==> add_to_end_spec(old(self)@, v@).1 == Some(p as int),
            r is None ==> add_to_end_spec(old(self)@, v@).1 is None,
    {
        let ghost vv = v@;
        proof {
            lemma_content_children(self.content);
        }
        match &mut self.content {
            QueueContent::Song(_) => None,
            QueueContent::Folder(_, vec, _) => {
                let ghost before = *vec;
                vec.push(v);
                proof {
                    lemma_push_view(before, *vec, vv);
                }
                Some(vec.len() - 1)
            },
            QueueContent::Loop(..) => None,
            QueueContent::Random(q) => {
                let ghost before = *q;
                q.push(v);
                proof {
                    lemma_push_view(before, *q, vv);
                }
                Some(q.len() - 1)
            },
            QueueContent::Shuffle(_, map, elems, _) => {
                map.push(elems.len());
                let ghost before = *elems;
                elems.push(v);
                proof {
                    lemma_push_view(before, *elems, vv);
                }
                Some(map.len() - 1)
            },
        }
    }

    /// Inserts `v` at position `index` of a folder or shuffle; a folder keeps its
    /// cursor on the node that was playing.
    pub fn insert(&mut self, v: Queue, index: usize) -> (r: bool)
        ensures
            (final(self)@, r) == insert_spec(old(self)@, v@, index as int),
    {
        let ghost vv = v@;
        proof {
            lemma_content_children(self.content);
        }
        match &mut self.content {
            QueueContent::Song(_) => false,
            QueueContent::Folder(current, vec, _) => {
                if index <= vec.len() {
                    if *current >= index && *current < usize::MAX {
                        *current += 1;
                    }
                    let ghost before = *vec;
                    vec.insert(index, v);
                    proof {
                        lemma_children_view(before);
                        lemma_children_view(*vec);
                        assert(children_view(*vec) =~= children_view(before).insert(index as int, vv));
                    }
                    true
                } else {
                    false
                }
            },
            QueueContent::Shuffle(_, map, elems, _) => {
                if index <= map.len() {
                    map.insert(index, elems.len());
                    let ghost before = *elems;
                    elems.push(v);
                    proof {
                        lemma_push_view(before, *elems, vv);
                    }
                    true
                } else {
                    false
                }
            },
            QueueContent::Loop(..) | QueueContent::Random(..) => false,
        }
    }

    /// The node that `index` leads to, read from position `depth` on.
    pub fn get_item_at_index(&self, index: &Vec<usize>, depth: usize) -> (r: Option<&Queue>)
        ensures
            opt_view(r) == item_at(self@, index@, depth as int),
        decreases self,
    {
        proof {
            lemma_content_children(self.content);
        }
        if depth < index.len() {
            let i = index[depth];
            match &self.content {
                QueueContent::Song(_) => None,
                QueueContent::Folder(_, v, _) => {
                    if i < v.len() {
                        v[i].get_item_at_index(index, depth + 1)
                    } else {
                        None
                    }
                },
                QueueContent::Loop(_, _, inner) => inner.get_item_at_index(index, depth + 1),
                QueueContent::Random(v) => {
                    if i < v.len() {
                        v[i].get_item_at_index(index, depth + 1)
                    } else {
                        None
                    }
                },
                QueueContent::Shuffle(_, map, elems, _) => {
                    if i < map.len() && map[i] < elems.len() {
                        elems[map[i]].get_item_at_index(index, depth + 1)
                    } else {
                        None
                    }
                },
            }
        } else {
            Some(self)
        }
    }

    /// Removes the node that `index` leads to (from position `depth` on) and returns it.
    pub fn remove_by_index(&mut self, index: &Vec<usize>, depth: usize) -> (r: Option<Queue>)
        ensures
            final(self)@ == remove_spec(old(self)@, index@, depth as int).0,
            opt_view_owned(r) == remove_spec(old(self)@, index@, depth as int).1,
        decreases index.len() - depth,
    {
        proof {
            lemma_content_children(self.content);
        }
        if depth < index.len() {
            let i = index[depth];
            match &mut self.content {
                QueueContent::Song(_) => None,
                QueueContent::Folder(ci, v, _) => {
                    if depth + 1 < index.len() {
                        if i < v.len() {
                            let ghost before = *v;
                            let c = &mut v[i];
                            let r = c.remove_by_index(index, depth + 1);
                            proof {
                                lemma_children_view(before);
                                lemma_children_view(*v);
                                assert(children_view(*v) =~= children_view(before).update(i as int, v@[i as int]@));
                            }
                            r
                        } else {
                            None
                        }
                    } else {
                        if i < v.len() {
                            if *ci > i {
                                *ci -= 1;
                            }
                            let ghost before = *v;
                            let r = v.remove(i);
                            proof {
                                lemma_children_view(before);
                                lemma_children_view(*v);
                                assert(children_view(*v) =~= children_view(before).remove(i as int));
                            }
                            Some(r)
                        } else {
                            None
                        }
                    }
                },
                QueueContent::Loop(_, _, inner) => {
                    if depth + 1 < index.len() {
                        inner.remove_by_index(index, depth + 1)
                    } else {
                        None
                    }
                },
                QueueContent::Random(v) => {
                    if i < v.len() {
                        let ghost before = *v;
                        let r = v.remove(i);
                        proof {
                            lemma_children_view(before);
                            lemma_children_view(*v);
                            assert(children_view(*v) =~= children_view(before).remove(i as int));
                        }
                        Some(r)
                    } else {
                        None
                    }
                },
                QueueContent::Shuffle(current, map, elems, next) => {
                    if i < *current {
                        *current -= 1;
                    }
                    if i < *next {
                        *next -= 1;
                    }
                    if i < map.len() {
                        let elem = map.remove(i);
                        if elem < elems.len() {
                            renumber_after(map, elem);
                            let ghost before = *elems;
                            let r = elems.remove(elem);
                            proof {
                                lemma_children_view(before);
                                lemma_children_view(*elems);
                                assert(children_view(*elems) =~= children_view(before).remove(elem as int));
                            }
                            Some(r)
                        } else {
                            None
                        }
                    } else {
                        None
                    }
                },
            }
        } else {
            None
        }
    }

    /// Asks for what this node needs when it becomes current: a random stream
    /// tops up its buffer, a shuffle draws a new order.
    pub fn init(&mut self, path: Vec<usize>, actions: &mut Vec<QueueAction>)
        ensures
            final(self)@ == old(self)@,
            appended(old(actions)@, final(actions)@, init_shapes(old(self)@, path@)),
    {
        self.init_at(path, actions)
    }

    fn init_at(&self, path: Vec<usize>, actions: &mut Vec<QueueAction>)
        ensures
            appended(old(actions)@, final(actions)@, init_shapes(self@, path@)),
        decreases self,
    {
        proof {
            lemma_content_children(self.content);
            lemma_appended_none(actions@);
        }
        match &self.content {
            QueueContent::Song(..) => {},
            QueueContent::Folder(_, v, _) => {
                if v.len() > 0 {
                    v[0].init_at(path, actions);
                }
            },
            QueueContent::Loop(_, _, inner) => inner.init_at(path, actions),
            QueueContent::Random(q) => {
                let ghost a0 = actions@;
                push_top_up(&path, q.len(), actions);
                let ghost a1 = actions@;
                if q.len() > 0 {
                    let i = if q.len() >= 2 { q.len() - 2 } else { 0 };
                    q[i].init_at(path, actions);
                    proof {
                        lemma_appended_trans(a0, a1, actions@, top_up(path@, q.len() as nat), init_shapes(q@[i as int]@, path@));
                    }
                } else {
                    proof {
                        assert(top_up(path@, 0) + Seq::<ActionShape>::empty() =~= top_up(path@, 0));
                    }
                }
            },
            QueueContent::Shuffle(_, _, elems, next) => {
                let n = elems.len();
                let mut new_map: Vec<usize> = Vec::new();
                let mut k: usize = 0;
                while k < n
                    invariant
                        k <= n,
                        new_map@ == others(k as nat, *next),
                    decreases n - k,
                {
                    if k != *next {
                        new_map.push(k);
                    }
                    k += 1;
                }
                let ghost unshuffled = new_map@;
                shuffle_indices(&mut new_map);
                let ghost sh = new_map@;
                proof {
                    lemma_others_len(n as nat, *next);
                }
                if new_map.len() > 0 {
                    let was_first = new_map[0];
                    new_map.set(0, *next);
                    new_map.push(was_first);
                    proof {
                        lemma_rotate_multiset(sh);
                        assert(new_map@.drop_first() =~= sh.drop_first().push(sh[0]));
                    }
                } else if *next < n {
                    new_map.push(*next);
                    proof {
                        assert(new_map@.drop_first() =~= Seq::<usize>::empty());
                        assert(unshuffled =~= Seq::<usize>::empty());
                    }
                }
                let new_next = if n == 0 { 0 } else { random_below(n) };
                proof {
                    if n > 0 {
                        assert(shuffle_ok(n as nat, *next, new_map@, new_next));
                    } else {
                        assert(shuffle_ok(n as nat, *next, new_map@, new_next));
                    }
                }
                let ghost a0 = actions@;
                let ghost p = path@;
                actions.push(QueueAction::SetShuffle(path, new_map, new_next));
                proof {
                    lemma_appended_push(a0, actions@.last(), ActionShape::SetShuffle(p, n as nat, *next));
                    assert(actions@ =~= a0.push(actions@.last()));
                }
            },
        }
    }

    /// Moves the cursors along `index` (from `depth` on) to the node it names, and
    /// lets each newly selected node start; `build_index` is the path walked so far.
    pub fn set_index_inner(
        &mut self,
        index: &Vec<usize>,
        depth: usize,
        build_index: Vec<usize>,
        actions: &mut Vec<QueueAction>,
    )
        ensures
            final(self)@ == set_index(old(self)@, index@, depth as int, build_index@).0,
            appended(old(actions)@, final(actions)@, set_index(old(self)@, index@, depth as int, build_index@).1),
        decreases index.len() - depth,
    {
        proof {
            lemma_content_children(self.content);
            lemma_appended_none(actions@);
        }
        let ghost a0 = actions@;
        if depth >= index.len() {
            return;
        }
        let i = index[depth];
        let mut build_index = build_index;
        build_index.push(i);
        match &mut self.content {
            QueueContent::Song(_) => {},
            QueueContent::Folder(idx, contents, _) => {
                *idx = i;
                if i < contents.len() {
                    let ghost before = *contents;
                    contents[i].init_at(copy_path(&build_index), actions);
                    let ghost a1 = actions@;
                    contents[i].set_index_inner(index, depth + 1, build_index, actions);
                    proof {
                        lemma_children_view(before);
                        lemma_children_view(*contents);
                        assert(children_view(*contents) =~= children_view(before).update(i as int, contents@[i as int]@));
                        lemma_appended_trans(a0, a1, actions@, init_shapes(before@[i as int]@, build_index@), set_index(before@[i as int]@, index@, depth + 1, build_index@).1);
                    }
                }
            },
            QueueContent::Loop(_, _, inner) => {
                inner.init_at(copy_path(&build_index), actions);
                let ghost a1 = actions@;
                let ghost inner0 = (**inner)@;
                inner.set_index_inner(index, depth + 1, build_index, actions);
                proof {
                    lemma_appended_trans(a0, a1, actions@, init_shapes(inner0, build_index@), set_index(inner0, index@, depth + 1, build_index@).1);
                }
            },
            QueueContent::Random(_) => {},
            QueueContent::Shuffle(current, map, elems, _) => {
                *current = i;
                if i < map.len() && map[i] < elems.len() {
                    let m = map[i];
                    let ghost before = *elems;
                    elems[m].init_at(copy_path(&build_index), actions);
                    let ghost a1 = actions@;
                    elems[m].set_index_inner(index, depth + 1, build_index, actions);
                    proof {
                        lemma_children_view(before);
                        lemma_children_view(*elems);
                        assert(children_view(*elems) =~= children_view(before).update(m as int, elems@[m as int]@));
                        lemma_appended_trans(a0, a1, actions@, init_shapes(before@[m as int]@, build_index@), set_index(before@[m as int]@, index@, depth + 1, build_index@).1);
                    }
                }
            },
        }
    }

    /// The node that `index` leads to (from `depth` on), to change it in place.
    pub fn get_item_at_index_mut(&mut self, index: &Vec<usize>, depth: usize) -> (r: Option<&mut Queue>)
        ensures
            match r {
                Some(x) => Some((*x)@) == item_at(old(self)@, index@, depth as int)
                    && final(self)@ == replace_at(old(self)@, index@, depth as int, (*final(x))@),
                None => item_at(old(self)@, index@, depth as int) is None && final(self)@ == old(self)@,
            },
        decreases index.len() - depth,
    {
        proof {
            lemma_content_children(self.content);
        }
        if depth < index.len() {
            let i = index[depth];
            match &mut self.content {
                QueueContent::Song(_) => None,
                QueueContent::Folder(_, v, _) => {
                    if i < v.len() {
                        let ghost before = *v;
                        let ghost after = *final(v);
                        let e = &mut v[i];
                        proof {
                            lemma_update_view(before, after, i as int, *final(e));
                        }
                        e.get_item_at_index_mut(index, depth + 1)
                    } else {
                        None
                    }
                },
                QueueContent::Loop(_, _, inner) => inner.get_item_at_index_mut(index, depth + 1),
                QueueContent::Random(v) => {
                    if i < v.len() {
                        let ghost before = *v;
                        let ghost after = *final(v);
                        let e = &mut v[i];
                        proof {
                            lemma_update_view(before, after, i as int, *final(e));
                        }
                        e.get_item_at_index_mut(index, depth + 1)
                    } else {
                        None
                    }
                },
                QueueContent::Shuffle(_, map, elems, _) => {
                    if i < map.len() && map[i] < elems.len() {
                        let m = map[i];
                        let ghost before = *elems;
                        let ghost after = *final(elems);
                        let e = &mut elems[m];
                        proof {
                            lemma_update_view(before, after, m as int, *final(e));
                        }
                        e.get_item_at_index_mut(index, depth + 1)
                    } else {
                        None
                    }
                },
            }
        } else {
            Some(self)
        }
    }

    /// Moves playback one song forward (see `advance`); the actions it needs go to `actions`.
    pub fn advance_index(&mut self, actions: &mut Vec<QueueAction>) -> (r: bool)
        ensures
            final(self)@ == advance(old(self)@, Seq::empty()).0,
            r == advance(old(self)@, Seq::empty()).1,
            appended(old(actions)@, final(actions)@, advance(old(self)@, Seq::empty()).2),
    {
        let path: Vec<usize> = Vec::new();
        proof {
            assert(path@ =~= Seq::<usize>::empty());
        }
        self.advance_index_inner(path, actions)
    }

    /// Moves the node at `path` one song forward (see `advance`).
    pub fn advance_index_inner(&mut self, path: Vec<usize>, actions: &mut Vec<QueueAction>) -> (r: bool)
        ensures
            final(self)@ == advance(old(self)@, path@).0,
            r == advance(old(self)@, path@).1,
            appended(old(actions)@, final(actions)@, advance(old(self)@, path@).2),
        decreases old(self)@,
    {
        proof {
            lemma_content_children(self.content);
            lemma_children_smaller(*self);
            lemma_appended_none(actions@);
        }
        let ghost a0 = actions@;
        let ghost en = self.enabled;
        match &mut self.content {
            QueueContent::Song(_) => false,
            QueueContent::Folder(index, contents, name) => {
                advance_folder(index, contents, Ghost(en), Ghost(name@), path, actions)
            },
            QueueContent::Loop(total, current, inner) => {
                let p = path_push(&path, 0);
                let ghost inner0 = (**inner)@;
                let adv = inner.advance_index_inner(p, actions);
                let ghost a1 = actions@;
                if adv {
                    true
                } else {
                    if *current < usize::MAX {
                        *current += 1;
                    }
                    if *total == 0 || *current < *total {
                        inner.init_at(path, actions);
                        proof {
                            lemma_appended_trans(a0, a1, actions@, advance(inner0, p@).2, init_shapes(inner@, path@));
                        }
                        true
                    } else {
                        *current = 0;
                        false
                    }
                }
            },
            QueueContent::Random(q) => advance_random(q, Ghost(en), path, actions),
            QueueContent::Shuffle(current, map, elems, nx) => {
                advance_shuffle(current, map, elems, Ghost(en), Ghost(*nx), path, actions)
            },
        }
    }


    /// Number of songs the node plays (see `qlen`).
    pub fn len(&self) -> (r: usize)
        requires
            qlen(self@) <= usize::MAX,
        ensures
            r == qlen(self@),
        decreases self,
    {
        proof {
            reveal_with_fuel(qlen, 2);
        }
        if !self.enabled {
            return 0;
        }
        match &self.content {
            QueueContent::Song(_) => 1,
            QueueContent::Folder(_, v, _) => sum_len(v),
            QueueContent::Random(v) => sum_len(v),
            QueueContent::Shuffle(_, _, v, _) => sum_len(v),
            QueueContent::Loop(total, _done, inner) => {
                if *total == 0 {
                    inner.len()
                } else {
                    proof {
                        vstd::arithmetic::mul::lemma_mul_inequality(1, *total as int, qlen(inner@) as int);
                    }
                    let l = inner.len();
                    *total * l
                }
            },
        }
    }

    /// Recursively descends to the node that is playing now.
    pub fn get_current(&self) -> (r: Option<&Queue>)
        ensures
            opt_view(r) == current(self@),
        decreases self,
    {
        proof {
            lemma_content_children(self.content);
        }
        match &self.content {
            QueueContent::Song(_) => Some(self),
            QueueContent::Folder(i, v, _) => {
                if *i < v.len() {
                    v[*i].get_current()
                } else {
                    None
                }
            },
            QueueContent::Loop(_, _, inner) => inner.get_current(),
            QueueContent::Random(v) => {
                let i = if v.len() >= 2 { v.len() - 2 } else { 0 };
                if i < v.len() {
                    v[i].get_current()
                } else {
                    None
                }
            },
            QueueContent::Shuffle(i, map, elems, _) => {
                if *i < map.len() && map[*i] < elems.len() {
                    elems[map[*i]].get_current()
                } else {
                    None
                }
            },
        }
    }
}

fn advance_folder(
    index: &mut usize,
    contents: &mut Vec<Queue>,
    Ghost(en): Ghost<bool>,
    Ghost(name): Ghost<Seq<char>>,
    path: Vec<usize>,
    actions: &mut Vec<QueueAction>,
) -> (r: bool)
    ensures
        ({
            let q = QueueV { enabled: en, content: ContentV::Folder(*old(index), children_view(*old(contents)), name) };
            let res = advance(q, path@);
            &&& res.0 == QueueV { enabled: en, content: ContentV::Folder(*final(index), children_view(*final(contents)), name) }
            &&& r == res.1
            &&& appended(old(actions)@, final(actions)@, res.2)
        }),
    decreases children_view(*old(contents)),
{
    let ghost a0 = actions@;
    let ghost i0 = *index;
    let ghost before = *contents;
    proof {
        lemma_children_view(before);
        lemma_appended_none(actions@);
    }
    if *index < contents.len() {
        let p = path_push(&path, *index);
        let adv = contents[*index].advance_index_inner(p, actions);
        let ghost a1 = actions@;
        proof {
            lemma_children_view(*contents);
            assert(children_view(*contents) =~= children_view(before).update(i0 as int, contents@[i0 as int]@));
        }
        if adv {
            true
        } else {
            match find_enabled(contents, *index + 1) {
                Some(j) => {
                    *index = j;
                    contents[j].init_at(path, actions);
                    proof {
                        lemma_appended_trans(a0, a1, actions@, advance(children_view(before)[i0 as int], p@).2, init_shapes(contents@[j as int]@, path@));
                    }
                    true
                },
                None => {
                    *index = 0;
                    false
                },
            }
        }
    } else {
        *index = 0;
        false
    }
}

fn advance_random(
    q: &mut Vec<Queue>,
    Ghost(en): Ghost<bool>,
    path: Vec<usize>,
    actions: &mut Vec<QueueAction>,
) -> (r: bool)
    ensures
        ({
            let res = advance(QueueV { enabled: en, content: ContentV::Random(children_view(*old(q))) }, path@);
            &&& res.0 == QueueV { enabled: en, content: ContentV::Random(children_view(*final(q))) }
            &&& r == res.1
            &&& appended(old(actions)@, final(actions)@, res.2)
        }),
    decreases children_view(*old(q)),
{
    let ghost a0 = actions@;
    let ghost before = *q;
    proof {
        lemma_children_view(before);
        lemma_appended_none(actions@);
    }
    let i = if q.len() >= 2 { q.len() - 2 } else { 0 };
    let adv = if i < q.len() {
        let p = path_push(&path, i);
        let adv = q[i].advance_index_inner(p, actions);
        proof {
            lemma_children_view(*q);
            assert(children_view(*q) =~= children_view(before).update(i as int, q@[i as int]@));
        }
        adv
    } else {
        false
    };
    let ghost a1 = actions@;
    if adv {
        push_top_up(&path, q.len(), actions);
        proof {
            let s1 = advance(children_view(before)[i as int], path@.push(i)).2;
            lemma_appended_trans(a0, a1, actions@, s1, top_up(path@, q.len() as nat));
        }
        true
    } else {
        if q.len() >= 2 {
            let ghost mid = *q;
            q.remove(0);
            proof {
                lemma_children_view(mid);
                lemma_children_view(*q);
                assert(children_view(*q) =~= children_view(mid).drop_first());
            }
        }
        proof {
            lemma_children_view(*q);
        }
        let i2 = if q.len() >= 1 { q.len() - 1 } else { 0 };
        if i2 < q.len() {
            let p = path_push(&path, i2);
            q[i2].init_at(p, actions);
        }
        let ghost a2 = actions@;
        let ghost s2 = if i2 < q.len() { init_shapes(children_view(*q)[i2 as int], path@.push(i2)) } else { Seq::<ActionShape>::empty() };
        actions.push(QueueAction::AddRandomSong(path));
        proof {
            if i2 >= q.len() {
                lemma_appended_none(a2);
            }
            lemma_appended_push(a2, actions@.last(), ActionShape::AddRandomSong(path@));
            assert(actions@ =~= a2.push(actions@.last()));
            let s1 = if i < before.len() { advance(children_view(before)[i as int], path@.push(i)).2 } else { Seq::<ActionShape>::empty() };
            lemma_appended_trans(a0, a1, a2, s1, s2);
            lemma_appended_trans(a0, a2, actions@, s1 + s2, seq![ActionShape::AddRandomSong(path@)]);
        }
        false
    }
}

fn advance_shuffle(
    current: &mut usize,
    map: &mut Vec<usize>,
    elems: &mut Vec<Queue>,
    Ghost(en): Ghost<bool>,
    Ghost(nx): Ghost<usize>,
    path: Vec<usize>,
    actions: &mut Vec<QueueAction>,
) -> (r: bool)
    ensures
        ({
            let q = QueueV { enabled: en, content: ContentV::Shuffle(*old(current), old(map)@, children_view(*old(elems)), nx) };
            let res = advance(q, path@);
            &&& res.0 == QueueV { enabled: en, content: ContentV::Shuffle(*final(current), final(map)@, children_view(*final(elems)), nx) }
            &&& r == res.1
            &&& appended(old(actions)@, final(actions)@, res.2)
        }),
    decreases children_view(*old(elems)),
{
    let ghost a0 = actions@;
    let ghost before = *elems;
    let ghost c0 = *current;
    proof {
        lemma_children_view(before);
        lemma_appended_none(actions@);
    }
    let adv = if *current < map.len() && map[*current] < elems.len() {
        let p = path_push(&path, *current);
        let m = map[*current];
        let adv = elems[m].advance_index_inner(p, actions);
        proof {
            lemma_children_view(*elems);
            assert(children_view(*elems) =~= children_view(before).update(m as int, elems@[m as int]@));
        }
        adv
    } else {
        false
    };
    let ghost a1 = actions@;
    if adv {
        true
    } else if *current < map.len() && *current + 1 < map.len() {
        *current += 1;
        proof {
            lemma_children_view(*elems);
            lemma_appended_none(a1);
        }
        if map[*current] < elems.len() {
            elems[map[*current]].init_at(path, actions);
        }
        proof {
            let s1 = if c0 < map.len() && map@[c0 as int] < before.len() {
                advance(children_view(before)[map@[c0 as int] as int], path@.push(c0)).2
            } else {
                Seq::<ActionShape>::empty()
            };
            let s2 = if map@[c0 + 1] < elems.len() {
                init_shapes(children_view(*elems)[map@[c0 + 1] as int], path@)
            } else {
                Seq::<ActionShape>::empty()
            };
            lemma_appended_trans(a0, a1, actions@, s1, s2);
        }
        true
    } else {
        *current = 0;
        false
    }
}

/// Position of the first enabled node of `v` at or after `from`.
fn find_enabled(v: &Vec<Queue>, from: usize) -> (r: Option<usize>)
    ensures
        match r {
            Some(j) => next_enabled(children_view(*v), from as int) == Some(j as int),
            None => next_enabled(children_view(*v), from as int) is None,
        },
        r matches Some(j) ==> j < v.len(),
{
    proof {
        lemma_children_view(*v);
    }
    let mut j = from;
    while j < v.len()
        invariant
            from <= j,
            next_enabled(children_view(*v), from as int) == next_enabled(children_view(*v), j as int),
            children_view(*v).len() == v.len(),
            forall|i: int| 0 <= i < v.len() ==> #[trigger] children_view(*v)[i] == v@[i]@,
        decreases v.len() - j,
    {
        if v[j].enabled {
            return Some(j);
        }
        j += 1;
    }
    None
}

/// Sum of the lengths of `v`'s nodes.
fn sum_len(v: &Vec<Queue>) -> (r: usize)
    requires
        qlen_sum(children_view(*v)) <= usize::MAX,
    ensures
        r == qlen_sum(children_view(*v)),
    decreases *v, 0nat,
{
    let ghost s = children_view(*v);
    proof {
        lemma_children_view(*v);
        assert(s.subrange(0, 0) =~= Seq::<QueueV>::empty());
    }
    let mut total: usize = 0;
    let mut i: usize = 0;
    while i < v.len()
        invariant
            i <= v.len(),
            s == children_view(*v),
            s.len() == v.len(),
            forall|j: int| 0 <= j < v.len() ==> #[trigger] s[j] == v@[j]@,
            qlen_sum(s) <= usize::MAX,
            total == qlen_sum(s.subrange(0, i as int)),
        decreases v.len() - i,
    {
        proof {
            lemma_qlen_sum_prefix(s, i as int);
        }
        let l = v[i].len();
        total = total + l;
        i = i + 1;
    }
    proof {
        assert(s.subrange(0, i as int) =~= s);
    }
    total
}

proof fn lemma_children_smaller(q: Queue)
    ensures
        q.content matches QueueContent::Folder(_, v, _) ==> forall|i: int|
            0 <= i < v.len() ==> decreases_to!(q@ => #[trigger] children_view(v)[i]),
        q.content matches QueueContent::Random(v) ==> forall|i: int|
            0 <= i < v.len() ==> decreases_to!(q@ => #[trigger] children_view(v)[i]),
        q.content matches QueueContent::Shuffle(_, _, v, _) ==> forall|i: int|
            0 <= i < v.len() ==> decreases_to!(q@ => #[trigger] children_view(v)[i]),
        q.content matches QueueContent::Loop(_, _, inner) ==> decreases_to!(q@ => inner@),
        q.content matches QueueContent::Folder(_, v, _) ==> decreases_to!(q@ => children_view(v)),
        q.content matches QueueContent::Random(v) ==> decreases_to!(q@ => children_view(v)),
        q.content matches QueueContent::Shuffle(_, _, v, _) ==> decreases_to!(q@ => children_view(v)),
{
    lemma_content_children(q.content);
    let qv = q@;
    assert(decreases_to!(qv => qv.content));
    assert(decreases_to!(qv => qv.content));
    match q.content {
        QueueContent::Folder(_, v, _) => {
            let s = children_view(v);
            assert(qv.content matches ContentV::Folder(_, s2, _) && s2 == s);
            assert(decreases_to!(qv.content => s));
            assert(decreases_to!(qv => s));
            assert forall|i: int| 0 <= i < v.len() implies decreases_to!(qv => #[trigger] s[i]) by {
                assert(decreases_to!(s => s[i]));
            }
        },
        QueueContent::Random(v) => {
            let s = children_view(v);
            assert(qv.content matches ContentV::Random(s2) && s2 == s);
            assert(decreases_to!(qv.content => s));
            assert(decreases_to!(qv => s));
            assert forall|i: int| 0 <= i < v.len() implies decreases_to!(qv => #[trigger] s[i]) by {
                assert(decreases_to!(s => s[i]));
            }
        },
        QueueContent::Shuffle(_, _, v, _) => {
            let s = children_view(v);
            assert(qv.content matches ContentV::Shuffle(_, _, s2, _) && s2 == s);
            assert(decreases_to!(qv.content => s));
            assert(decreases_to!(qv => s));
            assert forall|i: int| 0 <= i < v.len() implies decreases_to!(qv => #[trigger] s[i]) by {
                assert(decreases_to!(s => s[i]));
            }
        },
        QueueContent::Loop(_, _, inner) => {
            assert(qv.content matches ContentV::Loop(_, _, b) && *b == inner@);
            if let ContentV::Loop(_, _, b) = qv.content {
                assert(decreases_to!(qv.content => *b));
            }
        },
        _ => {},
    }
}

proof fn lemma_rotate_multiset(s: Seq<usize>)
    requires
        s.len() > 0,
    ensures
        s.drop_first().push(s[0]).to_multiset() == s.to_multiset(),
{
    vstd::seq_lib::lemma_multiset_commutative(s.drop_first(), seq![s[0]]);
    vstd::seq_lib::lemma_multiset_commutative(seq![s[0]], s.drop_first());
    assert(s.drop_first().push(s[0]) =~= s.drop_first() + seq![s[0]]);
    assert(s =~= seq![s[0]] + s.drop_first());
}

proof fn lemma_update_view(a: Vec<Queue>, b: Vec<Queue>, i: int, x: Queue)
    requires
        0 <= i < a.len(),
        b@ == a@.update(i, x),
    ensures
        children_view(b) == children_view(a).update(i, x@),
        x@ == a@[i]@ ==> children_view(b) == children_view(a),
{
    lemma_children_view(a);
    lemma_children_view(b);
    assert(children_view(b) =~= children_view(a).update(i, x@));
    if x@ == a@[i]@ {
        assert(children_view(b) =~= children_view(a));
    }
}

proof fn lemma_push_view(a: Vec<Queue>, b: Vec<Queue>, x: QueueV)
    requires
        exists|q: Queue| b@ == a@.push(q) && q@ == x,
    ensures
        children_view(b) == children_view(a).push(x),
{
    lemma_children_view(a);
    lemma_children_view(b);
    assert(children_view(b) =~= children_view(a).push(x));
}

proof fn lemma_content_children(c: QueueContent)
    ensures
        c matches QueueContent::Folder(_, v, _) ==> children_view(v) == queues_view(v, v.len() as nat)
            && children_view(v).len() == v.len()
            && forall|i: int| 0 <= i < v.len() ==> #[trigger] children_view(v)[i] == v@[i]@,
        c matches QueueContent::Random(v) ==> children_view(v) == queues_view(v, v.len() as nat)
            && children_view(v).len() == v.len()
            && forall|i: int| 0 <= i < v.len() ==> #[trigger] children_view(v)[i] == v@[i]@,
        c matches QueueContent::Shuffle(_, _, v, _) ==> children_view(v) == queues_view(v, v.len() as nat)
            && children_view(v).len() == v.len()
            && forall|i: int| 0 <= i < v.len() ==> #[trigger] children_view(v)[i] == v@[i]@,
{
    match c {
        QueueContent::Folder(_, v, _) => lemma_children_view(v),
        QueueContent::Random(v) => lemma_children_view(v),
        QueueContent::Shuffle(_, _, v, _) => lemma_children_view(v),
        _ => {},
    }
}

} // verus!

verus! {

/// Appends positions as 64-bit integers, after their count.
pub(crate) fn put_usizes(out: &mut Vec<u8>, v: &Vec<usize>)
    ensures
        final(out)@ == old(out)@ + u64s_bytes(usizes_as_u64(v@)),
{
    let mut w: Vec<u64> = Vec::new();
    let mut i: usize = 0;
    while i < v.len()
        invariant
            i <= v.len(),
            w@ == usizes_as_u64(v@.subrange(0, i as int)),
        decreases v.len() - i,
    {
        w.push(v[i] as u64);
        i += 1;
        assert(w@ =~= usizes_as_u64(v@.subrange(0, i as int)));
    }
    assert(v@.subrange(0, i as int) =~= v@);
    crate::codec::put_u64s(out, &w);
}

/// Appends a count and then each node.
fn put_queues(out: &mut Vec<u8>, v: &Vec<Queue>)
    ensures
        final(out)@ == old(out)@ + (le_bytes(v.len() as u64) + queues_bytes(children_view(*v))),
    decreases *v, 0nat,
{
    proof {
        lemma_children_view(*v);
    }
    put_u64(out, v.len() as u64);
    let ghost start = out@;
    let ghost s = children_view(*v);
    let mut i: usize = 0;
    proof {
        assert(s.subrange(0, 0) =~= Seq::<QueueV>::empty());
    }
    while i < v.len()
        invariant
            i <= v.len(),
            s == children_view(*v),
            s.len() == v.len(),
            forall|j: int| 0 <= j < v.len() ==> #[trigger] s[j] == v@[j]@,
            out@ == start + queues_bytes(s.subrange(0, i as int)),
        decreases v.len() - i,
    {
        v[i].to_bytes(out);
        proof {
            assert(s.subrange(0, i + 1).subrange(0, i as int) =~= s.subrange(0, i as int));
        }
        i += 1;
        assert(out@ =~= start + queues_bytes(s.subrange(0, i as int)));
    }
    proof {
        assert(s.subrange(0, i as int) =~= s);
    }
    assert(out@ =~= old(out)@ + (le_bytes(v.len() as u64) + queues_bytes(children_view(*v))));
}

impl Queue {
    /// Appends the encoding of this node (see `queue_bytes`).
    pub fn to_bytes(&self, out: &mut Vec<u8>)
        ensures
            final(out)@ == old(out)@ + queue_bytes(self@),
        decreases self,
    {
        proof {
            lemma_content_children(self.content);
        }
        let ghost o = out@;
        out.push(if self.enabled { 0xFFu8 } else { 0u8 });
        match &self.content {
            QueueContent::Song(id) => {
                out.push(TAG_SONG);
                put_u64(out, *id);
            },
            QueueContent::Folder(index, contents, name) => {
                out.push(TAG_FOLDER);
                put_u64(out, *index as u64);
                put_queues(out, contents);
                put_text(out, name.as_str());
            },
            QueueContent::Loop(total, current, inner) => {
                out.push(TAG_LOOP);
                put_u64(out, *total as u64);
                put_u64(out, *current as u64);
                inner.to_bytes(out);
            },
            QueueContent::Random(q) => {
                out.push(TAG_RANDOM);
                put_queues(out, q);
            },
            QueueContent::Shuffle(current, map, elems, next) => {
                out.push(TAG_SHUFFLE);
                put_u64(out, *current as u64);
                put_usizes(out, map);
                put_queues(out, elems);
                put_u64(out, *next as u64);
            },
        }
        assert(out@ =~= o + queue_bytes(self@));
    }
}

} // verus!

verus! {

/// Where a node's encoding is found, its enabled byte and then its content are found.
proof fn lemma_queue_layout(buf: Seq<u8>, pos: int, v: QueueV)
    requires
        holds_at(buf, pos, queue_bytes(v)),
    ensures
        pos + 1 < buf.len(),
        buf[pos] == (if v.enabled { 0xFFu8 } else { 0u8 }),
        holds_at(buf, pos + 1, content_bytes(v.content)),
{
    let e = seq![if v.enabled { 0xFFu8 } else { 0u8 }];
    lemma_holds_concat(buf, pos, e, content_bytes(v.content));
    assert(buf.subrange(pos, pos + 1)[0] == buf[pos]);
    lemma_content_tag(buf, pos + 1, v.content);
}

/// Where content is found, its tag byte is found first.
proof fn lemma_content_tag(buf: Seq<u8>, pos: int, c: ContentV)
    requires
        holds_at(buf, pos, content_bytes(c)),
    ensures
        pos < buf.len(),
        buf[pos] == content_bytes(c)[0],
        c is Song ==> buf[pos] == TAG_SONG,
        c is Folder ==> buf[pos] == TAG_FOLDER,
        c is Loop ==> buf[pos] == TAG_LOOP,
        c is Random ==> buf[pos] == TAG_RANDOM,
        c is Shuffle ==> buf[pos] == TAG_SHUFFLE,
{
    assert(content_bytes(c).len() > 0);
    assert(buf.subrange(pos, pos + content_bytes(c).len())[0] == buf[pos]);
}

/// Where content is cut short after its tag, one of its fields is cut short and the
/// ones before it are whole.
proof fn lemma_content_cut(buf: Seq<u8>, pos: int, c: ContentV)
    requires
        cut_at(buf, pos, content_bytes(c)),
        pos < buf.len(),
    ensures
        buf[pos] == content_bytes(c)[0],
        c is Song ==> buf[pos] == TAG_SONG,
        c is Folder ==> buf[pos] == TAG_FOLDER,
        c is Loop ==> buf[pos] == TAG_LOOP,
        c is Random ==> buf[pos] == TAG_RANDOM,
        c is Shuffle ==> buf[pos] == TAG_SHUFFLE,
        c matches ContentV::Song(id) ==> cut_at(buf, pos + 1, le_bytes(id)),
        c matches ContentV::Folder(i, s, name) ==> ({
            let a = le_bytes(s.len() as u64) + queues_bytes(s);
            cut_at(buf, pos + 1, le_bytes(i as u64)) || (holds_at(buf, pos + 1, le_bytes(i as u64)) && (cut_at(buf, pos + 9, a)
                || (holds_at(buf, pos + 9, a) && cut_at(buf, pos + 9 + a.len(), text_bytes(name)))))
        }),
        c matches ContentV::Loop(t, k, inner) ==> cut_at(buf, pos + 1, le_bytes(t as u64)) || (holds_at(buf, pos + 1, le_bytes(t as u64))
            && (cut_at(buf, pos + 9, le_bytes(k as u64)) || (holds_at(buf, pos + 9, le_bytes(k as u64)) && cut_at(buf, pos + 17, queue_bytes(*inner))))),
        c matches ContentV::Random(s) ==> cut_at(buf, pos + 1, le_bytes(s.len() as u64) + queues_bytes(s)),
        c matches ContentV::Shuffle(k, m, s, n) ==> ({
            let mb = u64s_bytes(usizes_as_u64(m));
            let a = le_bytes(s.len() as u64) + queues_bytes(s);
            cut_at(buf, pos + 1, le_bytes(k as u64)) || (holds_at(buf, pos + 1, le_bytes(k as u64)) && (cut_at(buf, pos + 9, mb) || (
            holds_at(buf, pos + 9, mb) && (cut_at(buf, pos + 9 + mb.len(), a) || (holds_at(buf, pos + 9 + mb.len(), a) && cut_at(
                buf,
                pos + 9 + mb.len() + a.len(),
                le_bytes(n as u64),
            ))))))
        }),
{
    let e = content_bytes(c);
    assert(buf.subrange(pos, buf.len() as int)[0] == buf[pos]);
    let rest = e.subrange(1, e.len() as int);
    assert(e =~= seq![e[0]] + rest);
    lemma_cut_split(buf, pos, seq![e[0]], rest);
    match c {
        ContentV::Song(id) => {
            assert(rest =~= le_bytes(id));
        },
        ContentV::Folder(i, s, name) => {
            let a = le_bytes(s.len() as u64) + queues_bytes(s);
            assert(rest =~= le_bytes(i as u64) + (a + text_bytes(name)));
            lemma_cut_split_if(buf, pos + 1, le_bytes(i as u64), a + text_bytes(name));
            lemma_cut_split_if(buf, pos + 9, a, text_bytes(name));
        },
        ContentV::Loop(t, k, inner) => {
            assert(rest =~= le_bytes(t as u64) + (le_bytes(k as u64) + queue_bytes(*inner)));
            lemma_cut_split_if(buf, pos + 1, le_bytes(t as u64), le_bytes(k as u64) + queue_bytes(*inner));
            lemma_cut_split_if(buf, pos + 9, le_bytes(k as u64), queue_bytes(*inner));
        },
        ContentV::Random(s) => {
            assert(rest =~= le_bytes(s.len() as u64) + queues_bytes(s));
        },
        ContentV::Shuffle(k, m, s, n) => {
            let mb = u64s_bytes(usizes_as_u64(m));
            let a = le_bytes(s.len() as u64) + queues_bytes(s);
            assert(rest =~= le_bytes(k as u64) + (mb + (a + le_bytes(n as u64))));
            lemma_cut_split_if(buf, pos + 1, le_bytes(k as u64), mb + (a + le_bytes(n as u64)));
            lemma_cut_split_if(buf, pos + 9, mb, a + le_bytes(n as u64));
            lemma_cut_split_if(buf, pos + 9 + mb.len(), a, le_bytes(n as u64));
        },
    }
}

proof fn lemma_folder_layout(buf: Seq<u8>, pos: int, i: usize, s: Seq<QueueV>, name: Seq<char>)
    requires
        holds_at(buf, pos, content_bytes(ContentV::Folder(i, s, name))),
    ensures
        ({
            let a = le_bytes(s.len() as u64) + queues_bytes(s);
            &&& holds_at(buf, pos + 1, le_bytes(i as u64))
            &&& holds_at(buf, pos + 9, a)
            &&& holds_at(buf, pos + 9 + a.len(), text_bytes(name))
        }),
{
    let a = le_bytes(s.len() as u64) + queues_bytes(s);
    lemma_holds_concat(buf, pos, seq![TAG_FOLDER], le_bytes(i as u64) + (a + text_bytes(name)));
    lemma_holds_concat(buf, pos + 1, le_bytes(i as u64), a + text_bytes(name));
    lemma_holds_concat(buf, pos + 9, a, text_bytes(name));
}

proof fn lemma_loop_layout(buf: Seq<u8>, pos: int, t: usize, k: usize, inner: QueueV)
    requires
        holds_at(buf, pos, content_bytes(ContentV::Loop(t, k, Box::new(inner)))),
    ensures
        holds_at(buf, pos + 1, le_bytes(t as u64)),
        holds_at(buf, pos + 9, le_bytes(k as u64)),
        holds_at(buf, pos + 17, queue_bytes(inner)),
{
    lemma_holds_concat(buf, pos, seq![TAG_LOOP], le_bytes(t as u64) + (le_bytes(k as u64) + queue_bytes(inner)));
    lemma_holds_concat(buf, pos + 1, le_bytes(t as u64), le_bytes(k as u64) + queue_bytes(inner));
    lemma_holds_concat(buf, pos + 9, le_bytes(k as u64), queue_bytes(inner));
}

proof fn lemma_random_layout(buf: Seq<u8>, pos: int, s: Seq<QueueV>)
    requires
        holds_at(buf, pos, content_bytes(ContentV::Random(s))),
    ensures
        holds_at(buf, pos + 1, le_bytes(s.len() as u64) + queues_bytes(s)),
{
    lemma_holds_concat(buf, pos, seq![TAG_RANDOM], le_bytes(s.len() as u64) + queues_bytes(s));
}

proof fn lemma_shuffle_layout(buf: Seq<u8>, pos: int, k: usize, m: Seq<usize>, s: Seq<QueueV>, n: usize)
    requires
        holds_at(buf, pos, content_bytes(ContentV::Shuffle(k, m, s, n))),
    ensures
        ({
            let mb = u64s_bytes(usizes_as_u64(m));
            let a = le_bytes(s.len() as u64) + queues_bytes(s);
            &&& holds_at(buf, pos + 1, le_bytes(k as u64))
            &&& holds_at(buf, pos + 9, mb)
            &&& holds_at(buf, pos + 9 + mb.len(), a)
            &&& holds_at(buf, pos + 9 + mb.len() + a.len(), le_bytes(n as u64))
        }),
{
    let mb = u64s_bytes(usizes_as_u64(m));
    let a = le_bytes(s.len() as u64) + queues_bytes(s);
    lemma_holds_concat(buf, pos, seq![TAG_SHUFFLE], le_bytes(k as u64) + (mb + (a + le_bytes(n as u64))));
    lemma_holds_concat(buf, pos + 1, le_bytes(k as u64), mb + (a + le_bytes(n as u64)));
    lemma_holds_concat(buf, pos + 9, mb, a + le_bytes(n as u64));
    lemma_holds_concat(buf, pos + 9 + mb.len(), a, le_bytes(n as u64));
}

} // verus!

verus! {

/// The number of set bits of `b`.
fn count_ones_u8(b: u8) -> (r: u32)
    ensures
        r == ones(b),
{
    assert((b & 1) <= 1 && ((b >> 1u8) & 1) <= 1 && ((b >> 2u8) & 1) <= 1 && ((b >> 3u8) & 1) <= 1 && ((b >> 4u8) & 1)
        <= 1 && ((b >> 5u8) & 1) <= 1 && ((b >> 6u8) & 1) <= 1 && ((b >> 7u8) & 1) <= 1) by (bit_vector);
    ((b & 1) as u32) + (((b >> 1u8) & 1) as u32) + (((b >> 2u8) & 1) as u32) + (((b >> 3u8) & 1) as u32) + (((b
        >> 4u8) & 1) as u32) + (((b >> 5u8) & 1) as u32) + (((b >> 6u8) & 1) as u32) + (((b >> 7u8) & 1) as u32)
}

impl Queue {
    /// Reads a node at `pos` (see `queue_bytes`); an enabled byte with at least
    /// four bits set means enabled, and an unknown tag reads as an empty folder
    /// named `<invalid byte received>`.
    pub fn from_bytes(buf: &[u8], pos: usize) -> (r: Result<(Queue, usize), CodecError>)
        ensures
            r matches Ok((q, p)) ==> pos < p <= buf@.len(),
            forall|v: QueueV| holds_at(buf@, pos as int, #[trigger] queue_bytes(v)) ==> (r matches Ok((q, p)) && q@
                == v && p == pos + queue_bytes(v).len()),
            pos + 2 <= buf@.len() && !is_tag(buf@[pos + 1]) ==> (r matches Ok((q, p)) && q@ == invalid_folder(
                ones(buf@[pos as int]) >= 4,
            ) && p == pos + 2),
            forall|c: ContentV| pos < buf@.len() && holds_at(buf@, pos + 1, #[trigger] content_bytes(c)) ==> (r matches Ok((q, p))
                && q@ == (QueueV { enabled: ones(buf@[pos as int]) >= 4, content: c }) && p == pos + 1 + content_bytes(c).len()),
            forall|v: QueueV| cut_at(buf@, pos as int, #[trigger] queue_bytes(v)) ==> r is Err,
        decreases buf@.len() - pos,
    {
        proof {
            assert forall|v: QueueV| cut_at(buf@, pos as int, #[trigger] queue_bytes(v)) implies pos + 1 >= buf@.len()
                || cut_at(buf@, pos + 1, content_bytes(v.content)) by {
                lemma_cut_split(buf@, pos as int, seq![if v.enabled { 0xFFu8 } else { 0u8 }], content_bytes(v.content));
            }
        }
        proof {
            assert forall|c: ContentV| pos < buf@.len() && holds_at(buf@, pos + 1, #[trigger] content_bytes(c)) implies pos + 2
                <= buf@.len() by {
                lemma_content_tag(buf@, pos + 1, c);
            }
        }
        proof {
            assert forall|v: QueueV| holds_at(buf@, pos as int, #[trigger] queue_bytes(v)) implies pos + 1 < buf@.len()
                && buf@[pos as int] == (if v.enabled { 0xFFu8 } else { 0u8 })
                && holds_at(buf@, pos + 1, content_bytes(v.content)) by {
                lemma_queue_layout(buf@, pos as int, v);
            }
        }
        if pos >= buf.len() || buf.len() - pos < 2 {
            return Err(CodecError::UnexpectedEnd);
        }
        let e = buf[pos];
        let enabled = count_ones_u8(e) >= 4;
        proof {
            let f = 0xFFu8;
            let z = 0u8;
            assert((f & 1) == 1 && ((f >> 1u8) & 1) == 1 && ((f >> 2u8) & 1) == 1 && ((f >> 3u8) & 1) == 1 && ((f >> 4u8)
                & 1) == 1 && ((f >> 5u8) & 1) == 1 && ((f >> 6u8) & 1) == 1 && ((f >> 7u8) & 1) == 1) by (bit_vector)
                requires
                    f == 0xFFu8,
            ;
            assert((z & 1) == 0 && ((z >> 1u8) & 1) == 0 && ((z >> 2u8) & 1) == 0 && ((z >> 3u8) & 1) == 0 && ((z >> 4u8)
                & 1) == 0 && ((z >> 5u8) & 1) == 0 && ((z >> 6u8) & 1) == 0 && ((z >> 7u8) & 1) == 0) by (bit_vector)
                requires
                    z == 0u8,
            ;
            assert(ones(f) == 8);
            assert(ones(z) == 0);
        }
        let (content, p) = content_from_bytes(buf, pos + 1)?;
        Ok((Queue { enabled, content }, p))
    }
}

fn content_from_bytes(buf: &[u8], pos: usize) -> (r: Result<(QueueContent, usize), CodecError>)
    ensures
        r matches Ok((c, p)) ==> pos < p <= buf@.len(),
        forall|c: ContentV| holds_at(buf@, pos as int, #[trigger] content_bytes(c)) ==> (r matches Ok((x, p))
            && content_view(x) == c && p == pos + content_bytes(c).len()),
        pos < buf@.len() && !is_tag(buf@[pos as int]) ==> (r matches Ok((x, p)) && content_view(x)
            == invalid_folder(true).content && p == pos + 1),
        forall|c: ContentV| cut_at(buf@, pos as int, #[trigger] content_bytes(c)) ==> r is Err,
    decreases buf@.len() - pos, 1nat,
{
    let buf_len = buf.len();
    proof {
        assert forall|c: ContentV| holds_at(buf@, pos as int, #[trigger] content_bytes(c)) implies pos < buf@.len() by {
            lemma_content_tag(buf@, pos as int, c);
        }
    }
    if pos >= buf.len() {
        return Err(CodecError::UnexpectedEnd);
    }
    let tag = buf[pos];
    if tag == TAG_SONG {
        proof {
            assert forall|c: ContentV| holds_at(buf@, pos as int, #[trigger] content_bytes(c)) implies (c matches ContentV::Song(id)
                && holds_at(buf@, pos + 1, le_bytes(id))) by {
                lemma_content_tag(buf@, pos as int, c);
                if let ContentV::Song(id) = c {
                    lemma_holds_concat(buf@, pos as int, seq![TAG_SONG], le_bytes(id));
                }
            }
        }
        let (id, p) = get_u64(buf, pos + 1)?;
        proof {
            assert forall|c: ContentV| !cut_at(buf@, pos as int, #[trigger] content_bytes(c)) by {
                if cut_at(buf@, pos as int, content_bytes(c)) {
                    lemma_content_cut(buf@, pos as int, c);
                }
            }
        }
        Ok((QueueContent::Song(id), p))
    } else if tag == TAG_FOLDER {
        proof {
            assert forall|c: ContentV| holds_at(buf@, pos as int, #[trigger] content_bytes(c)) implies (c matches ContentV::Folder(i, s, name)
                && holds_at(buf@, pos + 1, le_bytes(i as u64))
                && holds_at(buf@, pos + 9, le_bytes(s.len() as u64) + queues_bytes(s))
                && holds_at(buf@, pos + 9 + (le_bytes(s.len() as u64) + queues_bytes(s)).len(), text_bytes(name))) by {
                lemma_content_tag(buf@, pos as int, c);
                if let ContentV::Folder(i, s, name) = c {
                    lemma_folder_layout(buf@, pos as int, i, s, name);
                }
            }
        }
        let (index, p1) = get_usize(buf, pos + 1)?;
        let (contents, p2) = get_queues(buf, p1)?;
        let (name, p3) = get_text(buf, p2)?;
        proof {
            lemma_content_view(QueueContent::Folder(index, contents, name));
        }
        proof {
            assert forall|c: ContentV| !cut_at(buf@, pos as int, #[trigger] content_bytes(c)) by {
                if cut_at(buf@, pos as int, content_bytes(c)) {
                    lemma_content_cut(buf@, pos as int, c);
                }
            }
        }
        Ok((QueueContent::Folder(index, contents, name), p3))
    } else if tag == TAG_LOOP {
        proof {
            assert forall|c: ContentV| holds_at(buf@, pos as int, #[trigger] content_bytes(c)) implies (c matches ContentV::Loop(t, k, inner)
                && holds_at(buf@, pos + 1, le_bytes(t as u64))
                && holds_at(buf@, pos + 9, le_bytes(k as u64))
                && holds_at(buf@, pos + 17, queue_bytes(*inner))) by {
                lemma_content_tag(buf@, pos as int, c);
                if let ContentV::Loop(t, k, inner) = c {
                    lemma_loop_layout(buf@, pos as int, t, k, *inner);
                }
            }
        }
        let (total, p1) = get_usize(buf, pos + 1)?;
        let (current, p2) = get_usize(buf, p1)?;
        let (inner, p3) = Queue::from_bytes(buf, p2)?;
        proof {
            lemma_content_view(QueueContent::Loop(total, current, Box::new(inner)));
        }
        proof {
            assert forall|c: ContentV| !cut_at(buf@, pos as int, #[trigger] content_bytes(c)) by {
                if cut_at(buf@, pos as int, content_bytes(c)) {
                    lemma_content_cut(buf@, pos as int, c);
                }
            }
        }
        Ok((QueueContent::Loop(total, current, Box::new(inner)), p3))
    } else if tag == TAG_RANDOM {
        proof {
            assert forall|c: ContentV| holds_at(buf@, pos as int, #[trigger] content_bytes(c)) implies (c matches ContentV::Random(s)
                && holds_at(buf@, pos + 1, le_bytes(s.len() as u64) + queues_bytes(s))) by {
                lemma_content_tag(buf@, pos as int, c);
                if let ContentV::Random(s) = c {
                    lemma_random_layout(buf@, pos as int, s);
                }
            }
        }
        let (q, p1) = get_queues(buf, pos + 1)?;
        proof {
            lemma_content_view(QueueContent::Random(q));
        }
        proof {
            assert forall|c: ContentV| !cut_at(buf@, pos as int, #[trigger] content_bytes(c)) by {
                if cut_at(buf@, pos as int, content_bytes(c)) {
                    lemma_content_cut(buf@, pos as int, c);
                }
            }
        }
        Ok((QueueContent::Random(q), p1))
    } else if tag == TAG_SHUFFLE {
        proof {
            assert forall|c: ContentV| holds_at(buf@, pos as int, #[trigger] content_bytes(c)) implies (c matches ContentV::Shuffle(k, m, s, n)
                && holds_at(buf@, pos + 1, le_bytes(k as u64))
                && holds_at(buf@, pos + 9, u64s_bytes(usizes_as_u64(m)))
                && holds_at(buf@, pos + 9 + u64s_bytes(usizes_as_u64(m)).len(), le_bytes(s.len() as u64) + queues_bytes(s))
                && holds_at(buf@, pos + 9 + u64s_bytes(usizes_as_u64(m)).len() + (le_bytes(s.len() as u64) + queues_bytes(s)).len(), le_bytes(n as u64))) by {
                lemma_content_tag(buf@, pos as int, c);
                if let ContentV::Shuffle(k, m, s, n) = c {
                    lemma_shuffle_layout(buf@, pos as int, k, m, s, n);
                }
            }
        }
        let (current, p1) = get_usize(buf, pos + 1)?;
        let (map, p2) = get_usizes(buf, p1)?;
        let (elems, p3) = get_queues(buf, p2)?;
        let (next, p4) = get_usize(buf, p3)?;
        proof {
            lemma_content_view(QueueContent::Shuffle(current, map, elems, next));
        }
        proof {
            assert forall|c: ContentV| !cut_at(buf@, pos as int, #[trigger] content_bytes(c)) by {
                if cut_at(buf@, pos as int, content_bytes(c)) {
                    lemma_content_cut(buf@, pos as int, c);
                }
            }
        }
        Ok((QueueContent::Shuffle(current, map, elems, next), p4))
    } else {
        proof {
            assert forall|c: ContentV| !holds_at(buf@, pos as int, #[trigger] content_bytes(c)) by {
                if holds_at(buf@, pos as int, content_bytes(c)) {
                    lemma_content_tag(buf@, pos as int, c);
                }
            }
        }
        let children: Vec<Queue> = Vec::new();
        let name = "<invalid byte received>".to_string();
        proof {
            lemma_children_view(children);
            assert(children_view(children) =~= Seq::<QueueV>::empty());
            lemma_content_view(QueueContent::Folder(0, children, name));
        }
        proof {
            assert forall|c: ContentV| !cut_at(buf@, pos as int, #[trigger] content_bytes(c)) by {
                if cut_at(buf@, pos as int, content_bytes(c)) {
                    lemma_content_cut(buf@, pos as int, c);
                }
            }
        }
        Ok((QueueContent::Folder(0, children, name), pos + 1))
    }
}

/// Reads positions written as 64-bit integers, after their count.
pub(crate) fn get_usizes(buf: &[u8], pos: usize) -> (r: Result<(Vec<usize>, usize), CodecError>)
    ensures
        r matches Ok((v, p)) ==> pos < p <= buf@.len(),
        forall|m: Seq<usize>| holds_at(buf@, pos as int, #[trigger] u64s_bytes(usizes_as_u64(m))) ==> (r matches Ok((v, p))
            && v@ == m && p == pos + u64s_bytes(usizes_as_u64(m)).len()),
        forall|m: Seq<usize>| cut_at(buf@, pos as int, #[trigger] u64s_bytes(usizes_as_u64(m))) ==> r is Err,
{
    let (w, p) = get_u64s(buf, pos)?;
    let mut v: Vec<usize> = Vec::new();
    let mut i: usize = 0;
    while i < w.len()
        invariant
            i <= w.len(),
            v@.len() == i,
            forall|m: Seq<usize>| holds_at(buf@, pos as int, #[trigger] u64s_bytes(usizes_as_u64(m))) ==> w@ == usizes_as_u64(m),
            forall|m: Seq<usize>| !cut_at(buf@, pos as int, #[trigger] u64s_bytes(usizes_as_u64(m))),
            forall|j: int| 0 <= j < i ==> v@[j] as u64 == #[trigger] w@[j],
        decreases w.len() - i,
    {
        if w[i] > usize::MAX as u64 {
            proof {
                assert forall|m: Seq<usize>| !holds_at(buf@, pos as int, #[trigger] u64s_bytes(usizes_as_u64(m))) by {
                    if holds_at(buf@, pos as int, u64s_bytes(usizes_as_u64(m))) {
                        assert(w@ == usizes_as_u64(m));
                        assert(w@[i as int] == m[i as int] as u64);
                    }
                }
            }
            return Err(CodecError::TooLarge);
        }
        v.push(w[i] as usize);
        i += 1;
    }
    proof {
        assert forall|m: Seq<usize>| holds_at(buf@, pos as int, #[trigger] u64s_bytes(usizes_as_u64(m))) implies v@ == m by {
            assert(w@ == usizes_as_u64(m));
            assert forall|j: int| 0 <= j < m.len() implies v@[j] == m[j] by {
                assert(w@[j] == m[j] as u64);
            }
            assert(v@ =~= m);
        }
    }
    Ok((v, p))
}

/// Reads a count and then that many nodes.
fn get_queues(buf: &[u8], pos: usize) -> (r: Result<(Vec<Queue>, usize), CodecError>)
    ensures
        r matches Ok((v, p)) ==> pos < p <= buf@.len(),
        forall|s: Seq<QueueV>| holds_at(buf@, pos as int, #[trigger] (le_bytes(s.len() as u64) + queues_bytes(s))) ==> (r matches Ok((v, p))
            && children_view(v) == s && p == pos + (le_bytes(s.len() as u64) + queues_bytes(s)).len()),
        forall|s: Seq<QueueV>| cut_at(buf@, pos as int, #[trigger] (le_bytes(s.len() as u64) + queues_bytes(s))) ==> r is Err,
    decreases buf@.len() - pos, 1nat,
{
    let buf_len = buf.len();
    proof {
        assert forall|s: Seq<QueueV>| cut_at(buf@, pos as int, #[trigger] (le_bytes(s.len() as u64) + queues_bytes(s))) implies (cut_at(buf@, pos as int, le_bytes(s.len() as u64))
            || (holds_at(buf@, pos as int, le_bytes(s.len() as u64)) && cut_at(buf@, pos + 8, queues_bytes(s)))) && s.len() <= u64::MAX by {
            lemma_cut_split(buf@, pos as int, le_bytes(s.len() as u64), queues_bytes(s));
            lemma_queues_bytes_len(s);
        }
        assert forall|s: Seq<QueueV>| holds_at(buf@, pos as int, #[trigger] (le_bytes(s.len() as u64) + queues_bytes(s))) implies
            holds_at(buf@, pos as int, le_bytes(s.len() as u64)) && holds_at(buf@, pos + 8, queues_bytes(s))
            && s.len() <= u64::MAX by {
            lemma_holds_concat(buf@, pos as int, le_bytes(s.len() as u64), queues_bytes(s));
            lemma_queues_bytes_len(s);
        }
    }
    let (count, mut p) = get_u64(buf, pos)?;
    let mut v: Vec<Queue> = Vec::new();
    let mut i: u64 = 0;
    proof {
        lemma_children_view(v);
    }
    while i < count
        invariant
            i <= count,
            v@.len() == i,
            pos < p <= buf@.len(),
            forall|s: Seq<QueueV>| holds_at(buf@, pos as int, #[trigger] (le_bytes(s.len() as u64) + queues_bytes(s))) ==> {
                &&& s.len() == count
                &&& children_view(v) == s.subrange(0, i as int)
                &&& p == pos + 8 + queues_bytes(s.subrange(0, i as int)).len()
                &&& holds_at(buf@, pos + 8, queues_bytes(s))
            },
            forall|s: Seq<QueueV>| cut_at(buf@, pos as int, #[trigger] (le_bytes(s.len() as u64) + queues_bytes(s))) ==> {
                &&& s.len() == count
                &&& p == pos + 8 + queues_bytes(s.subrange(0, i as int)).len()
                &&& cut_at(buf@, pos + 8, queues_bytes(s))
            },
        decreases count - i,
    {
        proof {
            assert forall|s: Seq<QueueV>| cut_at(buf@, pos as int, #[trigger] (le_bytes(s.len() as u64) + queues_bytes(s))) implies
                (cut_at(buf@, p as int, queue_bytes(s[i as int])) || holds_at(buf@, p as int, queue_bytes(s[i as int])))
                && queues_bytes(s.subrange(0, i + 1)) == queues_bytes(s.subrange(0, i as int)) + queue_bytes(s[i as int]) by {
                lemma_queues_bytes_prefix(s, i as int);
                lemma_cut_step(buf@, pos + 8, queues_bytes(s.subrange(0, i as int)), queue_bytes(s[i as int]), queues_bytes(s));
            }
            assert forall|s: Seq<QueueV>| holds_at(buf@, pos as int, #[trigger] (le_bytes(s.len() as u64) + queues_bytes(s))) implies
                holds_at(buf@, p as int, queue_bytes(s[i as int]))
                && p + queue_bytes(s[i as int]).len() == pos + 8 + queues_bytes(s.subrange(0, i + 1)).len() by {
                lemma_queues_bytes_prefix(s, i as int);
                crate::codec::lemma_holds_prefix(buf@, pos + 8, queues_bytes(s.subrange(0, i + 1)), queues_bytes(s));
                lemma_holds_concat(buf@, pos + 8, queues_bytes(s.subrange(0, i as int)), queue_bytes(s[i as int]));
            }
        }
        let ghost p_old = p;
        let (q, np) = Queue::from_bytes(buf, p)?;
        let ghost before = v;
        v.push(q);
        p = np;
        i += 1;
        proof {
            assert forall|s: Seq<QueueV>| cut_at(buf@, pos as int, #[trigger] (le_bytes(s.len() as u64) + queues_bytes(s))) implies p == pos + 8 + queues_bytes(s.subrange(0, i as int)).len() by {
                assert(holds_at(buf@, p_old as int, queue_bytes(s[i - 1])));
            }
        }
        proof {
            lemma_children_view(before);
            lemma_children_view(v);
            assert forall|s: Seq<QueueV>| holds_at(buf@, pos as int, #[trigger] (le_bytes(s.len() as u64) + queues_bytes(s))) implies
                children_view(v) == s.subrange(0, i as int) by {
                assert(children_view(v) =~= s.subrange(0, i as int));
            }
        }
    }
    proof {
        assert forall|s: Seq<QueueV>| holds_at(buf@, pos as int, #[trigger] (le_bytes(s.len() as u64) + queues_bytes(s))) implies
            children_view(v) == s && p == pos + (le_bytes(s.len() as u64) + queues_bytes(s)).len() by {
            assert(s.subrange(0, i as int) =~= s);
        }
    }
    proof {
        assert forall|s: Seq<QueueV>| !cut_at(buf@, pos as int, #[trigger] (le_bytes(s.len() as u64) + queues_bytes(s))) by {
            if cut_at(buf@, pos as int, (le_bytes(s.len() as u64) + queues_bytes(s))) {
                assert(s.subrange(0, i as int) =~= s);
            }
        }
    }
    Ok((v, p))
}

proof fn lemma_queues_bytes_len(s: Seq<QueueV>)
    ensures
        queues_bytes(s).len() >= 2 * s.len(),
    decreases s.len(),
{
    if s.len() > 0 {
        lemma_queues_bytes_len(s.subrange(0, s.len() - 1));
        let last = s[s.len() - 1];
        assert(queue_bytes(last).len() == 1 + content_bytes(last.content).len());
        assert(content_bytes(last.content).len() >= 1);
    }
}

/// The encoding of a prefix is a prefix of the encoding, followed by the next node.
proof fn lemma_queues_bytes_prefix(s: Seq<QueueV>, i: int)
    requires
        0 <= i < s.len(),
    ensures
        queues_bytes(s.subrange(0, i + 1)) == queues_bytes(s.subrange(0, i)) + queue_bytes(s[i]),
        queues_bytes(s).len() >= queues_bytes(s.subrange(0, i + 1)).len(),
        queues_bytes(s).subrange(0, queues_bytes(s.subrange(0, i + 1)).len() as int) == queues_bytes(s.subrange(0, i + 1)),
    decreases s.len() - i,
{
    assert(s.subrange(0, i + 1).subrange(0, i) =~= s.subrange(0, i));
    if i + 1 < s.len() {
        lemma_queues_bytes_prefix(s, i + 1);
        let a = queues_bytes(s.subrange(0, i + 1));
        let b = queues_bytes(s.subrange(0, i + 2));
        assert(queues_bytes(s).subrange(0, a.len() as int) =~= b.subrange(0, a.len() as int));
        assert(b.subrange(0, a.len() as int) =~= a);
    } else {
        assert(s.subrange(0, i + 1) =~= s);
        assert(queues_bytes(s).subrange(0, queues_bytes(s).len() as int) =~= queues_bytes(s));
    }
}

} // verus!

verus! {

impl Queue {
    /// A copy of this node and everything below it.
    pub fn duplicate(&self) -> (r: Queue)
        ensures
            r@ == self@,
        decreases self,
    {
        proof {
            lemma_content_children(self.content);
        }
        let content = match &self.content {
            QueueContent::Song(id) => QueueContent::Song(*id),
            QueueContent::Folder(i, v, name) => QueueContent::Folder(*i, duplicate_all(v), name.clone()),
            QueueContent::Loop(t, c, inner) => QueueContent::Loop(*t, *c, Box::new(inner.duplicate())),
            QueueContent::Random(v) => QueueContent::Random(duplicate_all(v)),
            QueueContent::Shuffle(c, m, v, n) => {
                let m2 = m.clone();
                assert(m2@ =~= m@);
                QueueContent::Shuffle(*c, m2, duplicate_all(v), *n)
            },
        };
        proof {
            lemma_content_view(content);
        }
        Queue { enabled: self.enabled, content }
    }
}

/// Copies of the nodes of `v`, in order.
fn duplicate_all(v: &Vec<Queue>) -> (r: Vec<Queue>)
    ensures
        children_view(r) == children_view(*v),
    decreases *v, 0nat,
{
    proof {
        lemma_children_view(*v);
    }
    let mut r: Vec<Queue> = Vec::new();
    let mut i: usize = 0;
    while i < v.len()
        invariant
            i <= v.len(),
            r@.len() == i,
            children_view(*v).len() == v.len(),
            forall|j: int| 0 <= j < v.len() ==> #[trigger] children_view(*v)[j] == v@[j]@,
            forall|j: int| 0 <= j < i ==> #[trigger] r@[j]@ == v@[j]@,
        decreases v.len() - i,
    {
        let q = v[i].duplicate();
        r.push(q);
        i += 1;
    }
    proof {
        lemma_children_view(r);
        assert(children_view(r) =~= children_view(*v));
    }
    r
}

} // verus!

verus! {

impl Queue {
    /// The songs that play from now on, at most `n` of them (see `upcoming`): what
    /// a cache fills ahead of playback.
    pub fn upcoming_songs(&self, n: usize) -> (r: Vec<u64>)
        ensures
            r@ == upcoming(self@, n as nat),
    {
        let mut q = self.duplicate();
        let mut r: Vec<u64> = Vec::new();
        let mut left = n;
        let mut scratch: Vec<QueueAction> = Vec::new();
        while left > 0
            invariant
                left <= n,
                r@ + upcoming(q@, left as nat) == upcoming(self@, n as nat),
            decreases left,
        {
            match q.get_current_song() {
                Some(id) => {
                    let id = *id;
                    r.push(id);
                    let ghost before = q@;
                    let adv = q.advance_index(&mut scratch);
                    proof {
                        assert(current_song(before) == Some(id));
                    }
                    if !adv {
                        proof {
                            assert(upcoming(before, left as nat) == seq![id]);
                            assert(r@ =~= upcoming(self@, n as nat));
                        }
                        return r;
                    }
                    left -= 1;
                    proof {
                        assert(upcoming(before, (left + 1) as nat) == seq![id] + upcoming(q@, left as nat));
                        assert(r@ + upcoming(q@, left as nat) =~= upcoming(self@, n as nat));
                    }
                },
                None => {
                    proof {
                        assert(upcoming(q@, left as nat) == Seq::<u64>::empty());
                        assert(r@ =~= upcoming(self@, n as nat));
                    }
                    return r;
                },
            }
        }
        proof {
            assert(r@ =~= upcoming(self@, n as nat));
        }
        r
    }
}

} // verus!

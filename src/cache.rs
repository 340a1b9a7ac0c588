//! The per-song payload cache as a state machine, and the subscriber registry's
//! bookkeeping. Loading, waiting and sending are the host's part.
use vstd::prelude::*;

verus! {

/// What a song's payload cache holds.
#[derive(Debug)]
pub enum CacheState {
    /// No bytes and no load under way.
    Empty,
    /// A load is under way.
    Loading,
    /// The bytes are cached.
    Ready(Vec<u8>),
    /// A load was tried and failed.
    Failed,
}

/// Abstract value of a payload cache.
pub enum CacheV {
    Empty,
    Loading,
    Ready(Seq<u8>),
    Failed,
}

impl View for CacheState {
    type V = CacheV;

    open spec fn view(&self) -> CacheV {
        match self {
            CacheState::Empty => CacheV::Empty,
            CacheState::Loading => CacheV::Loading,
            CacheState::Ready(b) => CacheV::Ready(b@),
            CacheState::Failed => CacheV::Failed,
        }
    }
}

/// Starting a load: only an empty cache starts one, and is then loading.
pub open spec fn start_spec(s: CacheV) -> (CacheV, bool) {
    match s {
        CacheV::Empty => (CacheV::Loading, true),
        _ => (s, false),
    }
}

/// Two requests to start loading, one after the other, start at most one load:
/// however many callers ask, one background load runs for a song.
pub proof fn lemma_single_flight(s: CacheV)
    ensures
        !(start_spec(s).1 && start_spec(start_spec(s).0).1),
{
}

/// What a caller who needs a song's bytes now does next.
#[derive(Debug, Clone, Copy, PartialEq, Eq)]
pub enum NowStep {
    /// Take what `cached_data` returns: the bytes, or nothing after a failed load.
    Return,
    /// No load ran yet: start one and load the bytes right away.
    LoadNow,
    /// A load is under way: wait for it and ask again.
    Wait,
}

/// `n` requests to start loading, one after the other: the state after them and
/// how many of them started a load.
pub open spec fn start_times(s: CacheV, n: nat) -> (CacheV, nat)
    decreases n,
{
    if n == 0 {
        (s, 0)
    } else {
        let (s1, k) = start_times(s, (n - 1) as nat);
        let (s2, started) = start_spec(s1);
        (s2, k + if started { 1nat } else { 0nat })
    }
}

/// However many requests to start loading a song's cache come in, one after the
/// other, at most one of them starts a load, and exactly one when the cache was
/// empty: the cache holder's lock orders concurrent requests, so one background
/// load runs for a song.
pub proof fn lemma_single_flight_many(s: CacheV, n: nat)
    ensures
        start_times(s, n).1 <= 1,
        s is Empty && n > 0 ==> start_times(s, n).1 == 1,
        start_times(s, n).1 == 1 ==> !(start_times(s, n).0 is Empty),
        start_times(s, n).1 == 0 ==> start_times(s, n).0 == s,
    decreases n,
{
    if n > 0 {
        lemma_single_flight_many(s, (n - 1) as nat);
    }
}

impl CacheState {
    pub fn new() -> (r: CacheState)
        ensures
            r@ == CacheV::Empty,
    {
        CacheState::Empty
    }

    /// Moves an empty cache to loading and returns `true`: the caller then starts
    /// the one load. Any other state stays, and `false` comes back.
    pub fn start_load(&mut self) -> (r: bool)
        ensures
            (final(self)@, r) == start_spec(old(self)@),
    {
        match self {
            CacheState::Empty => {
                *self = CacheState::Loading;
                true
            },
            _ => false,
        }
    }

    /// Records the outcome of the load under way: the bytes, or a failure. A cache
    /// that is not loading stays as it is.
    pub fn finish_load(&mut self, data: Option<Vec<u8>>)
        ensures
            old(self)@ is Loading ==> final(self)@ == match data {
                Some(b) => CacheV::Ready(b@),
                None => CacheV::Failed,
            },
            !(old(self)@ is Loading) ==> final(self)@ == old(self)@,
    {
        if let CacheState::Loading = self {
            *self = match data {
                Some(b) => CacheState::Ready(b),
                None => CacheState::Failed,
            };
        }
    }

    /// The cached bytes, without waiting: `Some` exactly when they are ready.
    pub fn cached_data(&self) -> (r: Option<&Vec<u8>>)
        ensures
            match self@ {
                CacheV::Ready(b) => r matches Some(v) && v@ == b,
                _ => r is None,
            },
    {
        match self {
            CacheState::Ready(b) => Some(b),
            _ => None,
        }
    }

    /// Drops cached bytes. `Err` while a load is under way, which then stays;
    /// otherwise a ready cache becomes empty and others stay.
    pub fn uncache_data(&mut self) -> (r: Result<(), ()>)
        ensures
            r is Err <==> old(self)@ is Loading,
            old(self)@ is Ready ==> final(self)@ == CacheV::Empty,
            !(old(self)@ is Ready) ==> final(self)@ == old(self)@,
    {
        match self {
            CacheState::Ready(_) => {
                *self = CacheState::Empty;
                Ok(())
            },
            CacheState::Loading => Err(()),
            _ => Ok(()),
        }
    }

    /// The next step of a caller who needs the bytes now.
    pub fn now_step(&self) -> (r: NowStep)
        ensures
            r == match self@ {
                CacheV::Empty => NowStep::LoadNow,
                CacheV::Loading => NowStep::Wait,
                _ => NowStep::Return,
            },
    {
        match self {
            CacheState::Empty => NowStep::LoadNow,
            CacheState::Loading => NowStep::Wait,
            _ => NowStep::Return,
        }
    }

    /// Whether the cache is empty, so that a caller who needs the bytes now must
    /// load them itself.
    pub fn is_empty(&self) -> (r: bool)
        ensures
            r == (self@ is Empty),
    {
        match self {
            CacheState::Empty => true,
            _ => false,
        }
    }
}

/// What the cache manager does on one poll.
#[derive(Debug, Clone, Copy, PartialEq, Eq)]
pub enum CachePlan {
    /// Memory is plentiful: load the songs that play next.
    Prefetch,
    /// Memory is short: drop cached songs that do not play soon.
    Evict,
    /// Neither.
    Idle,
}

/// Prefetch above `max_mib` of available memory, evict below `min_mib`, else idle.
pub fn cache_plan(available_mib: u64, min_mib: u64, max_mib: u64) -> (r: CachePlan)
    ensures
        available_mib > max_mib ==> r == CachePlan::Prefetch,
        available_mib <= max_mib && available_mib < min_mib ==> r == CachePlan::Evict,
        available_mib <= max_mib && available_mib >= min_mib ==> r == CachePlan::Idle,
{
    if available_mib > max_mib {
        CachePlan::Prefetch
    } else if available_mib < min_mib {
        CachePlan::Evict
    } else {
        CachePlan::Idle
    }
}

/// The cached songs that are not among the upcoming ones, in order: the ones
/// to drop first when memory is short.
pub fn not_upcoming(cached: &Vec<u64>, upcoming: &Vec<u64>) -> (r: Vec<u64>)
    ensures
        r@ == cached@.filter(|id: u64| !upcoming@.contains(id)),
{
    let mut r: Vec<u64> = Vec::new();
    let mut i: usize = 0;
    while i < cached.len()
        invariant
            i <= cached.len(),
            r@ == cached@.subrange(0, i as int).filter(|id: u64| !upcoming@.contains(id)),
        decreases cached.len() - i,
    {
        let id = cached[i];
        let mut found = false;
        let mut j: usize = 0;
        while j < upcoming.len()
            invariant
                j <= upcoming.len(),
                found == upcoming@.subrange(0, j as int).contains(id),
            decreases upcoming.len() - j,
        {
            if upcoming[j] == id {
                found = true;
            }
            proof {
                let pre = upcoming@.subrange(0, j as int);
                let post = upcoming@.subrange(0, j + 1);
                assert(post =~= pre.push(upcoming@[j as int]));
                if upcoming@[j as int] == id {
                    assert(post[j as int] == id);
                } else {
                    if post.contains(id) {
                        let k = choose|k: int| 0 <= k < post.len() && post[k] == id;
                        assert(pre[k] == id);
                    }
                    if pre.contains(id) {
                        let k = choose|k: int| 0 <= k < pre.len() && pre[k] == id;
                        assert(post[k] == id);
                    }
                }
            }
            j += 1;
        }
        proof {
            assert(upcoming@.subrange(0, j as int) =~= upcoming@);
            assert(cached@.subrange(0, i + 1).drop_last() =~= cached@.subrange(0, i as int));
            reveal(Seq::filter);
        }
        if !found {
            r.push(id);
        }
        i += 1;
    }
    proof {
        assert(cached@.subrange(0, i as int) =~= cached@);
    }
    r
}

/// The elements of `s` whose flag in `failed` is not set, in order.
pub open spec fn kept<T>(s: Seq<T>, failed: Seq<bool>) -> Seq<T> {
    kept_suffix(s, failed, 0)
}

/// Removes the subscribers whose last send failed; the others keep their order.
pub fn remove_failed<T>(subscribers: &mut Vec<T>, failed: &Vec<bool>)
    requires
        failed.len() == old(subscribers).len(),
    ensures
        final(subscribers)@ == kept(old(subscribers)@, failed@),
{
    let ghost orig = subscribers@;
    let mut i = subscribers.len();
    proof {
        assert(orig.subrange(0, i as int) =~= orig);
        assert(orig.subrange(i as int, orig.len() as int) =~= Seq::<T>::empty());
    }
    while i > 0
        invariant
            i <= orig.len(),
            failed@.len() == orig.len(),
            subscribers@ == orig.subrange(0, i as int) + kept_suffix(orig, failed@, i as int),
        decreases i,
    {
        i -= 1;
        if failed[i] {
            subscribers.remove(i);
        }
        proof {
            lemma_kept_suffix(orig, failed@, i as int);
            assert(subscribers@ =~= orig.subrange(0, i as int) + kept_suffix(orig, failed@, i as int));
        }
    }
    proof {
        assert(subscribers@ =~= kept_suffix(orig, failed@, 0));
    }
}

/// The kept elements at positions from `i` on.
pub open spec fn kept_suffix<T>(s: Seq<T>, failed: Seq<bool>, i: int) -> Seq<T>
    decreases s.len() - i,
{
    if i < 0 || i >= s.len() {
        Seq::empty()
    } else if failed[i] {
        kept_suffix(s, failed, i + 1)
    } else {
        seq![s[i]] + kept_suffix(s, failed, i + 1)
    }
}

proof fn lemma_kept_suffix<T>(s: Seq<T>, failed: Seq<bool>, i: int)
    requires
        0 <= i < s.len(),
    ensures
        kept_suffix(s, failed, i) == if failed[i] {
            kept_suffix(s, failed, i + 1)
        } else {
            seq![s[i]] + kept_suffix(s, failed, i + 1)
        },
{
}

} // verus!

//! Lazy child loading. The interface asks for a node's details by id, and
//! the results arrive later through [`Loader::poll`]. Requests carry a
//! [`Priority`]: the item in focus is `High`, speculative one-level-deeper
//! peeks are `Low`.

use vstd::prelude::*;
use crate::source::{Loaded, Source};
use crate::text::{chars_of, eq_chars, push_str};
use crate::keymap::{Key, KeyMap};

verus! {

#[derive(Clone, Copy, PartialEq, Eq, Structural, Debug)]
pub enum Priority {
    High,
    Low,
}

pub struct LoadRequest {
    pub node_id: String,
    pub tool_id: String,
    pub command_path: Vec<String>,
    pub priority: Priority,
}

pub struct LoadOutcome {
    pub node_id: String,
    pub loaded: Result<Loaded, String>,
}

/// Something that resolves load requests, now or later.
pub trait Loader {
    /// Whether this loader answers every request on the next poll. A loader
    /// that promises nothing of when it answers keeps the default, `false`.
    open spec fn answers_at_once(&self) -> bool {
        false
    }

    /// The ids of the requests made and not yet handed back (stated only
    /// for a loader that answers at once).
    open spec fn queued(&self) -> Seq<Seq<char>> {
        Seq::empty()
    }

    fn request(&mut self, req: LoadRequest)
        ensures
            final(self).answers_at_once() == old(self).answers_at_once(),
            old(self).answers_at_once() ==> final(self).queued() == old(self).queued().push(req.node_id@),
    ;

    fn poll(&mut self) -> (r: Vec<LoadOutcome>)
        ensures
            final(self).answers_at_once() == old(self).answers_at_once(),
            old(self).answers_at_once() ==> final(self).queued().len() == 0 && outcome_ids(r@) == old(self).queued(),
    ;

    /// Resolve `req` at once iff it can be served cheaply (its help is
    /// already cached); `None` when a real fetch is needed.
    fn load_cached(&mut self, req: &LoadRequest) -> (r: Option<Result<Loaded, String>>)
        ensures
            final(self).answers_at_once() == old(self).answers_at_once(),
            old(self).answers_at_once() ==> final(self).queued() == old(self).queued(),
    ;
}

/// The node ids of `outs`, in order.
pub open spec fn outcome_ids(outs: Seq<LoadOutcome>) -> Seq<Seq<char>> {
    outs.map_values(|o: LoadOutcome| o.node_id@)
}

pub open spec fn no_source_message(tool_id: Seq<char>) -> Seq<char> {
    "no source for tool '"@ + tool_id + "'"@
}

/// What a load for a tool no source serves fails with.
pub fn no_source(tool_id: &str) -> (r: String)
    ensures
        r@ == no_source_message(tool_id@),
{
    let mut m = String::new();
    push_str(&mut m, "no source for tool '");
    push_str(&mut m, tool_id);
    push_str(&mut m, "'");
    m
}

/// The last of `ids` equal to `id`, or -1: sources are indexed by tool id,
/// a later one taking the place of an earlier one with the same id.
pub open spec fn last_index(ids: Seq<Seq<char>>, id: Seq<char>, n: int) -> int
    decreases n,
{
    if n <= 0 {
        -1
    } else if ids[n - 1] == id {
        n - 1
    } else {
        last_index(ids, id, n - 1)
    }
}

proof fn lemma_last_index_contains(ids: Seq<Seq<char>>, id: Seq<char>, n: int)
    requires
        0 <= n <= ids.len(),
    ensures
        last_index(ids, id, n) != -1 <==> ids.take(n).contains(id),
    decreases n,
{
    if n > 0 {
        lemma_last_index_contains(ids, id, n - 1);
        let t = ids.take(n);
        assert(ids.take(n - 1) =~= t.drop_last());
        if ids[n - 1] == id {
            assert(t[n - 1] == id);
        } else {
            if t.contains(id) {
                let k = choose|k: int| 0 <= k < t.len() && t[k] == id;
                assert(ids.take(n - 1)[k] == id);
            }
            if ids.take(n - 1).contains(id) {
                let k = choose|k: int| 0 <= k < n - 1 && #[trigger] ids.take(n - 1)[k] == id;
                assert(t[k] == id);
            }
        }
    } else {
        assert(ids.take(0) =~= Seq::<Seq<char>>::empty());
    }
}

proof fn lemma_last_index(ids: Seq<Seq<char>>, id: Seq<char>, n: int)
    ensures
        last_index(ids, id, n) == -1 || (0 <= last_index(ids, id, n) < n && ids[last_index(ids, id, n)]
            == id),
    decreases n,
{
    if n > 0 && ids[n - 1] != id {
        lemma_last_index(ids, id, n - 1);
    }
}

/// Resolves requests inline and queues the outcomes for the next `poll`;
/// loading is then deterministic, without threads or timing.
pub struct SyncLoader<S: Source> {
    ids: Vec<String>,
    sources: Vec<S>,
    pending: Vec<LoadOutcome>,
}

impl<S: Source> SyncLoader<S> {
    pub closed spec fn wf(&self) -> bool {
        self.ids@.len() == self.sources@.len()
    }

    pub closed spec fn id_view(&self) -> Seq<Seq<char>> {
        self.ids@.map_values(|s: String| s@)
    }

    /// Outcomes resolved and not yet polled, by node id.
    pub closed spec fn pending_ids(&self) -> Seq<Seq<char>> {
        self.pending@.map_values(|o: LoadOutcome| o.node_id@)
    }

    /// Outcomes resolved and not yet polled, in the order they were asked for.
    pub closed spec fn outcomes(&self) -> Seq<LoadOutcome> {
        self.pending@
    }

    /// Whether a source serves the tool `tool_id`.
    pub open spec fn serves(&self, tool_id: Seq<char>) -> bool {
        self.id_view().contains(tool_id)
    }

    proof fn lemma_serves(&self, tool_id: Seq<char>)
        ensures
            self.serves(tool_id) <==> last_index(self.id_view(), tool_id, self.ids@.len() as int) != -1,
    {
        lemma_last_index_contains(self.id_view(), tool_id, self.ids@.len() as int);
        assert(self.id_view().take(self.ids@.len() as int) =~= self.id_view());
    }

    pub fn new(sources: Vec<S>) -> (r: Self)
        ensures
            r.wf(),
            r.id_view().len() == sources@.len(),
            r.pending_ids().len() == 0,
            r.outcomes().len() == 0,
    {
        let mut ids: Vec<String> = Vec::new();
        let mut i: usize = 0;
        while i < sources.len()
            invariant
                i <= sources@.len(),
                ids@.len() == i,
            decreases sources@.len() - i,
        {
            ids.push(sources[i].tool_id());
            i += 1;
        }
        let r = SyncLoader { ids, sources, pending: Vec::new() };
        assert(r.pending_ids() =~= Seq::<Seq<char>>::empty());
        r
    }

    fn find(&self, tool_id: &String) -> (r: Option<usize>)
        requires
            self.wf(),
        ensures
            match r {
                Some(i) => i as int == last_index(self.id_view(), tool_id@, self.ids@.len() as int)
                    && i < self.sources@.len(),
                None => last_index(self.id_view(), tool_id@, self.ids@.len() as int) == -1,
            },
    {
        let want = chars_of(tool_id.as_str());
        let mut n: usize = self.ids.len();
        while n > 0
            invariant
                n <= self.ids@.len(),
                self.wf(),
                want@ == tool_id@,
                last_index(self.id_view(), tool_id@, self.ids@.len() as int) == last_index(
                    self.id_view(),
                    tool_id@,
                    n as int,
                ),
            decreases n,
        {
            let c = chars_of(self.ids[n - 1].as_str());
            if eq_chars(c.as_slice(), want.as_slice()) {
                assert(self.id_view()[n - 1] == tool_id@);
                assert(last_index(self.id_view(), tool_id@, n as int) == n - 1);
                return Some(n - 1);
            }
            assert(self.id_view()[n - 1] != tool_id@);
            n -= 1;
        }
        None
    }

    fn run(&self, req: &LoadRequest) -> (r: Result<Loaded, String>)
        requires
            self.wf(),
        ensures
            last_index(self.id_view(), req.tool_id@, self.ids@.len() as int) == -1 ==> (r matches Err(
                m,
            ) && m@ == no_source_message(req.tool_id@)),
    {
        match self.find(&req.tool_id) {
            Some(i) => self.sources[i].load(req.command_path.as_slice()),
            None => Err(no_source(req.tool_id.as_str())),
        }
    }
}

impl<S: Source> Loader for SyncLoader<S> {
    open spec fn answers_at_once(&self) -> bool {
        self.wf()
    }

    open spec fn queued(&self) -> Seq<Seq<char>> {
        outcome_ids(self.outcomes())
    }

    /// Resolve `req` at once and queue its outcome; a tool no source serves
    /// gets an error naming it.
    fn request(&mut self, req: LoadRequest)
        ensures
            final(self).wf() == old(self).wf(),
            final(self).id_view() == old(self).id_view(),
            !old(self).wf() ==> final(self).outcomes() == old(self).outcomes(),
            old(self).wf() ==> ({
                let o = final(self).outcomes();
                &&& o.len() == old(self).outcomes().len() + 1
                &&& o.drop_last() == old(self).outcomes()
                &&& o.last().node_id@ == req.node_id@
                &&& !old(self).serves(req.tool_id@) ==> (o.last().loaded matches Err(m) && m@ == no_source_message(req.tool_id@))
            }),
    {
        proof {
            old(self).lemma_serves(req.tool_id@);
        }
        if self.ids.len() == self.sources.len() {
            let loaded = self.run(&req);
            self.pending.push(LoadOutcome { node_id: req.node_id, loaded });
        }
    }

    /// Hand over every queued outcome, in the order asked for.
    fn poll(&mut self) -> (r: Vec<LoadOutcome>)
        ensures
            r@ == old(self).outcomes(),
            final(self).outcomes().len() == 0,
            final(self).wf() == old(self).wf(),
            final(self).id_view() == old(self).id_view(),
    {
        let mut out: Vec<LoadOutcome> = Vec::new();
        std::mem::swap(&mut out, &mut self.pending);
        out
    }

    /// A tool no source serves has nothing cached.
    fn load_cached(&mut self, req: &LoadRequest) -> (r: Option<Result<Loaded, String>>)
        ensures
            *final(self) == *old(self),
            !(old(self).wf() && old(self).serves(req.tool_id@)) ==> r is None,
    {
        proof {
            self.lemma_serves(req.tool_id@);
        }
        if self.ids.len() != self.sources.len() {
            return None;
        }
        match self.find(&req.tool_id) {
            Some(i) => {
                if self.sources[i].cached(req.command_path.as_slice()) {
                    Some(self.sources[i].load(req.command_path.as_slice()))
                } else {
                    None
                }
            },
            None => None,
        }
    }
}

// ---------------------------------------------------------------------------
// The bag of requests workers take from
// ---------------------------------------------------------------------------

pub open spec fn id_of(r: LoadRequest) -> Seq<Seq<char>> {
    seq![r.node_id@]
}

/// The first position in `q` of a request for node `k`, or -1.
pub open spec fn index_of_id(q: Seq<LoadRequest>, k: Seq<Seq<char>>, i: int) -> int
    decreases q.len() - i,
{
    if i < 0 || i >= q.len() {
        -1
    } else if id_of(q[i]) == k {
        i
    } else {
        index_of_id(q, k, i + 1)
    }
}

proof fn lemma_index_of_id(q: Seq<LoadRequest>, k: Seq<Seq<char>>, i: int)
    requires
        0 <= i,
    ensures
        index_of_id(q, k, i) == -1 || (i <= index_of_id(q, k, i) < q.len() && id_of(q[index_of_id(q, k, i)]) == k),
        index_of_id(q, k, i) == -1 ==> forall|j: int| i <= j < q.len() ==> id_of(#[trigger] q[j]) != k,
    decreases q.len() - i,
{
    if i < q.len() && id_of(q[i]) != k {
        lemma_index_of_id(q, k, i + 1);
    }
}

pub struct BagV {
    pub high: Seq<LoadRequest>,
    pub low: Seq<LoadRequest>,
    pub queued: Map<Seq<Seq<char>>, Priority>,
    pub in_flight: Set<Seq<Seq<char>>>,
    pub closed: bool,
}

/// The bag after `req` is put in. A node already in flight, or already
/// queued at the same or a higher priority, is not queued again; a node
/// queued low and asked for high moves to the high queue.
pub open spec fn put_of(b: BagV, req: LoadRequest) -> BagV {
    let k = id_of(req);
    if b.in_flight.contains(k) {
        b
    } else if b.queued.contains_key(k) && (b.queued[k] == Priority::High || req.priority == Priority::Low) {
        b
    } else if b.queued.contains_key(k) {
        BagV {
            low: b.low.remove(index_of_id(b.low, k, 0)),
            high: b.high.push(req),
            queued: b.queued.insert(k, Priority::High),
            ..b
        }
    } else if req.priority == Priority::High {
        BagV { high: b.high.push(req), queued: b.queued.insert(k, Priority::High), ..b }
    } else {
        BagV { low: b.low.push(req), queued: b.queued.insert(k, Priority::Low), ..b }
    }
}

/// What a worker takes: nothing once the bag is closed; else the oldest
/// high-priority request, else the oldest low one, which is then in flight.
pub open spec fn take_of(b: BagV) -> (BagV, Option<LoadRequest>) {
    if b.closed {
        (b, None)
    } else if b.high.len() > 0 {
        let r = b.high[0];
        (BagV { high: b.high.skip(1), queued: b.queued.remove(id_of(r)), in_flight: b.in_flight.insert(id_of(r)), ..b }, Some(r))
    } else if b.low.len() > 0 {
        let r = b.low[0];
        (BagV { low: b.low.skip(1), queued: b.queued.remove(id_of(r)), in_flight: b.in_flight.insert(id_of(r)), ..b }, Some(r))
    } else {
        (b, None)
    }
}

/// Every queued node is queued once, in the queue of its priority, and
/// none is queued while in flight.
pub open spec fn bag_wf(b: BagV) -> bool {
    &&& forall|i: int, j: int| 0 <= i < j < b.high.len() ==> id_of(#[trigger] b.high[i]) != id_of(#[trigger] b.high[j])
    &&& forall|i: int, j: int| 0 <= i < j < b.low.len() ==> id_of(#[trigger] b.low[i]) != id_of(#[trigger] b.low[j])
    &&& forall|i: int| 0 <= i < b.high.len() ==> b.queued.contains_key(id_of(#[trigger] b.high[i])) && b.queued[id_of(b.high[i])] == Priority::High && b.high[i].priority == Priority::High
    &&& forall|i: int| 0 <= i < b.low.len() ==> b.queued.contains_key(id_of(#[trigger] b.low[i])) && b.queued[id_of(b.low[i])] == Priority::Low && b.low[i].priority == Priority::Low
    &&& forall|k: Seq<Seq<char>>| #[trigger] b.queued.contains_key(k) ==> !b.in_flight.contains(k) && (
        (b.queued[k] == Priority::High && exists|i: int| 0 <= i < b.high.len() && id_of(#[trigger] b.high[i]) == k)
        || (b.queued[k] == Priority::Low && exists|i: int| 0 <= i < b.low.len() && id_of(#[trigger] b.low[i]) == k))
}

/// Putting a request in keeps every node queued at most once and never
/// while in flight.
pub proof fn lemma_put_keeps_bag(b: BagV, req: LoadRequest)
    requires
        bag_wf(b),
    ensures
        bag_wf(put_of(b, req)),
{
    let k = id_of(req);
    lemma_index_of_id(b.low, k, 0);
    let b2 = put_of(b, req);
    if !b.in_flight.contains(k) && !(b.queued.contains_key(k) && (b.queued[k] == Priority::High || req.priority == Priority::Low)) {
        if b.queued.contains_key(k) {
            let w = choose|i: int| 0 <= i < b.low.len() && id_of(#[trigger] b.low[i]) == k;
            let x = index_of_id(b.low, k, 0);
            assert(x != -1);
            assert forall|i: int| 0 <= i < b.high.len() implies id_of(#[trigger] b.high[i]) != k by {}
            assert forall|i: int| 0 <= i < b2.low.len() implies id_of(#[trigger] b2.low[i]) != k by {
                let i0 = if i < x { i } else { i + 1 };
                assert(b2.low[i] == b.low[i0]);
                if i0 != x {
                    assert(id_of(b.low[i0]) != id_of(b.low[x]) || i0 == x);
                }
            }
            assert forall|i: int, j: int| 0 <= i < j < b2.low.len() implies id_of(#[trigger] b2.low[i]) != id_of(#[trigger] b2.low[j]) by {
                let i0 = if i < x { i } else { i + 1 };
                let j0 = if j < x { j } else { j + 1 };
                assert(b2.low[i] == b.low[i0]);
                assert(b2.low[j] == b.low[j0]);
            }
            assert forall|i: int| 0 <= i < b2.low.len() implies b2.queued.contains_key(id_of(#[trigger] b2.low[i])) && b2.queued[id_of(b2.low[i])] == Priority::Low && b2.low[i].priority == Priority::Low by {
                let i0 = if i < x { i } else { i + 1 };
                assert(b2.low[i] == b.low[i0]);
                assert(id_of(b2.low[i]) != k);
            }
            assert forall|q: Seq<Seq<char>>| #[trigger] b2.queued.contains_key(q) implies !b2.in_flight.contains(q) && (
                (b2.queued[q] == Priority::High && exists|i: int| 0 <= i < b2.high.len() && id_of(#[trigger] b2.high[i]) == q)
                || (b2.queued[q] == Priority::Low && exists|i: int| 0 <= i < b2.low.len() && id_of(#[trigger] b2.low[i]) == q)) by {
                if q == k {
                    assert(id_of(b2.high[b2.high.len() - 1]) == q);
                } else if b.queued[q] == Priority::High {
                    let i = choose|i: int| 0 <= i < b.high.len() && id_of(#[trigger] b.high[i]) == q;
                    assert(b2.high[i] == b.high[i]);
                } else {
                    let i = choose|i: int| 0 <= i < b.low.len() && id_of(#[trigger] b.low[i]) == q;
                    assert(i != x);
                    let i1 = if i < x { i } else { i - 1 };
                    assert(b2.low[i1] == b.low[i]);
                }
            }
        } else {
            assert forall|i: int| 0 <= i < b.high.len() implies id_of(#[trigger] b.high[i]) != k by {}
            assert forall|i: int| 0 <= i < b.low.len() implies id_of(#[trigger] b.low[i]) != k by {}
            assert forall|q: Seq<Seq<char>>| #[trigger] b2.queued.contains_key(q) implies !b2.in_flight.contains(q) && (
                (b2.queued[q] == Priority::High && exists|i: int| 0 <= i < b2.high.len() && id_of(#[trigger] b2.high[i]) == q)
                || (b2.queued[q] == Priority::Low && exists|i: int| 0 <= i < b2.low.len() && id_of(#[trigger] b2.low[i]) == q)) by {
                if q == k {
                    if req.priority == Priority::High {
                        assert(id_of(b2.high[b2.high.len() - 1]) == q);
                    } else {
                        assert(id_of(b2.low[b2.low.len() - 1]) == q);
                    }
                } else if b.queued[q] == Priority::High {
                    let i = choose|i: int| 0 <= i < b.high.len() && id_of(#[trigger] b.high[i]) == q;
                    assert(b2.high[i] == b.high[i]);
                } else {
                    let i = choose|i: int| 0 <= i < b.low.len() && id_of(#[trigger] b.low[i]) == q;
                    assert(b2.low[i] == b.low[i]);
                }
            }
        }
    }
}

/// Taking a request out keeps every node queued at most once and never
/// while in flight.
pub proof fn lemma_take_keeps_bag(b: BagV)
    requires
        bag_wf(b),
    ensures
        bag_wf(take_of(b).0),
{
    let b2 = take_of(b).0;
    if !b.closed && b.high.len() > 0 {
        let k = id_of(b.high[0]);
        assert forall|i: int| 0 <= i < b.low.len() implies id_of(#[trigger] b.low[i]) != k by {
            assert(b.queued[id_of(b.high[0])] == Priority::High);
        }
        assert forall|q: Seq<Seq<char>>| #[trigger] b2.queued.contains_key(q) implies !b2.in_flight.contains(q) && (
            (b2.queued[q] == Priority::High && exists|i: int| 0 <= i < b2.high.len() && id_of(#[trigger] b2.high[i]) == q)
            || (b2.queued[q] == Priority::Low && exists|i: int| 0 <= i < b2.low.len() && id_of(#[trigger] b2.low[i]) == q)) by {
            if b.queued[q] == Priority::High {
                let i = choose|i: int| 0 <= i < b.high.len() && id_of(#[trigger] b.high[i]) == q;
                assert(i != 0);
                assert(b2.high[i - 1] == b.high[i]);
            }
        }
        assert forall|i: int| 0 <= i < b2.high.len() implies b2.queued.contains_key(id_of(#[trigger] b2.high[i])) && b2.queued[id_of(b2.high[i])] == Priority::High && b2.high[i].priority == Priority::High by {
            assert(b2.high[i] == b.high[i + 1]);
            assert(id_of(b.high[0]) != id_of(b.high[i + 1]));
        }
        assert forall|i: int, j: int| 0 <= i < j < b2.high.len() implies id_of(#[trigger] b2.high[i]) != id_of(#[trigger] b2.high[j]) by {
            assert(b2.high[i] == b.high[i + 1]);
            assert(b2.high[j] == b.high[j + 1]);
        }
    } else if !b.closed && b.low.len() > 0 {
        let k = id_of(b.low[0]);
        assert forall|q: Seq<Seq<char>>| #[trigger] b2.queued.contains_key(q) implies !b2.in_flight.contains(q) && (
            (b2.queued[q] == Priority::High && exists|i: int| 0 <= i < b2.high.len() && id_of(#[trigger] b2.high[i]) == q)
            || (b2.queued[q] == Priority::Low && exists|i: int| 0 <= i < b2.low.len() && id_of(#[trigger] b2.low[i]) == q)) by {
            if b.queued[q] == Priority::Low {
                let i = choose|i: int| 0 <= i < b.low.len() && id_of(#[trigger] b.low[i]) == q;
                assert(i != 0);
                assert(b2.low[i - 1] == b.low[i]);
            }
        }
        assert forall|i: int| 0 <= i < b2.low.len() implies b2.queued.contains_key(id_of(#[trigger] b2.low[i])) && b2.queued[id_of(b2.low[i])] == Priority::Low && b2.low[i].priority == Priority::Low by {
            assert(b2.low[i] == b.low[i + 1]);
            assert(id_of(b.low[0]) != id_of(b.low[i + 1]));
        }
        assert forall|i: int, j: int| 0 <= i < j < b2.low.len() implies id_of(#[trigger] b2.low[i]) != id_of(#[trigger] b2.low[j]) by {
            assert(b2.low[i] == b.low[i + 1]);
            assert(b2.low[j] == b.low[j + 1]);
        }
    }
}

fn find_id(q: &Vec<LoadRequest>, id: &String) -> (r: Option<usize>)
    ensures
        match r {
            Some(i) => i as int == index_of_id(q@, seq![id@], 0) && i < q@.len(),
            None => index_of_id(q@, seq![id@], 0) == -1,
        },
{
    let ghost k = seq![id@];
    let mut i: usize = 0;
    while i < q.len()
        invariant
            i <= q@.len(),
            k == seq![id@],
            index_of_id(q@, k, 0) == index_of_id(q@, k, i as int),
        decreases q@.len() - i,
    {
        assert(id_of(q@[i as int])[0] == q@[i as int].node_id@);
        if q[i].node_id == *id {
            assert(id_of(q@[i as int]) =~= k);
            return Some(i);
        }
        i += 1;
    }
    None
}

/// The requests waiting for a worker, and the nodes being loaded.
pub struct BagState {
    high: Vec<LoadRequest>,
    low: Vec<LoadRequest>,
    queued: KeyMap<String, Priority>,
    in_flight: KeyMap<String, bool>,
    closed: bool,
}

impl View for BagState {
    type V = BagV;

    closed spec fn view(&self) -> BagV {
        BagV {
            high: self.high@,
            low: self.low@,
            queued: self.queued.map(),
            in_flight: self.in_flight.map().dom(),
            closed: self.closed,
        }
    }
}

impl BagState {
    pub closed spec fn inv(&self) -> bool {
        self.queued.wf() && self.in_flight.wf() && bag_wf(self@)
    }

    pub fn new() -> (r: Self)
        ensures
            r.inv(),
            r@ == (BagV { high: seq![], low: seq![], queued: Map::empty(), in_flight: Set::empty(), closed: false }),
    {
        let r = BagState { high: Vec::new(), low: Vec::new(), queued: KeyMap::new(), in_flight: KeyMap::new(), closed: false };
        assert(r@.in_flight =~= Set::<Seq<Seq<char>>>::empty());
        assert(r@.high =~= Seq::<LoadRequest>::empty());
        assert(r@.low =~= Seq::<LoadRequest>::empty());
        r
    }

    pub fn is_closed(&self) -> (r: bool)
        ensures
            r == self@.closed,
    {
        self.closed
    }

    /// Put a request in the bag.
    pub fn put(&mut self, req: LoadRequest)
        requires
            old(self).inv(),
        ensures
            final(self).inv(),
            final(self)@ == put_of(old(self)@, req),
    {
        let ghost b0 = self@;
        let ghost k = id_of(req);
        proof {
            lemma_put_keeps_bag(b0, req);
        }
        if self.in_flight.contains(&req.node_id) {
            return;
        }
        match self.queued.get(&req.node_id) {
            Some(p) => {
                if *p == Priority::High || req.priority == Priority::Low {
                    return;
                }
                let pos = match find_id(&self.low, &req.node_id) {
                    Some(i) => i,
                    None => {
                        proof {
                            let w = choose|i: int| 0 <= i < b0.low.len() && id_of(#[trigger] b0.low[i]) == k;
                            lemma_index_of_id(b0.low, k, 0);
                        }
                        return;
                    },
                };
                self.low.remove(pos);
            },
            None => {},
        }
        let ghost q0 = self.queued.map();
        self.queued.insert(req.node_id.clone(), req.priority);
        match req.priority {
            Priority::High => {
                self.high.push(req);
            },
            Priority::Low => {
                self.low.push(req);
            },
        }
        proof {
            assert(self@.in_flight =~= b0.in_flight);
        }
    }

    /// Take the next request, which is then in flight; `None` once the bag
    /// is closed or while it is empty.
    pub fn take(&mut self) -> (r: Option<LoadRequest>)
        requires
            old(self).inv(),
        ensures
            final(self).inv(),
            (final(self)@, r) == take_of(old(self)@),
    {
        let ghost b0 = self@;
        proof {
            lemma_take_keeps_bag(b0);
        }
        if self.closed {
            return None;
        }
        let r = if self.high.len() > 0 {
            self.high.remove(0)
        } else if self.low.len() > 0 {
            self.low.remove(0)
        } else {
            return None;
        };
        let ghost k = id_of(r);
        self.queued.remove(&r.node_id);
        self.in_flight.insert(r.node_id.clone(), true);
        proof {
            assert(self@.in_flight =~= b0.in_flight.insert(k));
            if b0.high.len() > 0 {
                assert(self@.high =~= b0.high.skip(1));
            } else {
                assert(self@.low =~= b0.low.skip(1));
            }
        }
        Some(r)
    }

    /// The load of node `id` is over.
    pub fn done(&mut self, id: &String)
        requires
            old(self).inv(),
        ensures
            final(self).inv(),
            final(self)@ == (BagV { in_flight: old(self)@.in_flight.remove(seq![id@]), ..old(self)@ }),
    {
        let ghost b0 = self@;
        self.in_flight.remove(id);
        assert(self@.in_flight =~= b0.in_flight.remove(seq![id@]));
    }

    /// No more requests are handed out.
    pub fn close(&mut self)
        requires
            old(self).inv(),
        ensures
            final(self).inv(),
            final(self)@ == (BagV { closed: true, ..old(self)@ }),
    {
        self.closed = true;
    }
}

} // verus!

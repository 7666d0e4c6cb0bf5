//! The queue of glTF files that were asked for and wait for their assets to
//! load: files are unpacked one at a time, in the order they were asked for.
use vstd::prelude::*;

verus! {

/// A request to unpack the glTF file at `path`, its roots attached to the
/// entity `parent` where there is one.
pub struct EditorUnpackGltf {
    pub path: String,
    pub parent: Option<u64>,
}

/// The glTF files waiting to be unpacked: each asset handle with the entity
/// that its roots are attached to, oldest first.
pub struct GltfSceneQueue {
    entries: Vec<(u64, Option<u64>)>,
}

impl View for GltfSceneQueue {
    type V = Seq<(u64, Option<u64>)>;

    closed spec fn view(&self) -> Seq<(u64, Option<u64>)> {
        self.entries@
    }
}

/// What one step of the queue hands out, and the queue after it: the oldest
/// entry leaves once its asset has loaded; until then nothing leaves.
pub open spec fn advance_spec(q: Seq<(u64, Option<u64>)>, front_loaded: bool) -> (Option<(u64, Option<u64>)>, Seq<(u64, Option<u64>)>) {
    if q.len() > 0 && front_loaded {
        (Some(q[0]), q.drop_first())
    } else {
        (None, q)
    }
}

impl GltfSceneQueue {
    /// An empty queue.
    pub fn new() -> (q: Self)
        ensures
            q@ == Seq::<(u64, Option<u64>)>::empty(),
    {
        GltfSceneQueue { entries: Vec::new() }
    }

    /// The number of waiting files.
    pub fn len(&self) -> (r: usize)
        ensures
            r == self@.len(),
    {
        self.entries.len()
    }

    /// Adds a file at the back of the queue.
    pub fn push(&mut self, handle: u64, parent: Option<u64>)
        ensures
            final(self)@ == old(self)@.push((handle, parent)),
    {
        self.entries.push((handle, parent));
    }

    /// Adds the files of `requests` at the back of the queue, in order.
    pub fn push_requests(&mut self, requests: &Vec<(u64, Option<u64>)>)
        ensures
            final(self)@ == old(self)@ + requests@,
    {
        let mut i: usize = 0;
        while i < requests.len()
            invariant
                i <= requests.len(),
                self@ == old(self)@ + requests@.take(i as int),
            decreases requests.len() - i,
        {
            self.entries.push(requests[i]);
            proof {
                assert(requests@.take(i + 1) =~= requests@.take(i as int).push(requests@[i as int]));
            }
            i += 1;
        }
        proof {
            assert(requests@.take(requests.len() as int) =~= requests@);
        }
    }

    /// The oldest waiting file, if any.
    pub fn front(&self) -> (r: Option<(u64, Option<u64>)>)
        ensures
            r == (if self@.len() > 0 { Some(self@[0]) } else { None }),
    {
        if self.entries.len() > 0 {
            Some(self.entries[0])
        } else {
            None
        }
    }

    /// Whether a file with this asset handle is waiting.
    pub fn contains(&self, handle: u64) -> (r: bool)
        ensures
            r == exists|i: int| 0 <= i < self@.len() && (#[trigger] self@[i]).0 == handle,
    {
        let mut i: usize = 0;
        while i < self.entries.len()
            invariant
                i <= self.entries.len(),
                forall|j: int| 0 <= j < i ==> (#[trigger] self@[j]).0 != handle,
            decreases self.entries.len() - i,
        {
            if self.entries[i].0 == handle {
                assert(self@[i as int].0 == handle);
                return true;
            }
            i += 1;
        }
        false
    }

    /// One step of the queue, given whether the asset of the oldest file has
    /// loaded: that file is handed out and leaves the queue; otherwise
    /// nothing happens.
    pub fn advance(&mut self, front_loaded: bool) -> (r: Option<(u64, Option<u64>)>)
        ensures
            r == advance_spec(old(self)@, front_loaded).0,
            final(self)@ == advance_spec(old(self)@, front_loaded).1,
    {
        if self.entries.len() > 0 && front_loaded {
            let first = self.entries.remove(0);
            proof {
                assert(self@ =~= old(self)@.drop_first());
            }
            Some(first)
        } else {
            None
        }
    }
}

/// Adding a file at the back does not change which file leaves next, and it
/// stays at the back: the queue is first in, first out.
pub proof fn lemma_queue_fifo(q: Seq<(u64, Option<u64>)>, x: (u64, Option<u64>), front_loaded: bool)
    requires
        q.len() > 0,
    ensures
        advance_spec(q.push(x), front_loaded).0 == advance_spec(q, front_loaded).0,
        advance_spec(q.push(x), front_loaded).1 == advance_spec(q, front_loaded).1.push(x),
{
    assert(q.push(x).drop_first() =~= q.drop_first().push(x));
}

/// A file added to an empty queue leaves at the first step after its asset
/// has loaded, and the queue is empty again.
pub proof fn lemma_queue_single(x: (u64, Option<u64>))
    ensures
        advance_spec(Seq::empty().push(x), true).0 == Some(x),
        advance_spec(Seq::empty().push(x), true).1 == Seq::<(u64, Option<u64>)>::empty(),
{
    assert(Seq::<(u64, Option<u64>)>::empty().push(x).drop_first() =~= Seq::<(u64, Option<u64>)>::empty());
}

/// `k` steps of the queue, each with the oldest asset loaded: the files
/// handed out, in order, and the queue left.
pub open spec fn advance_times(q: Seq<(u64, Option<u64>)>, k: nat) -> (Seq<(u64, Option<u64>)>, Seq<(u64, Option<u64>)>)
    decreases k,
{
    if k == 0 {
        (Seq::empty(), q)
    } else {
        let prev = advance_times(q, (k - 1) as nat);
        let step = advance_spec(prev.1, true);
        match step.0 {
            Some(x) => (prev.0.push(x), step.1),
            None => prev,
        }
    }
}

/// Files leave in the order they were queued: `k` loaded steps hand out the
/// first `k` files and leave the rest.
pub proof fn lemma_queue_drains_in_order(q: Seq<(u64, Option<u64>)>, k: nat)
    requires
        k <= q.len(),
    ensures
        advance_times(q, k).0 == q.take(k as int),
        advance_times(q, k).1 == q.skip(k as int),
    decreases k,
{
    if k > 0 {
        lemma_queue_drains_in_order(q, (k - 1) as nat);
        let prev = advance_times(q, (k - 1) as nat);
        assert(prev.1[0] == q[k - 1]);
        assert(q.take(k as int) =~= q.take(k - 1).push(q[k - 1]));
        assert(q.skip(k - 1).drop_first() =~= q.skip(k as int));
    } else {
        assert(q.take(0) =~= Seq::<(u64, Option<u64>)>::empty());
        assert(q.skip(0) =~= q);
    }
}

/// A step taken before the oldest file's asset has loaded hands out nothing
/// and leaves the queue as it was; a step that hands a file out hands out
/// the oldest one, only once its asset has loaded, and removes exactly it.
pub proof fn lemma_queue_waits_for_load(q: Seq<(u64, Option<u64>)>, front_loaded: bool)
    ensures
        advance_spec(q, false).0 is None,
        advance_spec(q, false).1 == q,
        advance_spec(q, front_loaded).0 is Some ==> {
            &&& front_loaded
            &&& q.len() > 0
            &&& advance_spec(q, front_loaded).0 == Some(q[0])
            &&& advance_spec(q, front_loaded).1.len() == q.len() - 1
            &&& forall|i: int| 0 <= i < q.len() - 1 ==> #[trigger] advance_spec(q, front_loaded).1[i] == q[i + 1]
        },
        advance_spec(q, front_loaded).0 is None ==> advance_spec(q, front_loaded).1 == q,
        q.len() > 0 && front_loaded ==> advance_spec(q, front_loaded).0 is Some,
{
}

} // verus!

//! The fan-out hub: one publisher, many subscribers.
//!
//! The hub holds the current roster set. A subscriber that attaches is
//! handed the current set first, and then every set that is published
//! after, in the order of publishing and each once. Each subscriber has a
//! backlog of at most `BACKLOG` pending sets; one that falls further behind
//! loses the oldest of them.

use crate::roster_set::{clone_set, RosterSet, RosterSetView};
use std::collections::VecDeque;
use vstd::prelude::*;

verus! {

/// The most sets that can wait for one subscriber.
pub const BACKLOG: usize = 100;

/// The last `n` items of `q`; all of `q` where it has no more than `n`.
pub open spec fn keep_last<T>(q: Seq<T>, n: nat) -> Seq<T> {
    if q.len() > n {
        q.skip(q.len() - n)
    } else {
        q
    }
}

/// The state of a hub: the current set, what waits for each attached
/// subscriber (oldest first), and whether the hub has been closed.
pub struct HubView {
    pub current: RosterSetView,
    pub backlogs: Map<int, Seq<RosterSetView>>,
    pub closed: bool,
}

impl HubView {
    /// Whether subscriber `id` is attached.
    pub open spec fn attached(self, id: int) -> bool {
        self.backlogs.contains_key(id)
    }

    /// The hub after `value` was published: it is the current set, and the
    /// newest in every backlog. A closed hub publishes nothing.
    pub open spec fn publish(self, value: RosterSetView) -> HubView {
        if self.closed {
            self
        } else {
            HubView {
                current: value,
                backlogs: self.backlogs.map_values(
                    |q: Seq<RosterSetView>| keep_last(q.push(value), BACKLOG as nat),
                ),
                closed: false,
            }
        }
    }

    /// Whether no backlog is over the bound, as in every hub.
    pub open spec fn bounded(self) -> bool {
        forall|id: int| self.attached(id) ==> (#[trigger] self.backlogs[id]).len() <= BACKLOG
    }

    /// Whether `id` is the handle that the next subscriber gets: the least
    /// one that is not attached.
    pub open spec fn is_next_handle(self, id: int) -> bool {
        &&& 0 <= id
        &&& !self.attached(id)
        &&& forall|j: int| 0 <= j < id ==> self.attached(j)
    }

    /// The hub after a subscriber attached as `id`: the current set waits
    /// for it.
    pub open spec fn attach(self, id: int) -> HubView {
        HubView { backlogs: self.backlogs.insert(id, seq![self.current]), ..self }
    }

    /// The hub after subscriber `id` was handed the oldest of its backlog.
    pub open spec fn pop(self, id: int) -> HubView {
        HubView { backlogs: self.backlogs.insert(id, self.backlogs[id].skip(1)), ..self }
    }

    /// The hub after subscriber `id` detached.
    pub open spec fn detach(self, id: int) -> HubView {
        HubView { backlogs: self.backlogs.remove(id), ..self }
    }

    /// The hub after it was closed.
    pub open spec fn close(self) -> HubView {
        HubView { closed: true, ..self }
    }

    /// The hub after the values were published one after the other.
    pub open spec fn publish_all(self, values: Seq<RosterSetView>) -> HubView
        decreases values.len(),
    {
        if values.len() == 0 {
            self
        } else {
            self.publish_all(values.drop_last()).publish(values.last())
        }
    }
}

/// What a subscriber is handed when it asks for its next set.
#[derive(Debug)]
pub enum Delivery {
    /// The oldest set of its backlog.
    Value(RosterSet),
    /// Nothing waits for it yet.
    Empty,
    /// Nothing waits for it, and nothing will: the hub is closed.
    Closed,
    /// The handle is not attached.
    Detached,
}

/// The fan-out hub.
#[derive(Debug)]
pub struct Hub {
    current: RosterSet,
    slots: Vec<Option<VecDeque<RosterSet>>>,
    closed: bool,
}

/// The sets of a backlog, oldest first.
spec fn queue_view(q: VecDeque<RosterSet>) -> Seq<RosterSetView> {
    Seq::new(q@.len(), |k: int| q@[k]@)
}

/// Whether a backlog is in good order: within the bound, and each set a
/// table in good order.
spec fn queue_wf(q: VecDeque<RosterSet>) -> bool {
    &&& q@.len() <= BACKLOG
    &&& forall|k: int| 0 <= k < q@.len() ==> (#[trigger] q@[k]).wf()
}

impl View for Hub {
    type V = HubView;

    closed spec fn view(&self) -> HubView {
        HubView {
            current: self.current@,
            backlogs: Map::new(
                |id: int| 0 <= id < self.slots@.len() && self.slots@[id] is Some,
                |id: int| queue_view(self.slots@[id]->0),
            ),
            closed: self.closed,
        }
    }
}

impl Hub {
    /// What every hub keeps: the current set and every waiting set are
    /// tables in good order, and no backlog is over the bound.
    pub closed spec fn wf(&self) -> bool {
        &&& self.current.wf()
        &&& forall|i: int|
            0 <= i < self.slots@.len() && (#[trigger] self.slots@[i]) is Some ==> queue_wf(
                self.slots@[i]->0,
            )
    }

    /// A hub that holds `initial` as its current set, with no subscriber.
    pub fn new(initial: RosterSet) -> (hub: Self)
        requires
            initial.wf(),
        ensures
            hub.wf(),
            hub@.current == initial@,
            hub@.backlogs == Map::<int, Seq<RosterSetView>>::empty(),
            !hub@.closed,
    {
        let hub = Hub { current: initial, slots: Vec::new(), closed: false };
        assert(hub@.backlogs =~= Map::<int, Seq<RosterSetView>>::empty());
        hub
    }

    /// The current set.
    pub fn current(&self) -> (set: &RosterSet)
        requires
            self.wf(),
        ensures
            set.wf(),
            set@ == self@.current,
    {
        &self.current
    }

    /// Whether the hub has been closed.
    pub fn is_closed(&self) -> (b: bool)
        ensures
            b == self@.closed,
    {
        self.closed
    }

    /// Whether the handle `id` is attached.
    pub fn is_attached(&self, id: usize) -> (b: bool)
        ensures
            b == self@.attached(id as int),
    {
        id < self.slots.len() && self.slots[id].is_some()
    }

    /// In a hub no backlog holds more than `BACKLOG` sets.
    pub proof fn lemma_bounded(&self)
        requires
            self.wf(),
        ensures
            self@.bounded(),
    {
        assert forall|id: int| self@.attached(id) implies (#[trigger] self@.backlogs[id]).len()
            <= BACKLOG by {
            assert(queue_wf(self.slots@[id]->0));
        }
    }

    /// Makes `value` the current set and the newest in the backlog of every
    /// attached subscriber. A backlog that is full loses its oldest set.
    pub fn publish(&mut self, value: RosterSet)
        requires
            old(self).wf(),
            value.wf(),
        ensures
            final(self).wf(),
            final(self)@ == old(self)@.publish(value@),
    {
        if self.closed {
            return ;
        }
        let ghost before = self.slots@;
        let n = self.slots.len();
        let mut i: usize = 0;
        while i < n
            invariant
                i <= n,
                n == before.len(),
                self.slots@.len() == n,
                value.wf(),
                self.current == old(self).current,
                self.closed == old(self).closed,
                forall|j: int| 0 <= j < n && (#[trigger] before[j]) is Some ==> queue_wf(before[j]->0),
                forall|j: int| i <= j < n ==> self.slots@[j] == #[trigger] before[j],
                forall|j: int|
                    0 <= j < i ==> ((#[trigger] self.slots@[j]) is Some <==> before[j] is Some),
                forall|j: int|
                    0 <= j < i && (#[trigger] self.slots@[j]) is Some ==> queue_wf(
                        self.slots@[j]->0,
                    ) && queue_view(self.slots@[j]->0) == keep_last(
                        queue_view(before[j]->0).push(value@),
                        BACKLOG as nat,
                    ),
            decreases n - i,
        {
            let taken = self.slots[i].take();
            match taken {
                Some(mut queue) => {
                    let ghost q0 = queue_view(queue);
                    queue.push_back(clone_set(&value));
                    assert(queue_view(queue) =~= q0.push(value@));
                    if queue.len() > BACKLOG {
                        let _ = queue.pop_front();
                        assert(queue_view(queue) =~= q0.push(value@).skip(1));
                    }
                    self.slots.set(i, Some(queue));
                },
                None => {},
            }
            i += 1;
        }
        self.current = value;
        proof {
            let want = old(self)@.publish(value@);
            assert forall|id: int| self@.backlogs.contains_key(id) implies self@.backlogs[id]
                == want.backlogs[id] by {
                assert(self.slots@[id] is Some);
            }
            assert(self@.backlogs =~= want.backlogs);
        }
    }

    /// Attaches a subscriber and gives its handle. The current set waits
    /// for it as its first.
    pub fn subscribe(&mut self) -> (id: usize)
        requires
            old(self).wf(),
        ensures
            final(self).wf(),
            old(self)@.is_next_handle(id as int),
            final(self)@ == old(self)@.attach(id as int),
    {
        let mut queue: VecDeque<RosterSet> = VecDeque::new();
        queue.push_back(clone_set(&self.current));
        assert(queue_view(queue) =~= seq![self.current@]);
        let n = self.slots.len();
        let mut i: usize = 0;
        while i < n && self.slots[i].is_some()
            invariant
                i <= n == self.slots@.len(),
                forall|j: int| 0 <= j < i ==> (#[trigger] self.slots@[j]) is Some,
            decreases n - i,
        {
            i += 1;
        }
        if i < n {
            self.slots.set(i, Some(queue));
        } else {
            self.slots.push(Some(queue));
        }
        proof {
            let want = old(self)@.attach(i as int);
            assert forall|j: int| 0 <= j < i implies old(self)@.attached(j) by {
                assert(old(self).slots@[j] is Some);
            }
            assert(self@.backlogs =~= want.backlogs);
        }
        i
    }

    /// Hands subscriber `id` the oldest set of its backlog, and says why
    /// where there is none.
    pub fn next(&mut self, id: usize) -> (delivery: Delivery)
        requires
            old(self).wf(),
        ensures
            final(self).wf(),
            match delivery {
                Delivery::Value(set) => {
                    &&& old(self)@.attached(id as int)
                    &&& old(self)@.backlogs[id as int].len() > 0
                    &&& set.wf()
                    &&& set@ == old(self)@.backlogs[id as int][0]
                    &&& final(self)@ == old(self)@.pop(id as int)
                },
                Delivery::Empty => {
                    &&& old(self)@.attached(id as int)
                    &&& old(self)@.backlogs[id as int].len() == 0
                    &&& !old(self)@.closed
                    &&& final(self)@ == old(self)@
                },
                Delivery::Closed => {
                    &&& old(self)@.attached(id as int)
                    &&& old(self)@.backlogs[id as int].len() == 0
                    &&& old(self)@.closed
                    &&& final(self)@ == old(self)@
                },
                Delivery::Detached => {
                    &&& !old(self)@.attached(id as int)
                    &&& final(self)@ == old(self)@
                },
            },
    {
        if id >= self.slots.len() {
            return Delivery::Detached;
        }
        let taken = self.slots[id].take();
        match taken {
            None => {
                assert(self.slots@ =~= old(self).slots@);
                Delivery::Detached
            },
            Some(mut queue) => {
                let ghost q0 = queue_view(queue);
                let first = queue.pop_front();
                assert(first is Some ==> queue_view(queue) =~= q0.skip(1));
                assert(first is None ==> queue_view(queue) =~= q0);
                self.slots.set(id, Some(queue));
                match first {
                    Some(set) => {
                        proof {
                            let want = old(self)@.pop(id as int);
                            assert(self@.backlogs =~= want.backlogs);
                        }
                        Delivery::Value(set)
                    },
                    None => {
                        proof {
                            assert(self@.backlogs =~= old(self)@.backlogs);
                        }
                        if self.closed {
                            Delivery::Closed
                        } else {
                            Delivery::Empty
                        }
                    },
                }
            },
        }
    }

    /// Detaches subscriber `id`: what waited for it is dropped.
    pub fn detach(&mut self, id: usize)
        requires
            old(self).wf(),
        ensures
            final(self).wf(),
            final(self)@ == old(self)@.detach(id as int),
    {
        if id < self.slots.len() {
            self.slots.set(id, None);
        }
        proof {
            assert(self@.backlogs =~= old(self)@.detach(id as int).backlogs);
        }
    }

    /// Closes the hub: nothing is published any more, and a subscriber that
    /// has been handed all that waited for it is told so.
    pub fn close(&mut self)
        requires
            old(self).wf(),
        ensures
            final(self).wf(),
            final(self)@ == old(self)@.close(),
    {
        self.closed = true;
    }
}

/// Dropping the oldest items before or after one more item comes gives the
/// same: the last `n` of all.
pub proof fn lemma_keep_last_push<T>(q: Seq<T>, n: nat, x: T)
    requires
        n > 0,
    ensures
        keep_last(keep_last(q, n).push(x), n) == keep_last(q.push(x), n),
        keep_last(q, n).len() <= n,
{
    assert(keep_last(keep_last(q, n).push(x), n) =~= keep_last(q.push(x), n));
}

/// After any number of publishes on an open hub the last value published is
/// the current set (the set that was current where none was published), the
/// same subscribers are attached, and each backlog holds, in the order of
/// publishing, the last `BACKLOG` of what waited before and what was
/// published: nothing twice, nothing out of order, and nothing missing but
/// the oldest where the bound was passed.
pub proof fn lemma_publish_all(h: HubView, values: Seq<RosterSetView>)
    requires
        !h.closed,
        h.bounded(),
    ensures
        !h.publish_all(values).closed,
        h.publish_all(values).bounded(),
        h.publish_all(values).current == if values.len() == 0 {
            h.current
        } else {
            values.last()
        },
        h.publish_all(values).backlogs.dom() == h.backlogs.dom(),
        forall|id: int|
            h.attached(id) ==> #[trigger] h.publish_all(values).backlogs[id] == keep_last(
                h.backlogs[id] + values,
                BACKLOG as nat,
            ),
    decreases values.len(),
{
    if values.len() == 0 {
        assert forall|id: int| h.attached(id) implies #[trigger] h.backlogs[id] == keep_last(
            h.backlogs[id] + values,
            BACKLOG as nat,
        ) by {
            assert(h.backlogs[id] + values =~= h.backlogs[id]);
        }
    } else {
        let head = values.drop_last();
        let mid = h.publish_all(head);
        lemma_publish_all(h, head);
        let after = mid.publish(values.last());
        assert(after.backlogs.dom() =~= h.backlogs.dom());
        assert forall|id: int| h.attached(id) implies #[trigger] after.backlogs[id] == keep_last(
            h.backlogs[id] + values,
            BACKLOG as nat,
        ) by {
            assert(mid.attached(id));
            assert((h.backlogs[id] + head).push(values.last()) =~= h.backlogs[id] + values);
            lemma_keep_last_push(h.backlogs[id] + head, BACKLOG as nat, values.last());
        }
    }
}

/// A subscriber that attaches to an open hub after any number of publishes
/// finds exactly one set waiting: the last one published, or the set that
/// was current before where none was published. It is never an earlier one.
pub proof fn lemma_late_joiner(h: HubView, values: Seq<RosterSetView>, id: int)
    requires
        !h.closed,
        h.bounded(),
    ensures
        h.publish_all(values).attach(id).backlogs[id] == seq![
            if values.len() == 0 {
                h.current
            } else {
                values.last()
            },
        ],
{
    lemma_publish_all(h, values);
}

/// What is published while a subscriber is attached reaches it in the
/// order of publishing, each set once: with `values` no longer than the
/// room left in its backlog, the backlog afterwards is what waited before,
/// then `values`.
pub proof fn lemma_in_order(h: HubView, values: Seq<RosterSetView>, id: int)
    requires
        !h.closed,
        h.bounded(),
        h.attached(id),
        h.backlogs[id].len() + values.len() <= BACKLOG,
    ensures
        h.publish_all(values).backlogs[id] == h.backlogs[id] + values,
{
    lemma_publish_all(h, values);
}

} // verus!

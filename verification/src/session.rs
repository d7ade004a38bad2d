//! One subscriber session: what it sends to its client, and when it ends.
//!
//! The session's loop sends and waits; after each step it asks `advance`
//! what comes next. A session sends the set that was current when it
//! attached, then every set published after, one message for each, and ends
//! when a send fails or the hub is closed.

use crate::hub::{Delivery, Hub, HubView};
use crate::roster_set::{RosterSet, RosterSetView};
use vstd::prelude::*;

verus! {

/// What happened since the session was last asked.
#[derive(Debug, Clone, Copy, PartialEq, Eq)]
pub enum SessionEvent {
    /// The last message was sent.
    Sent,
    /// The last message could not be sent: the client is gone.
    SendFailed,
    /// The session was woken: it has just attached, or something was
    /// published, or the hub was closed.
    Woken,
}

/// What the session's loop does next.
#[derive(Debug)]
pub enum SessionAction {
    /// Send this set to the client as one message.
    Transmit(RosterSet),
    /// Wait until woken.
    Wait,
    /// Leave the loop: the session has ended.
    End,
}

/// What the loop does next, as values.
pub enum ActionView {
    Transmit(RosterSetView),
    Wait,
    End,
}

impl View for SessionAction {
    type V = ActionView;

    open spec fn view(&self) -> ActionView {
        match *self {
            SessionAction::Transmit(set) => ActionView::Transmit(set@),
            SessionAction::Wait => ActionView::Wait,
            SessionAction::End => ActionView::End,
        }
    }
}

/// The outcome of a step of a session: the hub and whether the session is
/// live after it, and what the loop does next.
pub struct Advance {
    pub hub: HubView,
    pub live: bool,
    pub action: ActionView,
}

/// The step of the session with handle `id`. A session that has ended stays
/// ended. A failed send ends it and detaches it. Otherwise the oldest set
/// that waits for it is sent; where none waits it waits too, unless the hub
/// is closed, which ends it.
pub open spec fn spec_advance(hub: HubView, id: int, live: bool, event: SessionEvent) -> Advance {
    if !live {
        Advance { hub, live: false, action: ActionView::End }
    } else if event == SessionEvent::SendFailed {
        Advance { hub: hub.detach(id), live: false, action: ActionView::End }
    } else if !hub.attached(id) {
        Advance { hub, live: false, action: ActionView::End }
    } else if hub.backlogs[id].len() > 0 {
        Advance { hub: hub.pop(id), live: true, action: ActionView::Transmit(hub.backlogs[id][0]) }
    } else if hub.closed {
        Advance { hub: hub.detach(id), live: false, action: ActionView::End }
    } else {
        Advance { hub, live: true, action: ActionView::Wait }
    }
}

/// A subscriber session.
#[derive(Debug)]
pub struct Session {
    id: usize,
    live: bool,
}

impl Session {
    /// The handle under which the session is attached to the hub.
    pub closed spec fn handle(&self) -> int {
        self.id as int
    }

    /// Whether the session has not ended.
    pub closed spec fn live(&self) -> bool {
        self.live
    }

    /// Attaches a new session to the hub. The set that is current now is
    /// the first that it will send.
    pub fn attach(hub: &mut Hub) -> (session: Self)
        requires
            old(hub).wf(),
        ensures
            final(hub).wf(),
            session.live(),
            old(hub)@.is_next_handle(session.handle()),
            final(hub)@ == old(hub)@.attach(session.handle()),
    {
        let id = hub.subscribe();
        Session { id, live: true }
    }

    /// Whether the session has ended.
    pub fn has_ended(&self) -> (b: bool)
        ensures
            b == !self.live(),
    {
        !self.live
    }

    /// Says what the session's loop does next, given what happened since
    /// it was last asked.
    pub fn advance(&mut self, hub: &mut Hub, event: SessionEvent) -> (action: SessionAction)
        requires
            old(hub).wf(),
        ensures
            final(hub).wf(),
            final(self).handle() == old(self).handle(),
            final(hub)@ == spec_advance(old(hub)@, old(self).handle(), old(self).live(), event).hub,
            final(self).live() == spec_advance(
                old(hub)@,
                old(self).handle(),
                old(self).live(),
                event,
            ).live,
            action@ == spec_advance(old(hub)@, old(self).handle(), old(self).live(), event).action,
            action matches SessionAction::Transmit(set) ==> set.wf(),
    {
        if !self.live {
            return SessionAction::End;
        }
        match event {
            SessionEvent::SendFailed => {
                hub.detach(self.id);
                self.live = false;
                SessionAction::End
            },
            SessionEvent::Sent | SessionEvent::Woken => {
                match hub.next(self.id) {
                    Delivery::Value(set) => SessionAction::Transmit(set),
                    Delivery::Empty => SessionAction::Wait,
                    Delivery::Closed => {
                        hub.detach(self.id);
                        self.live = false;
                        SessionAction::End
                    },
                    Delivery::Detached => {
                        self.live = false;
                        SessionAction::End
                    },
                }
            },
        }
    }
}

/// The first message of a session is the set that was current when it
/// attached: on an open hub, after any number of publishes, that is the
/// last set published (the set that was current before where none was
/// published), never an earlier one.
pub proof fn lemma_first_message(h: HubView, values: Seq<RosterSetView>, id: int)
    requires
        !h.closed,
        h.bounded(),
    ensures
        spec_advance(h.publish_all(values).attach(id), id, true, SessionEvent::Woken).action
            == ActionView::Transmit(
            if values.len() == 0 {
                h.current
            } else {
                values.last()
            },
        ),
        spec_advance(h.publish_all(values).attach(id), id, true, SessionEvent::Woken).live,
{
    crate::hub::lemma_late_joiner(h, values, id);
}

/// The hub after the session with handle `id` was handed `k` sets, each
/// after the one before was sent.
pub open spec fn after_sends(hub: HubView, id: int, k: nat) -> HubView
    decreases k,
{
    if k == 0 {
        hub
    } else {
        spec_advance(after_sends(hub, id, (k - 1) as nat), id, true, SessionEvent::Sent).hub
    }
}

/// A session sends what waits for it in order, each set once: with `k`
/// sets sent and more waiting, the next message is the set at index `k` of
/// what waited at first, and the sets after it still wait.
pub proof fn lemma_sends_in_order(hub: HubView, id: int, k: nat)
    requires
        hub.attached(id),
        k < hub.backlogs[id].len(),
    ensures
        after_sends(hub, id, k).attached(id),
        after_sends(hub, id, k).backlogs[id] == hub.backlogs[id].skip(k as int),
        after_sends(hub, id, k).current == hub.current,
        spec_advance(after_sends(hub, id, k), id, true, SessionEvent::Sent).action
            == ActionView::Transmit(hub.backlogs[id][k as int]),
    decreases k,
{
    if k == 0 {
        assert(hub.backlogs[id].skip(0) =~= hub.backlogs[id]);
    } else {
        lemma_sends_in_order(hub, id, (k - 1) as nat);
        let before = after_sends(hub, id, (k - 1) as nat);
        assert(before.backlogs[id].skip(1) =~= hub.backlogs[id].skip(k as int));
    }
}

/// A failed send ends a session for good: whatever happens after, its loop
/// is told to end, and the hub is left as it is.
pub proof fn lemma_ended_stays_ended(h: HubView, id: int, live: bool, after: SessionEvent)
    ensures
        ({
            let failed = spec_advance(h, id, live, SessionEvent::SendFailed);
            let next = spec_advance(failed.hub, id, failed.live, after);
            &&& !failed.live
            &&& failed.action == ActionView::End
            &&& !next.live
            &&& next.action == ActionView::End
            &&& next.hub == failed.hub
        }),
{
}

} // verus!

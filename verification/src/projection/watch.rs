//! Watching a projection: when to look again, and what to hand out.

use super::flow::Freshness;
use crate::error::StoreError;
use vstd::prelude::*;

verus! {

/// Why a watcher stopped or failed.
#[derive(Debug)]
#[non_exhaustive]
pub enum WatcherError {
    /// The store has gone away.
    StoreClosed,
    /// The watcher's subscription was pruned or closed.
    SubscriptionPruned,
    /// Projecting failed. The watcher can go on.
    Store(StoreError),
}

impl WatcherError {
    /// The error in words.
    pub fn message(&self) -> (text: String)
        ensures
            text@ == match self {
                WatcherError::StoreClosed =>
                    "projection watcher stopped: underlying notification channel closed"@,
                WatcherError::SubscriptionPruned =>
                    "projection watcher stopped: lossy subscription was pruned or closed"@,
                WatcherError::Store(e) => "projection watcher failed: "@ + e.text(),
            },
    {
        match self {
            WatcherError::StoreClosed =>
                "projection watcher stopped: underlying notification channel closed".to_owned(),
            WatcherError::SubscriptionPruned =>
                "projection watcher stopped: lossy subscription was pruned or closed".to_owned(),
            WatcherError::Store(e) => {
                let mut text = "projection watcher failed: ".to_owned();
                let cause = e.message();
                text.append(cause.as_str());
                text
            },
        }
    }

    /// The store's error, where it is one.
    pub fn source(&self) -> (r: Option<&StoreError>)
        ensures
            match (self, r) {
                (WatcherError::Store(e), Some(cause)) => *cause == *e,
                (WatcherError::Store(_), None) => false,
                (_, r) => r is None,
            },
    {
        match self {
            WatcherError::Store(e) => Some(e),
            _ => None,
        }
    }
}

/// Why a watcher on a cursor failed.
#[derive(Debug)]
#[non_exhaustive]
pub enum CursorWatcherError {
    /// Projecting failed.
    Store(StoreError),
}

impl CursorWatcherError {
    /// The error in words.
    pub fn message(&self) -> (text: String)
        ensures
            text@ == match self {
                CursorWatcherError::Store(e) => "cursor projection watcher failed: "@ + e.text(),
            },
    {
        match self {
            CursorWatcherError::Store(e) => {
                let mut text = "cursor projection watcher failed: ".to_owned();
                let cause = e.message();
                text.append(cause.as_str());
                text
            },
        }
    }
}

/// What pulling from a watcher's channel gave.
#[derive(Clone, Copy, Debug, PartialEq, Eq, Structural)]
pub enum Pulled {
    /// Nothing yet.
    Empty,
    /// A notification.
    Items,
    /// The channel is closed.
    Closed,
}

/// What to do before looking at the projection.
#[derive(Clone, Copy, Debug, PartialEq, Eq, Structural)]
pub enum WatchStep {
    /// Look at once.
    Check,
    /// Wait for a notification.
    Wait,
}

/// What a watcher keeps in mind: what it watches, what it handed out last, and
/// whether the first look is still due.
#[derive(Debug)]
pub struct ProjectionWatcher {
    entity: String,
    freshness: Freshness,
    last_delivered_generation: u64,
    pending_initial_check: bool,
}

impl ProjectionWatcher {
    /// The generation that was handed out last.
    pub closed spec fn last_delivered(&self) -> u64 {
        self.last_delivered_generation
    }

    /// The first look is still due.
    pub closed spec fn pending(&self) -> bool {
        self.pending_initial_check
    }

    /// The entity's name.
    pub closed spec fn entity_name(&self) -> Seq<char> {
        self.entity@
    }

    /// How fresh the projection must be.
    pub closed spec fn wants(&self) -> Freshness {
        self.freshness
    }

    /// Everything but what was handed out and what is due is as it was.
    pub open spec fn watches_as(&self, before: &ProjectionWatcher) -> bool {
        self.entity_name() == before.entity_name() && self.wants() == before.wants()
    }

    /// A watcher on a subscription. The first look is due where the entity
    /// changed while the subscription was made.
    pub fn new(
        entity: String,
        freshness: Freshness,
        last_seen_generation: u64,
        pending_initial_check: bool,
    ) -> (r: ProjectionWatcher)
        ensures
            r.entity_name() == entity@,
            r.wants() == freshness,
            r.last_delivered() == last_seen_generation,
            r.pending() == pending_initial_check,
    {
        ProjectionWatcher {
            entity,
            freshness,
            last_delivered_generation: last_seen_generation,
            pending_initial_check,
        }
    }

    /// A watcher on a cursor.
    pub fn new_cursor(entity: String, freshness: Freshness, last_seen_generation: u64) -> (r:
        ProjectionWatcher)
        ensures
            r.entity_name() == entity@,
            r.wants() == freshness,
            r.last_delivered() == last_seen_generation,
            !r.pending(),
    {
        ProjectionWatcher {
            entity,
            freshness,
            last_delivered_generation: last_seen_generation,
            pending_initial_check: false,
        }
    }

    /// The entity's name.
    pub fn entity(&self) -> (r: &str)
        ensures
            r@ == self.entity_name(),
    {
        self.entity.as_str()
    }

    /// How fresh the projection must be.
    pub fn freshness(&self) -> (r: Freshness)
        ensures
            r == self.wants(),
    {
        self.freshness
    }

    /// The generation that was handed out last.
    pub fn last_delivered_generation(&self) -> (r: u64)
        ensures
            r == self.last_delivered(),
    {
        self.last_delivered_generation
    }

    /// What to do before looking at the projection: the first look, where it is
    /// due, waits for nothing.
    pub fn begin_wait(&mut self) -> (r: WatchStep)
        ensures
            r == (if old(self).pending() {
                WatchStep::Check
            } else {
                WatchStep::Wait
            }),
            !final(self).pending(),
            final(self).last_delivered() == old(self).last_delivered(),
            final(self).watches_as(old(self)),
    {
        if self.pending_initial_check {
            self.pending_initial_check = false;
            WatchStep::Check
        } else {
            WatchStep::Wait
        }
    }

    /// What to do after pulling from a subscription, which may be pruned.
    pub fn after_pull(pulled: Pulled) -> (r: Result<WatchStep, WatcherError>)
        ensures
            match r {
                Ok(step) => pulled != Pulled::Closed && step == (if pulled == Pulled::Empty {
                    WatchStep::Wait
                } else {
                    WatchStep::Check
                }),
                Err(e) => pulled == Pulled::Closed && e is SubscriptionPruned,
            },
    {
        match pulled {
            Pulled::Empty => Ok(WatchStep::Wait),
            Pulled::Items => Ok(WatchStep::Check),
            Pulled::Closed => Err(WatcherError::SubscriptionPruned),
        }
    }

    /// What to do after pulling from a cursor, which cannot be pruned.
    pub fn after_cursor_pull(pulled: Pulled) -> (r: WatchStep)
        ensures
            r == (if pulled == Pulled::Empty {
                WatchStep::Wait
            } else {
                WatchStep::Check
            }),
    {
        match pulled {
            Pulled::Empty => WatchStep::Wait,
            Pulled::Items | Pulled::Closed => WatchStep::Check,
        }
    }

    /// Takes what a look at the projection gave, and hands it out where its
    /// generation is later than the one handed out last.
    pub fn offer<T>(&mut self, change: Option<(u64, Option<T>)>) -> (r: Option<(u64, Option<T>)>)
        ensures
            final(self).watches_as(old(self)),
            final(self).pending() == old(self).pending(),
            match change {
                Some((generation, state)) if generation > old(self).last_delivered() => r == Some(
                    (generation, state),
                ) && final(self).last_delivered() == generation,
                _ => r is None && final(self).last_delivered() == old(self).last_delivered(),
            },
    {
        match change {
            Some((generation, state)) => {
                if generation <= self.last_delivered_generation {
                    return None;
                }
                self.last_delivered_generation = generation;
                Some((generation, state))
            },
            None => None,
        }
    }
}

/// The generations that a watcher hands out, of those that it is offered.
pub open spec fn handed_out(last: u64, offered: Seq<Option<u64>>) -> Seq<u64>
    decreases offered.len(),
{
    if offered.len() == 0 {
        Seq::empty()
    } else {
        let before = handed_out(last, offered.drop_last());
        let reached = if before.len() == 0 {
            last
        } else {
            before.last()
        };
        match offered.last() {
            Some(generation) if generation > reached => before.push(generation),
            _ => before,
        }
    }
}

/// A watcher hands out no generation twice, and never an earlier one after a
/// later one, however often it is woken.
pub proof fn law_hand_outs_increase(last: u64, offered: Seq<Option<u64>>)
    ensures
        forall|i: int, j: int|
            0 <= i < j < handed_out(last, offered).len() ==> handed_out(last, offered)[i]
                < handed_out(last, offered)[j],
        forall|i: int|
            0 <= i < handed_out(last, offered).len() ==> #[trigger] handed_out(last, offered)[i]
                > last,
    decreases offered.len(),
{
    if offered.len() > 0 {
        law_hand_outs_increase(last, offered.drop_last());
        let before = handed_out(last, offered.drop_last());
        if before.len() > 0 {
            assert(before[before.len() - 1] == before.last());
        }
    }
}

} // verus!

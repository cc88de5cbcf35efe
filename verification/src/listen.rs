//! Change-event filtering for listeners: which kinds of row changes a
//! subscriber asked for, and whether a batched change message matches them.

use vstd::prelude::*;

verus! {

/// A kind of row change a listener can subscribe to.
#[derive(Clone, Copy, Debug, PartialEq, Eq, Structural)]
pub enum Action {
    UNKNOWN,
    DELETE,
    INSERT,
    UPDATE,
}

/// A listen request: the table watched and which kinds of changes to report.
/// An empty list of kinds reports everything.
pub struct ListenQuery {
    pub table: String,
    pub action: Vec<Action>,
}

/// A batch of changes on one table: how many of each kind it carries.
#[derive(Clone, Copy, Debug, PartialEq, Eq, Structural)]
pub struct BroadcastMsg {
    pub delete: u64,
    pub insert: u64,
    pub update: u64,
    pub unknown: u64,
}

/// How many changes of kind `action` the message carries.
pub open spec fn action_count(msg: BroadcastMsg, action: Action) -> u64 {
    match action {
        Action::DELETE => msg.delete,
        Action::INSERT => msg.insert,
        Action::UPDATE => msg.update,
        Action::UNKNOWN => msg.unknown,
    }
}

/// The notice a lagging subscriber gets in place of the changes it missed.
pub const LAGGED_MSG: &'static str = "some changes were lost";

/// What the change stream emits to one subscriber for one received item.
#[derive(Clone, Copy, Debug)]
pub enum AggregatorEvent {
    /// The receiver fell behind and lost messages.
    Error(&'static str),
    /// A batch of changes that matched the subscription.
    Changes(BroadcastMsg),
}

/// Whether `msg` carries a change of a kind in `actions`, or `actions` asks
/// for everything.
pub open spec fn matches_actions(msg: BroadcastMsg, actions: Seq<Action>) -> bool {
    actions.len() == 0 || exists|i: int|
        0 <= i < actions.len() && action_count(msg, #[trigger] actions[i]) > 0
}

/// Decides what the change stream forwards for one received item: a matching
/// batch goes through, a non-matching one is dropped, and a lag notice
/// replaces whatever was lost.
pub fn stream_event(item: Result<BroadcastMsg, u64>, actions: &Vec<Action>) -> (r: Option<
    AggregatorEvent,
>)
    ensures
        match item {
            Ok(msg) => r == (if matches_actions(msg, actions@) {
                Some(AggregatorEvent::Changes(msg))
            } else {
                None::<AggregatorEvent>
            }),
            Err(_) => r == Some(AggregatorEvent::Error(LAGGED_MSG)),
        },
{
    match item {
        Ok(msg) => {
            if filter_actions(&msg, actions) {
                Some(AggregatorEvent::Changes(msg))
            } else {
                None
            }
        },
        Err(_lost) => Some(AggregatorEvent::Error(LAGGED_MSG)),
    }
}

/// Whether `msg` should reach a subscriber that asked for `actions`: it does
/// exactly when the subscriber asked for nothing in particular, or the
/// message carries at least one change of a requested kind.
pub fn filter_actions(msg: &BroadcastMsg, actions: &Vec<Action>) -> (r: bool)
    ensures
        r == matches_actions(*msg, actions@),
{
    let n: usize = actions.len();
    let mut i: usize = 0;
    while i < n
        invariant
            i <= n,
            n == actions@.len(),
            forall|q: int| 0 <= q < i ==> action_count(*msg, #[trigger] actions@[q]) == 0,
        decreases n - i,
    {
        let count: u64 = match actions[i] {
            Action::DELETE => msg.delete,
            Action::INSERT => msg.insert,
            Action::UPDATE => msg.update,
            Action::UNKNOWN => msg.unknown,
        };
        if count > 0 {
            return true;
        }
        i = i + 1;
    }
    actions.is_empty()
}

} // verus!

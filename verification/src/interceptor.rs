//! Per-message interception: the decision path of one inbound message,
//! `Received` → roles resolved → decided → terminal `Passed` or
//! `Suppressed`. Messages from automated accounts and messages whose
//! author's roles cannot be resolved are passed (fail-open); a denied
//! message is suppressed, with best-effort side effects (delete, then a
//! private notice) that never change the terminal state.

use crate::engine::{decide, decide_from_reads, decide_reads_spec, decide_spec, Decision, StoreError};
use crate::store::PolicyStore;
use vstd::prelude::*;

verus! {

/// What is to be done with one inbound message: let it stand, or suppress
/// it and privately send the carried notice to its author.
pub enum MessagePlan {
    Pass,
    Suppress(String),
}

/// The terminal state of one handled message.
pub enum Terminal {
    Passed,
    Suppressed,
}

/// The author's resolved roles as an abstract value: `None` when the
/// platform lookup failed.
pub open spec fn roles_view(roles: Option<Vec<u64>>) -> Option<Seq<u64>> {
    match roles {
        Some(v) => Some(v@),
        None => None,
    }
}

/// The abstract plan: `None` is pass, `Some(text)` is suppress with the
/// notice `text`. Automated authors and unresolved roles always pass.
pub open spec fn plan_spec(
    bl: Map<(u64, u64), Option<Seq<char>>>,
    ex: Set<(u64, u64)>,
    channel_id: u64,
    author_is_bot: bool,
    roles: Option<Seq<u64>>,
) -> Option<Seq<char>> {
    if author_is_bot {
        None
    } else {
        match roles {
            None => None,
            Some(rs) => decide_spec(bl, ex, channel_id, rs),
        }
    }
}

/// Plans one inbound message against the store: pass it, or suppress it
/// with the notice to send. `roles` is `None` when the platform could not
/// resolve the author's roles (fail-open: the message passes).
pub fn plan_message(
    store: &PolicyStore,
    channel_id: u64,
    author_is_bot: bool,
    roles: &Option<Vec<u64>>,
) -> (p: MessagePlan)
    requires
        store.wf(),
    ensures
        match p {
            MessagePlan::Pass => plan_spec(
                store.blacklist_view(),
                store.exception_view(),
                channel_id,
                author_is_bot,
                roles_view(*roles),
            ) is None,
            MessagePlan::Suppress(m) => Some(m@) == plan_spec(
                store.blacklist_view(),
                store.exception_view(),
                channel_id,
                author_is_bot,
                roles_view(*roles),
            ),
        },
{
    if author_is_bot {
        return MessagePlan::Pass;
    }
    match roles {
        None => MessagePlan::Pass,
        Some(rs) => match decide(store, channel_id, rs) {
            Decision::Allow => MessagePlan::Pass,
            Decision::Deny(m) => MessagePlan::Suppress(m),
        },
    }
}

/// The abstract plan over raw store read outcomes.
pub open spec fn plan_reads_spec(
    channel_id: u64,
    author_is_bot: bool,
    roles_resolved: bool,
    ex_read: Result<bool, StoreError>,
    bl_read: Result<Option<(u64, String)>, StoreError>,
) -> Option<Seq<char>> {
    if author_is_bot || !roles_resolved {
        None
    } else {
        decide_reads_spec(channel_id, ex_read, bl_read)
    }
}

/// Plans one inbound message from the raw reads of a fallible store, as an
/// external repository hands them back. `roles_resolved` is false when the
/// platform's role lookup failed; any failure on the path passes the
/// message (fail-open).
pub fn plan_message_from_reads(
    channel_id: u64,
    author_is_bot: bool,
    roles_resolved: bool,
    ex_read: Result<bool, StoreError>,
    bl_read: Result<Option<(u64, String)>, StoreError>,
) -> (p: MessagePlan)
    ensures
        match p {
            MessagePlan::Pass => plan_reads_spec(
                channel_id,
                author_is_bot,
                roles_resolved,
                ex_read,
                bl_read,
            ) is None,
            MessagePlan::Suppress(m) => Some(m@) == plan_reads_spec(
                channel_id,
                author_is_bot,
                roles_resolved,
                ex_read,
                bl_read,
            ),
        },
{
    if author_is_bot || !roles_resolved {
        return MessagePlan::Pass;
    }
    match decide_from_reads(channel_id, ex_read, bl_read) {
        Decision::Allow => MessagePlan::Pass,
        Decision::Deny(m) => MessagePlan::Suppress(m),
    }
}

/// The terminal state that a plan reaches. The two side effects of a
/// suppression — deleting the message, then sending the notice — are
/// best-effort, attempted at most once each: their outcomes never change
/// the terminal state, and a deleted-but-not-notified message is an
/// accepted end state.
#[allow(unused_variables)]
pub fn terminal_of(plan: &MessagePlan, delete_ok: bool, notify_ok: bool) -> (t: Terminal)
    ensures
        t is Suppressed <==> plan is Suppress,
{
    match plan {
        MessagePlan::Pass => Terminal::Passed,
        MessagePlan::Suppress(_) => Terminal::Suppressed,
    }
}

/// Law (fail-open at the interceptor): a message from an automated author,
/// one whose roles could not be resolved, and one whose evaluation reads
/// both failed are all passed, for every input.
pub proof fn lemma_plan_fail_open(
    channel_id: u64,
    author_is_bot: bool,
    roles_resolved: bool,
    ex_read: Result<bool, StoreError>,
    bl_read: Result<Option<(u64, String)>, StoreError>,
    e1: StoreError,
    e2: StoreError,
)
    ensures
        plan_reads_spec(channel_id, true, roles_resolved, ex_read, bl_read) is None,
        plan_reads_spec(channel_id, author_is_bot, false, ex_read, bl_read) is None,
        plan_reads_spec(channel_id, author_is_bot, roles_resolved, Err(e1), Err(e2)) is None,
{
}

} // verus!

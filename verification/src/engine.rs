//! The decision engine: a pure allow/deny function over the policy store.
//!
//! An exception for any of the author's roles wins outright; otherwise the
//! first blacklisted role (in the order the roles are given) denies, with
//! the entry's custom message or the default notice. Evaluation is
//! fail-open: a failed store read counts as "no match", so an unreachable
//! store never blocks a channel.

use crate::notice::{default_notice, default_notice_spec};
use crate::store::{first_bl_match, has_ex_match, stored_or_empty, PolicyStore};
use vstd::prelude::*;

verus! {

/// A connectivity or query failure of the underlying store. Admin writes
/// propagate it to the caller; evaluation reads swallow it (fail-open).
pub struct StoreError;

/// The outcome of evaluating a message against policy: allow it, or deny
/// it and privately send the carried notice.
pub enum Decision {
    Allow,
    Deny(String),
}

/// The notice a denied author receives: the matched entry's text when it is
/// non-empty, else the default notice for the channel.
pub open spec fn deny_notice_spec(stored: Seq<char>, channel_id: u64) -> Seq<char> {
    if stored.len() > 0 {
        stored
    } else {
        default_notice_spec(channel_id)
    }
}

/// The abstract decision: `None` is allow, `Some(text)` is deny with the
/// notice `text`.
pub open spec fn decide_spec(
    bl: Map<(u64, u64), Option<Seq<char>>>,
    ex: Set<(u64, u64)>,
    channel_id: u64,
    roles: Seq<u64>,
) -> Option<Seq<char>> {
    if has_ex_match(ex, channel_id, roles) {
        None
    } else {
        match first_bl_match(bl, channel_id, roles) {
            None => None,
            Some(role_id) => Some(
                deny_notice_spec(stored_or_empty(bl[(channel_id, role_id)]), channel_id),
            ),
        }
    }
}

/// The notice to send for a matched entry's stored text.
fn resolve_notice(stored: String, channel_id: u64) -> (r: String)
    ensures
        r@ == deny_notice_spec(stored@, channel_id),
{
    if stored.as_str().is_empty() {
        default_notice(channel_id)
    } else {
        stored
    }
}

/// Pure decision for a channel and an author's role set. Stateless and
/// side-effect free: the result is a function of the store contents and the
/// arguments alone.
pub fn decide(store: &PolicyStore, channel_id: u64, roles: &Vec<u64>) -> (d: Decision)
    requires
        store.wf(),
    ensures
        match d {
            Decision::Allow => decide_spec(
                store.blacklist_view(),
                store.exception_view(),
                channel_id,
                roles@,
            ) is None,
            Decision::Deny(m) => Some(m@) == decide_spec(
                store.blacklist_view(),
                store.exception_view(),
                channel_id,
                roles@,
            ),
        },
{
    if store.has_exception_match(channel_id, roles) {
        Decision::Allow
    } else {
        match store.find_blacklist_match(channel_id, roles) {
            None => Decision::Allow,
            Some((_role_id, stored)) => Decision::Deny(resolve_notice(stored, channel_id)),
        }
    }
}

/// The abstract decision over raw store read outcomes: a failed exception
/// read counts as "no exception", a failed blacklist read as "no match".
pub open spec fn decide_reads_spec(
    channel_id: u64,
    ex_read: Result<bool, StoreError>,
    bl_read: Result<Option<(u64, String)>, StoreError>,
) -> Option<Seq<char>> {
    match ex_read {
        Ok(true) => None,
        _ => match bl_read {
            Ok(Some(p)) => Some(deny_notice_spec(p.1@, channel_id)),
            _ => None,
        },
    }
}

/// Decision from the two evaluation reads of a fallible store, as an
/// external repository hands them back. Either read failing counts as no
/// match: enforcement is never stricter under store failure.
pub fn decide_from_reads(
    channel_id: u64,
    ex_read: Result<bool, StoreError>,
    bl_read: Result<Option<(u64, String)>, StoreError>,
) -> (d: Decision)
    ensures
        match d {
            Decision::Allow => decide_reads_spec(channel_id, ex_read, bl_read) is None,
            Decision::Deny(m) => Some(m@) == decide_reads_spec(channel_id, ex_read, bl_read),
        },
{
    match ex_read {
        Ok(true) => Decision::Allow,
        _ => match bl_read {
            Ok(Some((_role_id, stored))) => Decision::Deny(resolve_notice(stored, channel_id)),
            _ => Decision::Allow,
        },
    }
}

/// The tie-break finds a match exactly when some role of the sequence is
/// blacklisted in the channel.
pub proof fn lemma_first_match_iff(
    bl: Map<(u64, u64), Option<Seq<char>>>,
    channel_id: u64,
    roles: Seq<u64>,
)
    ensures
        first_bl_match(bl, channel_id, roles) is Some <==> exists|i: int|
            0 <= i < roles.len() && bl.contains_key((channel_id, #[trigger] roles[i])),
    decreases roles.len(),
{
    if roles.len() > 0 {
        lemma_first_match_iff(bl, channel_id, roles.skip(1));
        if bl.contains_key((channel_id, roles[0])) {
        } else if first_bl_match(bl, channel_id, roles) is Some {
            let i = choose|i: int|
                0 <= i < roles.skip(1).len() && bl.contains_key(
                    (channel_id, #[trigger] roles.skip(1)[i]),
                );
            assert(roles.skip(1)[i] == roles[i + 1]);
            assert(bl.contains_key((channel_id, roles[i + 1])));
        } else {
            if exists|i: int|
                0 <= i < roles.len() && bl.contains_key((channel_id, #[trigger] roles[i])) {
                let i = choose|i: int|
                    0 <= i < roles.len() && bl.contains_key((channel_id, #[trigger] roles[i]));
                assert(i != 0);
                assert(roles.skip(1)[i - 1] == roles[i]);
            }
        }
    }
}

/// Law: the decision is Deny exactly when some role of the set is
/// blacklisted in the channel and no role of the set is excepted there.
pub proof fn lemma_decide_characterisation(
    bl: Map<(u64, u64), Option<Seq<char>>>,
    ex: Set<(u64, u64)>,
    channel_id: u64,
    roles: Seq<u64>,
)
    ensures
        decide_spec(bl, ex, channel_id, roles) is Some <==> (!has_ex_match(
            ex,
            channel_id,
            roles,
        ) && exists|i: int|
            0 <= i < roles.len() && bl.contains_key((channel_id, #[trigger] roles[i]))),
{
    lemma_first_match_iff(bl, channel_id, roles);
}

/// Law (precedence): an excepted role in the set forces Allow, whatever the
/// blacklist holds — in particular for a role both blacklisted and excepted
/// in the channel.
pub proof fn lemma_exception_precedence(
    bl: Map<(u64, u64), Option<Seq<char>>>,
    ex: Set<(u64, u64)>,
    channel_id: u64,
    roles: Seq<u64>,
    i: int,
)
    requires
        0 <= i < roles.len(),
        ex.contains((channel_id, roles[i])),
    ensures
        decide_spec(bl, ex, channel_id, roles) is None,
{
    assert(ex.contains((channel_id, roles[i])));
    assert(has_ex_match(ex, channel_id, roles));
}

/// Law (multi-role union): with no exceptions for either role, an author
/// holding one blacklisted role and one clean role is denied, while the
/// clean role alone is allowed.
pub proof fn lemma_union_decision(
    bl: Map<(u64, u64), Option<Seq<char>>>,
    ex: Set<(u64, u64)>,
    channel_id: u64,
    r1: u64,
    r2: u64,
)
    requires
        bl.contains_key((channel_id, r1)),
        !bl.contains_key((channel_id, r2)),
        !ex.contains((channel_id, r1)),
        !ex.contains((channel_id, r2)),
    ensures
        decide_spec(bl, ex, channel_id, seq![r1, r2]) is Some,
        decide_spec(bl, ex, channel_id, seq![r2]) is None,
{
    let both = seq![r1, r2];
    assert(!has_ex_match(ex, channel_id, both)) by {
        assert forall|i: int| 0 <= i < both.len() implies !ex.contains(
            (channel_id, #[trigger] both[i]),
        ) by {
            if i == 0 {
                assert(both[i] == r1);
            } else {
                assert(both[i] == r2);
            }
        }
    }
    assert(both[0] == r1);
    assert(first_bl_match(bl, channel_id, both) == Some(r1));
    let single = seq![r2];
    assert(!has_ex_match(ex, channel_id, single)) by {
        assert forall|i: int| 0 <= i < single.len() implies !ex.contains(
            (channel_id, #[trigger] single[i]),
        ) by {
            assert(single[i] == r2);
        }
    }
    assert(single[0] == r2);
    assert(single.skip(1) =~= Seq::<u64>::empty());
    assert(first_bl_match(bl, channel_id, single) == first_bl_match(
        bl,
        channel_id,
        single.skip(1),
    ));
    assert(first_bl_match(bl, channel_id, single.skip(1)) is None);
}

/// Law (fail-open): when both evaluation reads fail, the decision is Allow,
/// for every channel.
pub proof fn lemma_fail_open(channel_id: u64, e1: StoreError, e2: StoreError)
    ensures
        decide_reads_spec(channel_id, Err(e1), Err(e2)) is None,
{
}

} // verus!

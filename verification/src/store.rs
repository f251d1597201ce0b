//! The policy store: the durable sets of blacklist and exception entries,
//! held in memory with a uniqueness invariant on the `(channel, role)` key.
//!
//! The store is modelled by two abstractions: a `Map` from `(channel, role)`
//! to the entry's optional custom message (blacklist), and a `Set` of
//! `(channel, role)` pairs (exceptions). Every operation's contract is stated
//! over these views.

use vstd::prelude::*;

verus! {

/// A stored rule: holders of `role_id` may not post in `channel_id`.
/// `custom_message` is the optional private explanation sent on suppression;
/// `None` means a default notice is composed at evaluation time.
pub struct BlacklistEntry {
    pub channel_id: u64,
    pub role_id: u64,
    pub custom_message: Option<String>,
}

/// A stored override: holders of `role_id` may post in `channel_id`
/// even if another of their roles is blacklisted there.
pub struct ExceptionEntry {
    pub channel_id: u64,
    pub role_id: u64,
}

impl BlacklistEntry {
    /// The identity of the entry: its channel/role pair.
    pub open spec fn key(self) -> (u64, u64) {
        (self.channel_id, self.role_id)
    }

    /// The abstract value of the entry: its optional custom message.
    pub open spec fn msg(self) -> Option<Seq<char>> {
        match self.custom_message {
            Some(m) => Some(m@),
            None => None,
        }
    }
}

impl ExceptionEntry {
    /// The identity of the entry: its channel/role pair.
    pub open spec fn key(self) -> (u64, u64) {
        (self.channel_id, self.role_id)
    }
}

/// The abstract contents of a sequence of blacklist rows: the map from
/// each present key to the message of its latest row.
pub open spec fn bl_map(s: Seq<BlacklistEntry>) -> Map<(u64, u64), Option<Seq<char>>>
    decreases s.len(),
{
    if s.len() == 0 {
        Map::empty()
    } else {
        bl_map(s.drop_last()).insert(s.last().key(), s.last().msg())
    }
}

/// The abstract contents of a sequence of exception rows: the set of keys.
pub open spec fn ex_set(s: Seq<ExceptionEntry>) -> Set<(u64, u64)>
    decreases s.len(),
{
    if s.len() == 0 {
        Set::empty()
    } else {
        ex_set(s.drop_last()).insert(s.last().key())
    }
}

/// No two blacklist rows share a key.
pub open spec fn bl_distinct(s: Seq<BlacklistEntry>) -> bool {
    forall|i: int, j: int|
        0 <= i < j < s.len() ==> #[trigger] s[i].key() != #[trigger] s[j].key()
}

/// No two exception rows share a key.
pub open spec fn ex_distinct(s: Seq<ExceptionEntry>) -> bool {
    forall|i: int, j: int|
        0 <= i < j < s.len() ==> #[trigger] s[i].key() != #[trigger] s[j].key()
}

/// A key is in the blacklist map exactly when some row carries it.
pub proof fn lemma_bl_map_contains(s: Seq<BlacklistEntry>, k: (u64, u64))
    ensures
        bl_map(s).contains_key(k) <==> exists|i: int| 0 <= i < s.len() && #[trigger] s[i].key() == k,
    decreases s.len(),
{
    if s.len() > 0 {
        lemma_bl_map_contains(s.drop_last(), k);
        if s.last().key() == k {
            assert(s[s.len() - 1].key() == k);
        } else if bl_map(s).contains_key(k) {
            let i = choose|i: int| 0 <= i < s.drop_last().len() && #[trigger] s.drop_last()[i].key() == k;
            assert(s[i].key() == k);
        } else {
            assert forall|i: int| 0 <= i < s.len() implies #[trigger] s[i].key() != k by {
                if i < s.len() - 1 {
                    assert(s.drop_last()[i].key() != k);
                }
            }
        }
    }
}

/// With distinct keys, the map binds each row's key to that row's message.
pub proof fn lemma_bl_map_value(s: Seq<BlacklistEntry>, i: int)
    requires
        bl_distinct(s),
        0 <= i < s.len(),
    ensures
        bl_map(s).contains_key(s[i].key()),
        bl_map(s)[s[i].key()] == s[i].msg(),
    decreases s.len(),
{
    if i == s.len() - 1 {
    } else {
        assert(s[i].key() != s[s.len() - 1].key());
        assert(s.drop_last()[i] == s[i]);
        lemma_bl_map_value(s.drop_last(), i);
    }
}

/// A key is in the exception set exactly when some row carries it.
pub proof fn lemma_ex_set_contains(s: Seq<ExceptionEntry>, k: (u64, u64))
    ensures
        ex_set(s).contains(k) <==> exists|i: int| 0 <= i < s.len() && #[trigger] s[i].key() == k,
    decreases s.len(),
{
    if s.len() > 0 {
        lemma_ex_set_contains(s.drop_last(), k);
        if s.last().key() == k {
            assert(s[s.len() - 1].key() == k);
        } else if ex_set(s).contains(k) {
            let i = choose|i: int| 0 <= i < s.drop_last().len() && #[trigger] s.drop_last()[i].key() == k;
            assert(s[i].key() == k);
        } else {
            assert forall|i: int| 0 <= i < s.len() implies #[trigger] s[i].key() != k by {
                if i < s.len() - 1 {
                    assert(s.drop_last()[i].key() != k);
                }
            }
        }
    }
}

/// The number of blacklist rows stored under a key.
pub open spec fn bl_count(s: Seq<BlacklistEntry>, k: (u64, u64)) -> nat
    decreases s.len(),
{
    if s.len() == 0 {
        0
    } else {
        bl_count(s.drop_last(), k) + (if s.last().key() == k {
            1nat
        } else {
            0nat
        })
    }
}

/// With distinct keys, a key is carried by at most one row, and by exactly
/// one row when some row carries it.
pub proof fn lemma_bl_count(s: Seq<BlacklistEntry>, k: (u64, u64))
    requires
        bl_distinct(s),
    ensures
        bl_count(s, k) <= 1,
        bl_count(s, k) == 1 <==> exists|i: int| 0 <= i < s.len() && #[trigger] s[i].key() == k,
    decreases s.len(),
{
    if s.len() > 0 {
        let t = s.drop_last();
        assert forall|a: int, b: int| 0 <= a < b < t.len() implies #[trigger] t[a].key()
            != #[trigger] t[b].key() by {
            assert(s[a].key() != s[b].key());
        }
        lemma_bl_count(t, k);
        if s.last().key() == k {
            if bl_count(t, k) == 1 {
                let i = choose|i: int| 0 <= i < t.len() && #[trigger] t[i].key() == k;
                assert(s[i].key() == s[s.len() - 1].key());
                assert(false);
            }
            assert(s[s.len() - 1].key() == k);
        } else {
            if bl_count(s, k) == 1 {
                let i = choose|i: int| 0 <= i < t.len() && #[trigger] t[i].key() == k;
                assert(s[i].key() == k);
            }
            if exists|i: int| 0 <= i < s.len() && #[trigger] s[i].key() == k {
                let i = choose|i: int| 0 <= i < s.len() && #[trigger] s[i].key() == k;
                assert(i < s.len() - 1);
                assert(t[i].key() == k);
            }
        }
    }
}

/// Removing the row at index `i` removes exactly its key from the abstract
/// map, and keeps the keys distinct.
pub proof fn lemma_bl_map_remove(s: Seq<BlacklistEntry>, i: int)
    requires
        bl_distinct(s),
        0 <= i < s.len(),
    ensures
        bl_map(s.remove(i)) =~= bl_map(s).remove(s[i].key()),
        bl_distinct(s.remove(i)),
    decreases s.len(),
{
    let k = s[i].key();
    let t = s.remove(i);
    assert forall|a: int, b: int| 0 <= a < b < t.len() implies #[trigger] t[a].key()
        != #[trigger] t[b].key() by {
        let a2: int = if a < i { a } else { a + 1 };
        let b2: int = if b < i { b } else { b + 1 };
        assert(t[a] == s[a2]);
        assert(t[b] == s[b2]);
        assert(s[a2].key() != s[b2].key());
    }
    if i == s.len() - 1 {
        assert(t =~= s.drop_last());
        lemma_bl_map_contains(s.drop_last(), k);
        assert forall|j: int| 0 <= j < s.drop_last().len() implies #[trigger] s.drop_last()[j].key()
            != k by {
            assert(s[j].key() != s[i].key());
        }
        assert(!bl_map(s.drop_last()).contains_key(k));
        assert(bl_map(s.remove(i)) =~= bl_map(s).remove(k));
    } else {
        assert forall|a: int, b: int| 0 <= a < b < s.drop_last().len() implies #[trigger] s.drop_last()[a].key() != #[trigger] s.drop_last()[b].key() by {
            assert(s[a].key() != s[b].key());
        }
        lemma_bl_map_remove(s.drop_last(), i);
        assert(t.len() == s.len() - 1);
        assert(t.last() == s.last());
        assert(t.drop_last() =~= s.drop_last().remove(i));
        assert(bl_map(t) == bl_map(s.drop_last().remove(i)).insert(s.last().key(), s.last().msg()));
        assert(s[i].key() != s[s.len() - 1].key());
        assert(bl_map(s.remove(i)) =~= bl_map(s).remove(k));
    }
}

/// Removing the row at index `i` removes exactly its key from the abstract
/// set, and keeps the keys distinct.
pub proof fn lemma_ex_set_remove(s: Seq<ExceptionEntry>, i: int)
    requires
        ex_distinct(s),
        0 <= i < s.len(),
    ensures
        ex_set(s.remove(i)) =~= ex_set(s).remove(s[i].key()),
        ex_distinct(s.remove(i)),
    decreases s.len(),
{
    let k = s[i].key();
    let t = s.remove(i);
    assert forall|a: int, b: int| 0 <= a < b < t.len() implies #[trigger] t[a].key()
        != #[trigger] t[b].key() by {
        let a2: int = if a < i { a } else { a + 1 };
        let b2: int = if b < i { b } else { b + 1 };
        assert(t[a] == s[a2]);
        assert(t[b] == s[b2]);
        assert(s[a2].key() != s[b2].key());
    }
    if i == s.len() - 1 {
        assert(t =~= s.drop_last());
        lemma_ex_set_contains(s.drop_last(), k);
        assert forall|j: int| 0 <= j < s.drop_last().len() implies #[trigger] s.drop_last()[j].key()
            != k by {
            assert(s[j].key() != s[i].key());
        }
        assert(!ex_set(s.drop_last()).contains(k));
        assert(ex_set(s.remove(i)) =~= ex_set(s).remove(k));
    } else {
        assert forall|a: int, b: int| 0 <= a < b < s.drop_last().len() implies #[trigger] s.drop_last()[a].key() != #[trigger] s.drop_last()[b].key() by {
            assert(s[a].key() != s[b].key());
        }
        lemma_ex_set_remove(s.drop_last(), i);
        assert(t.len() == s.len() - 1);
        assert(t.last() == s.last());
        assert(t.drop_last() =~= s.drop_last().remove(i));
        assert(ex_set(t) == ex_set(s.drop_last().remove(i)).insert(s.last().key()));
        assert(s[i].key() != s[s.len() - 1].key());
        assert(ex_set(s.remove(i)) =~= ex_set(s).remove(k));
    }
}

/// The abstract value of an optional custom message.
pub open spec fn opt_msg_view(m: Option<String>) -> Option<Seq<char>> {
    match m {
        Some(s) => Some(s@),
        None => None,
    }
}

/// A stored message folded to text: the message itself, or empty when the
/// entry was stored without one.
pub open spec fn stored_or_empty(m: Option<Seq<char>>) -> Seq<char> {
    match m {
        Some(s) => s,
        None => Seq::empty(),
    }
}

/// The deterministic tie-break of `find_blacklist_match`: the first role of
/// the given sequence that is blacklisted in the channel, if any.
pub open spec fn first_bl_match(
    m: Map<(u64, u64), Option<Seq<char>>>,
    channel_id: u64,
    roles: Seq<u64>,
) -> Option<u64>
    decreases roles.len(),
{
    if roles.len() == 0 {
        None
    } else if m.contains_key((channel_id, roles[0])) {
        Some(roles[0])
    } else {
        first_bl_match(m, channel_id, roles.skip(1))
    }
}

/// Whether any role of the sequence has an exception entry in the channel.
pub open spec fn has_ex_match(ex: Set<(u64, u64)>, channel_id: u64, roles: Seq<u64>) -> bool {
    exists|i: int| 0 <= i < roles.len() && ex.contains((channel_id, #[trigger] roles[i]))
}

/// A copy of a stored message folded to text: the message, or `""` when the
/// entry holds none.
fn message_or_empty(m: &Option<String>) -> (r: String)
    ensures
        r@ == stored_or_empty(opt_msg_view(*m)),
{
    match m {
        Some(s) => s.clone(),
        None => String::new(),
    }
}

/// The repository of policy entries, with at most one blacklist row and at
/// most one exception row per `(channel, role)` pair.
pub struct PolicyStore {
    blacklist: Vec<BlacklistEntry>,
    exceptions: Vec<ExceptionEntry>,
}

impl PolicyStore {
    /// Well-formedness: keys are unique within each entry set.
    pub closed spec fn wf(self) -> bool {
        bl_distinct(self.blacklist@) && ex_distinct(self.exceptions@)
    }

    /// Abstract blacklist contents: key to optional custom message.
    pub closed spec fn blacklist_view(self) -> Map<(u64, u64), Option<Seq<char>>> {
        bl_map(self.blacklist@)
    }

    /// Abstract exception contents: the set of excepted keys.
    pub closed spec fn exception_view(self) -> Set<(u64, u64)> {
        ex_set(self.exceptions@)
    }

    /// An empty store: nothing blacklisted, nothing excepted.
    pub fn new() -> (s: Self)
        ensures
            s.wf(),
            s.blacklist_view() == Map::<(u64, u64), Option<Seq<char>>>::empty(),
            s.exception_view() == Set::<(u64, u64)>::empty(),
    {
        PolicyStore { blacklist: Vec::new(), exceptions: Vec::new() }
    }

    /// Deletes the blacklist entry for `(channel_id, role_id)` if present;
    /// absence is a successful no-op, never an error.
    pub fn remove_blacklist(&mut self, channel_id: u64, role_id: u64)
        requires
            old(self).wf(),
        ensures
            final(self).wf(),
            final(self).blacklist_view() == old(self).blacklist_view().remove(
                (channel_id, role_id),
            ),
            final(self).exception_view() == old(self).exception_view(),
    {
        let n = self.blacklist.len();
        let mut i: usize = 0;
        while i < n
            invariant
                *self == *old(self),
                n == self.blacklist@.len(),
                0 <= i <= n,
                old(self).wf(),
                forall|j: int| 0 <= j < i ==> #[trigger] self.blacklist@[j].key() != (channel_id, role_id),
            decreases n - i,
        {
            let e = &self.blacklist[i];
            if e.channel_id == channel_id && e.role_id == role_id {
                proof {
                    lemma_bl_map_remove(self.blacklist@, i as int);
                    assert(self.blacklist@[i as int].key() == (channel_id, role_id));
                }
                self.blacklist.remove(i);
                return ;
            }
            i += 1;
        }
        proof {
            lemma_bl_map_contains(self.blacklist@, (channel_id, role_id));
            assert(!self.blacklist_view().contains_key((channel_id, role_id)));
            assert(self.blacklist_view().remove((channel_id, role_id)) =~= self.blacklist_view());
        }
    }

    /// Deletes the exception entry for `(channel_id, role_id)` if present;
    /// absence is a successful no-op, never an error.
    pub fn remove_exception(&mut self, channel_id: u64, role_id: u64)
        requires
            old(self).wf(),
        ensures
            final(self).wf(),
            final(self).exception_view() == old(self).exception_view().remove(
                (channel_id, role_id),
            ),
            final(self).blacklist_view() == old(self).blacklist_view(),
    {
        let n = self.exceptions.len();
        let mut i: usize = 0;
        while i < n
            invariant
                *self == *old(self),
                n == self.exceptions@.len(),
                0 <= i <= n,
                old(self).wf(),
                forall|j: int| 0 <= j < i ==> #[trigger] self.exceptions@[j].key() != (channel_id, role_id),
            decreases n - i,
        {
            let e = &self.exceptions[i];
            if e.channel_id == channel_id && e.role_id == role_id {
                proof {
                    lemma_ex_set_remove(self.exceptions@, i as int);
                    assert(self.exceptions@[i as int].key() == (channel_id, role_id));
                }
                self.exceptions.remove(i);
                return ;
            }
            i += 1;
        }
        proof {
            lemma_ex_set_contains(self.exceptions@, (channel_id, role_id));
            assert(!self.exception_view().contains((channel_id, role_id)));
            assert(self.exception_view().remove((channel_id, role_id)) =~= self.exception_view());
        }
    }

    /// Inserts a blacklist entry for `(channel_id, role_id)`, or replaces the
    /// stored message if one is already present: an idempotent upsert that
    /// never leaves two rows under the same key.
    pub fn upsert_blacklist(&mut self, channel_id: u64, role_id: u64, custom_message: Option<String>)
        requires
            old(self).wf(),
        ensures
            final(self).wf(),
            final(self).blacklist_view() == old(self).blacklist_view().insert(
                (channel_id, role_id),
                opt_msg_view(custom_message),
            ),
            final(self).exception_view() == old(self).exception_view(),
    {
        let ghost m = opt_msg_view(custom_message);
        self.remove_blacklist(channel_id, role_id);
        let ghost mid = self.blacklist@;
        let entry = BlacklistEntry { channel_id, role_id, custom_message };
        self.blacklist.push(entry);
        proof {
            assert(self.blacklist@.drop_last() =~= mid);
            assert(self.blacklist@.last().key() == (channel_id, role_id));
            assert(self.blacklist@.last().msg() == m);
            assert(self.blacklist_view() == bl_map(mid).insert((channel_id, role_id), m));
            assert(self.blacklist_view() =~= old(self).blacklist_view().insert(
                (channel_id, role_id),
                m,
            ));
            lemma_bl_map_contains(mid, (channel_id, role_id));
            assert forall|a: int, b: int| 0 <= a < b < self.blacklist@.len() implies
                #[trigger] self.blacklist@[a].key() != #[trigger] self.blacklist@[b].key() by {
                if b < self.blacklist@.len() - 1 {
                    assert(mid[a].key() != mid[b].key());
                } else {
                    assert(mid[a].key() != (channel_id, role_id));
                }
            }
        }
    }

    /// Inserts an exception entry for `(channel_id, role_id)`; a no-op if one
    /// is already present (never an error on a duplicate).
    pub fn insert_exception_if_absent(&mut self, channel_id: u64, role_id: u64)
        requires
            old(self).wf(),
        ensures
            final(self).wf(),
            final(self).exception_view() == old(self).exception_view().insert(
                (channel_id, role_id),
            ),
            final(self).blacklist_view() == old(self).blacklist_view(),
    {
        if self.is_exception(channel_id, role_id) {
            proof {
                assert(self.exception_view().insert((channel_id, role_id))
                    =~= self.exception_view());
            }
        } else {
            let ghost mid = self.exceptions@;
            let entry = ExceptionEntry { channel_id, role_id };
            self.exceptions.push(entry);
            proof {
                assert(self.exceptions@.drop_last() =~= mid);
                assert(self.exceptions@.last().key() == (channel_id, role_id));
                assert(self.exception_view() == ex_set(mid).insert((channel_id, role_id)));
                lemma_ex_set_contains(mid, (channel_id, role_id));
                assert forall|a: int, b: int| 0 <= a < b < self.exceptions@.len() implies
                    #[trigger] self.exceptions@[a].key() != #[trigger] self.exceptions@[b].key() by {
                    if b < self.exceptions@.len() - 1 {
                        assert(mid[a].key() != mid[b].key());
                    } else {
                        assert(mid[a].key() != (channel_id, role_id));
                    }
                }
            }
        }
    }

    /// The number of physical blacklist rows stored under a key.
    pub closed spec fn blacklist_row_count(self, k: (u64, u64)) -> nat {
        bl_count(self.blacklist@, k)
    }

    /// Existence check for a single role on the blacklist.
    pub fn is_blacklisted(&self, channel_id: u64, role_id: u64) -> (r: bool)
        ensures
            r == self.blacklist_view().contains_key((channel_id, role_id)),
    {
        proof {
            lemma_bl_map_contains(self.blacklist@, (channel_id, role_id));
        }
        let n = self.blacklist.len();
        let mut i: usize = 0;
        while i < n
            invariant
                n == self.blacklist@.len(),
                0 <= i <= n,
                forall|j: int| 0 <= j < i ==> #[trigger] self.blacklist@[j].key() != (channel_id, role_id),
            decreases n - i,
        {
            let e = &self.blacklist[i];
            if e.channel_id == channel_id && e.role_id == role_id {
                proof {
                    lemma_bl_map_contains(self.blacklist@, (channel_id, role_id));
                    assert(self.blacklist@[i as int].key() == (channel_id, role_id));
                }
                return true;
            }
            i += 1;
        }
        false
    }

    /// Returns one matching blacklist entry if any role of `roles` is
    /// blacklisted in the channel. Tie-break, deterministic and documented:
    /// the first role in the order of the given `roles` sequence wins. The
    /// returned text is the stored custom message, or `""` when the entry
    /// holds none.
    pub fn find_blacklist_match(&self, channel_id: u64, roles: &Vec<u64>) -> (r: Option<(u64, String)>)
        requires
            self.wf(),
        ensures
            match r {
                None => first_bl_match(self.blacklist_view(), channel_id, roles@) is None,
                Some(p) => {
                    &&& first_bl_match(self.blacklist_view(), channel_id, roles@) == Some(p.0)
                    &&& self.blacklist_view().contains_key((channel_id, p.0))
                    &&& p.1@ == stored_or_empty(self.blacklist_view()[(channel_id, p.0)])
                },
            },
    {
        let ghost m = self.blacklist_view();
        proof {
            assert(roles@.skip(0) =~= roles@);
        }
        let n = roles.len();
        let mut i: usize = 0;
        while i < n
            invariant
                n == roles@.len(),
                0 <= i <= n,
                self.wf(),
                m == self.blacklist_view(),
                first_bl_match(m, channel_id, roles@) == first_bl_match(
                    m,
                    channel_id,
                    roles@.skip(i as int),
                ),
            decreases n - i,
        {
            let role = roles[i];
            proof {
                assert(roles@.skip(i as int)[0] == roles@[i as int]);
                assert(roles@.skip(i as int).skip(1) =~= roles@.skip(i as int + 1));
            }
            if self.is_blacklisted(channel_id, role) {
                assert(first_bl_match(m, channel_id, roles@) == Some(role));
                let msg = match self.blacklist_message(channel_id, role) {
                    Some(stored) => message_or_empty(&stored),
                    None => String::new(),
                };
                return Some((role, msg));
            }
            i += 1;
        }
        proof {
            assert(roles@.skip(n as int).len() == 0);
        }
        None
    }

    /// A reference-free copy of the stored message of `(channel_id, role_id)`:
    /// `None` when the pair is not blacklisted, `Some(stored)` when it is.
    fn blacklist_message(&self, channel_id: u64, role_id: u64) -> (r: Option<Option<String>>)
        requires
            self.wf(),
        ensures
            match r {
                None => !self.blacklist_view().contains_key((channel_id, role_id)),
                Some(stored) => {
                    &&& self.blacklist_view().contains_key((channel_id, role_id))
                    &&& opt_msg_view(stored) == self.blacklist_view()[(channel_id, role_id)]
                },
            },
    {
        let n = self.blacklist.len();
        let mut i: usize = 0;
        while i < n
            invariant
                n == self.blacklist@.len(),
                0 <= i <= n,
                self.wf(),
                forall|j: int| 0 <= j < i ==> #[trigger] self.blacklist@[j].key() != (channel_id, role_id),
            decreases n - i,
        {
            let e = &self.blacklist[i];
            if e.channel_id == channel_id && e.role_id == role_id {
                proof {
                    lemma_bl_map_value(self.blacklist@, i as int);
                    assert(self.blacklist@[i as int].key() == (channel_id, role_id));
                }
                let stored = match &e.custom_message {
                    Some(s) => Some(s.clone()),
                    None => None,
                };
                return Some(stored);
            }
            i += 1;
        }
        proof {
            lemma_bl_map_contains(self.blacklist@, (channel_id, role_id));
        }
        None
    }

    /// Whether any role of `roles` has an exception entry in the channel.
    pub fn has_exception_match(&self, channel_id: u64, roles: &Vec<u64>) -> (r: bool)
        ensures
            r == has_ex_match(self.exception_view(), channel_id, roles@),
    {
        let n = roles.len();
        let mut i: usize = 0;
        while i < n
            invariant
                n == roles@.len(),
                0 <= i <= n,
                forall|j: int| 0 <= j < i ==> !self.exception_view().contains(
                    (channel_id, #[trigger] roles@[j]),
                ),
            decreases n - i,
        {
            if self.is_exception(channel_id, roles[i]) {
                return true;
            }
            i += 1;
        }
        false
    }

    /// Existence check for a single role on the exception set.
    pub fn is_exception(&self, channel_id: u64, role_id: u64) -> (r: bool)
        ensures
            r == self.exception_view().contains((channel_id, role_id)),
    {
        proof {
            lemma_ex_set_contains(self.exceptions@, (channel_id, role_id));
        }
        let n = self.exceptions.len();
        let mut i: usize = 0;
        while i < n
            invariant
                n == self.exceptions@.len(),
                0 <= i <= n,
                forall|j: int| 0 <= j < i ==> #[trigger] self.exceptions@[j].key() != (channel_id, role_id),
            decreases n - i,
        {
            let e = &self.exceptions[i];
            if e.channel_id == channel_id && e.role_id == role_id {
                proof {
                    lemma_ex_set_contains(self.exceptions@, (channel_id, role_id));
                    assert(self.exceptions@[i as int].key() == (channel_id, role_id));
                }
                return true;
            }
            i += 1;
        }
        false
    }
    /// All blacklist entries of the channel, each role exactly once, with
    /// its stored message folded to text. Listing order is store order and
    /// carries no guarantee.
    pub fn list_blacklisted(&self, channel_id: u64) -> (r: Vec<(u64, String)>)
        requires
            self.wf(),
        ensures
            forall|k: int|
                0 <= k < r@.len() ==> self.blacklist_view().contains_key(
                    (channel_id, #[trigger] r@[k].0),
                ) && r@[k].1@ == stored_or_empty(self.blacklist_view()[(channel_id, r@[k].0)]),
            forall|role_id: u64|
                #[trigger] self.blacklist_view().contains_key((channel_id, role_id))
                    ==> exists|k: int| 0 <= k < r@.len() && #[trigger] r@[k].0 == role_id,
            forall|k1: int, k2: int| 0 <= k1 < k2 < r@.len() ==> r@[k1].0 != r@[k2].0,
    {
        let ghost s = self.blacklist@;
        let mut r: Vec<(u64, String)> = Vec::new();
        let ghost mut idxs: Seq<int> = Seq::empty();
        let n = self.blacklist.len();
        let mut j: usize = 0;
        while j < n
            invariant
                n == s.len(),
                s == self.blacklist@,
                0 <= j <= n,
                self.wf(),
                idxs.len() == r@.len(),
                forall|k: int| #![trigger idxs[k]] #![trigger r@[k]]
                    0 <= k < r@.len() ==> 0 <= idxs[k] < j && s[idxs[k]].channel_id == channel_id
                        && s[idxs[k]].role_id == r@[k].0
                        && r@[k].1@ == stored_or_empty(s[idxs[k]].msg()),
                forall|k1: int, k2: int| 0 <= k1 < k2 < idxs.len() ==> idxs[k1] != idxs[k2],
                forall|j2: int|
                    0 <= j2 < j && #[trigger] s[j2].channel_id == channel_id ==> exists|k: int|
                        0 <= k < idxs.len() && #[trigger] idxs[k] == j2,
            decreases n - j,
        {
            let e = &self.blacklist[j];
            if e.channel_id == channel_id {
                let text = message_or_empty(&e.custom_message);
                r.push((e.role_id, text));
                proof {
                    let old_idxs = idxs;
                    idxs = idxs.push(j as int);
                    assert(idxs[idxs.len() - 1] == j as int);
                    assert(r@[r@.len() - 1].0 == s[j as int].role_id);
                    assert(r@[r@.len() - 1].1@ == stored_or_empty(s[j as int].msg()));
                    assert forall|j2: int|
                        0 <= j2 < j + 1 && #[trigger] s[j2].channel_id == channel_id implies
                        exists|k: int| 0 <= k < idxs.len() && #[trigger] idxs[k] == j2 by {
                        if j2 < j {
                            let k = choose|k: int|
                                0 <= k < old_idxs.len() && #[trigger] old_idxs[k] == j2;
                            assert(idxs[k] == j2);
                        } else {
                            assert(idxs[idxs.len() - 1] == j2);
                        }
                    }
                }
            }
            j += 1;
        }
        proof {
            assert forall|k: int|
                0 <= k < r@.len() implies self.blacklist_view().contains_key(
                (channel_id, #[trigger] r@[k].0),
            ) && r@[k].1@ == stored_or_empty(self.blacklist_view()[(channel_id, r@[k].0)]) by {
                lemma_bl_map_value(s, idxs[k]);
                assert(s[idxs[k]].key() == (channel_id, r@[k].0));
            }
            assert forall|role_id: u64|
                #[trigger] self.blacklist_view().contains_key(
                    (channel_id, role_id),
                ) implies exists|k: int| 0 <= k < r@.len() && #[trigger] r@[k].0 == role_id by {
                lemma_bl_map_contains(s, (channel_id, role_id));
                let j2 = choose|j2: int| 0 <= j2 < s.len() && #[trigger] s[j2].key() == (
                    channel_id,
                    role_id,
                );
                assert(s[j2].channel_id == channel_id);
                let k = choose|k: int| 0 <= k < idxs.len() && #[trigger] idxs[k] == j2;
                assert(r@[k].0 == role_id);
            }
            assert forall|k1: int, k2: int| 0 <= k1 < k2 < r@.len() implies r@[k1].0
                != r@[k2].0 by {
                assert(idxs[k1] != idxs[k2]);
                if r@[k1].0 == r@[k2].0 {
                    assert(s[idxs[k1]].key() == s[idxs[k2]].key());
                    if idxs[k1] < idxs[k2] {
                        assert(s[idxs[k1]].key() != s[idxs[k2]].key());
                    } else {
                        assert(s[idxs[k2]].key() != s[idxs[k1]].key());
                    }
                }
            }
        }
        r
    }

    /// All exception roles of the channel, each exactly once. Listing order
    /// is store order and carries no guarantee.
    pub fn list_exceptions(&self, channel_id: u64) -> (r: Vec<u64>)
        requires
            self.wf(),
        ensures
            forall|k: int|
                0 <= k < r@.len() ==> self.exception_view().contains(
                    (channel_id, #[trigger] r@[k]),
                ),
            forall|role_id: u64|
                #[trigger] self.exception_view().contains((channel_id, role_id)) ==> exists|k: int|
                    0 <= k < r@.len() && #[trigger] r@[k] == role_id,
            forall|k1: int, k2: int| 0 <= k1 < k2 < r@.len() ==> r@[k1] != r@[k2],
    {
        let ghost s = self.exceptions@;
        let mut r: Vec<u64> = Vec::new();
        let ghost mut idxs: Seq<int> = Seq::empty();
        let n = self.exceptions.len();
        let mut j: usize = 0;
        while j < n
            invariant
                n == s.len(),
                s == self.exceptions@,
                0 <= j <= n,
                self.wf(),
                idxs.len() == r@.len(),
                forall|k: int| #![trigger idxs[k]] #![trigger r@[k]]
                    0 <= k < r@.len() ==> 0 <= idxs[k] < j && s[idxs[k]].channel_id == channel_id
                        && s[idxs[k]].role_id == r@[k],
                forall|k1: int, k2: int| 0 <= k1 < k2 < idxs.len() ==> idxs[k1] != idxs[k2],
                forall|j2: int|
                    0 <= j2 < j && #[trigger] s[j2].channel_id == channel_id ==> exists|k: int|
                        0 <= k < idxs.len() && #[trigger] idxs[k] == j2,
            decreases n - j,
        {
            let e = &self.exceptions[j];
            if e.channel_id == channel_id {
                r.push(e.role_id);
                proof {
                    let old_idxs = idxs;
                    idxs = idxs.push(j as int);
                    assert(idxs[idxs.len() - 1] == j as int);
                    assert(r@[r@.len() - 1] == s[j as int].role_id);
                    assert forall|j2: int|
                        0 <= j2 < j + 1 && #[trigger] s[j2].channel_id == channel_id implies
                        exists|k: int| 0 <= k < idxs.len() && #[trigger] idxs[k] == j2 by {
                        if j2 < j {
                            let k = choose|k: int|
                                0 <= k < old_idxs.len() && #[trigger] old_idxs[k] == j2;
                            assert(idxs[k] == j2);
                        } else {
                            assert(idxs[idxs.len() - 1] == j2);
                        }
                    }
                }
            }
            j += 1;
        }
        proof {
            assert forall|k: int|
                0 <= k < r@.len() implies self.exception_view().contains(
                (channel_id, #[trigger] r@[k]),
            ) by {
                lemma_ex_set_contains(s, (channel_id, r@[k]));
                assert(s[idxs[k]].key() == (channel_id, r@[k]));
            }
            assert forall|role_id: u64|
                #[trigger] self.exception_view().contains(
                    (channel_id, role_id),
                ) implies exists|k: int| 0 <= k < r@.len() && #[trigger] r@[k] == role_id by {
                lemma_ex_set_contains(s, (channel_id, role_id));
                let j2 = choose|j2: int| 0 <= j2 < s.len() && #[trigger] s[j2].key() == (
                    channel_id,
                    role_id,
                );
                assert(s[j2].channel_id == channel_id);
                let k = choose|k: int| 0 <= k < idxs.len() && #[trigger] idxs[k] == j2;
                assert(r@[k] == role_id);
            }
            assert forall|k1: int, k2: int| 0 <= k1 < k2 < r@.len() implies r@[k1] != r@[k2] by {
                assert(idxs[k1] != idxs[k2]);
                if r@[k1] == r@[k2] {
                    if idxs[k1] < idxs[k2] {
                        assert(s[idxs[k1]].key() != s[idxs[k2]].key());
                    } else {
                        assert(s[idxs[k2]].key() != s[idxs[k1]].key());
                    }
                }
            }
        }
        r
    }
}

/// Law: after an upsert of `(channel, role)` the pair is blacklisted and its
/// stored message is the upserted one, while every other pair keeps both its
/// membership and its message.
pub proof fn lemma_upsert_then_blacklisted(
    pre: PolicyStore,
    post: PolicyStore,
    channel_id: u64,
    role_id: u64,
    m: Option<Seq<char>>,
)
    requires
        post.blacklist_view() == pre.blacklist_view().insert((channel_id, role_id), m),
    ensures
        post.blacklist_view().contains_key((channel_id, role_id)),
        post.blacklist_view()[(channel_id, role_id)] == m,
        forall|k: (u64, u64)|
            k != (channel_id, role_id) ==> #[trigger] post.blacklist_view().contains_key(k)
                == pre.blacklist_view().contains_key(k),
        forall|k: (u64, u64)|
            k != (channel_id, role_id) && pre.blacklist_view().contains_key(k)
                ==> #[trigger] post.blacklist_view()[k] == pre.blacklist_view()[k],
{
}

/// Law: after a removal of `(channel, role)` the pair is not blacklisted,
/// while every other pair keeps both its membership and its message.
pub proof fn lemma_remove_then_not_blacklisted(
    pre: PolicyStore,
    post: PolicyStore,
    channel_id: u64,
    role_id: u64,
)
    requires
        post.blacklist_view() == pre.blacklist_view().remove((channel_id, role_id)),
    ensures
        !post.blacklist_view().contains_key((channel_id, role_id)),
        forall|k: (u64, u64)|
            k != (channel_id, role_id) ==> #[trigger] post.blacklist_view().contains_key(k)
                == pre.blacklist_view().contains_key(k),
        forall|k: (u64, u64)|
            k != (channel_id, role_id) && pre.blacklist_view().contains_key(k)
                ==> #[trigger] post.blacklist_view()[k] == pre.blacklist_view()[k],
{
}

/// Law: after an exception insert the pair is excepted; after an exception
/// removal it is not; every other pair is untouched either way.
pub proof fn lemma_exception_write_then_check(
    pre: PolicyStore,
    inserted: PolicyStore,
    removed: PolicyStore,
    channel_id: u64,
    role_id: u64,
)
    requires
        inserted.exception_view() == pre.exception_view().insert((channel_id, role_id)),
        removed.exception_view() == pre.exception_view().remove((channel_id, role_id)),
    ensures
        inserted.exception_view().contains((channel_id, role_id)),
        !removed.exception_view().contains((channel_id, role_id)),
        forall|k: (u64, u64)|
            k != (channel_id, role_id) ==> #[trigger] inserted.exception_view().contains(k)
                == pre.exception_view().contains(k),
        forall|k: (u64, u64)|
            k != (channel_id, role_id) ==> #[trigger] removed.exception_view().contains(k)
                == pre.exception_view().contains(k),
{
}

/// Law: upserting the same pair twice leaves the second message and nothing
/// of the first: the end state is the same as a single upsert of the second
/// message.
pub proof fn lemma_upsert_replaces(
    pre: PolicyStore,
    mid: PolicyStore,
    post: PolicyStore,
    channel_id: u64,
    role_id: u64,
    first: Option<Seq<char>>,
    second: Option<Seq<char>>,
)
    requires
        mid.blacklist_view() == pre.blacklist_view().insert((channel_id, role_id), first),
        post.blacklist_view() == mid.blacklist_view().insert((channel_id, role_id), second),
    ensures
        post.blacklist_view() == pre.blacklist_view().insert((channel_id, role_id), second),
        post.blacklist_view()[(channel_id, role_id)] == second,
{
    assert(post.blacklist_view() =~= pre.blacklist_view().insert((channel_id, role_id), second));
}

/// Law: a well-formed store holds no duplicate rows. At most one blacklist
/// row exists per key, and exactly one exactly when the key is blacklisted.
pub proof fn lemma_no_duplicate_rows(s: PolicyStore, channel_id: u64, role_id: u64)
    requires
        s.wf(),
    ensures
        s.blacklist_row_count((channel_id, role_id)) <= 1,
        s.blacklist_view().contains_key((channel_id, role_id))
            <==> s.blacklist_row_count((channel_id, role_id)) == 1,
{
    lemma_bl_count(s.blacklist@, (channel_id, role_id));
    lemma_bl_map_contains(s.blacklist@, (channel_id, role_id));
}

/// Law: removing a pair that is not blacklisted is a successful no-op: the
/// store is unchanged and a subsequent existence check still fails.
pub proof fn lemma_remove_absent_is_noop(
    pre: PolicyStore,
    post: PolicyStore,
    channel_id: u64,
    role_id: u64,
)
    requires
        !pre.blacklist_view().contains_key((channel_id, role_id)),
        post.blacklist_view() == pre.blacklist_view().remove((channel_id, role_id)),
    ensures
        post.blacklist_view() == pre.blacklist_view(),
        !post.blacklist_view().contains_key((channel_id, role_id)),
{
    assert(post.blacklist_view() =~= pre.blacklist_view());
}

} // verus!

use vstd::prelude::*;

use crate::calendar::{Date, TimeOfDay};

verus! {

broadcast use vstd::seq_lib::group_seq_properties;

/// Where a scheduled action stands. `Pending` is the only state the
/// scheduler acts on; the others are final.
#[derive(Clone, Copy, Debug, PartialEq, Eq, Structural)]
pub enum ActionStatus {
    Pending,
    Executed,
    Failed,
    Cancelled,
    Missed,
}

/// One hour-long activation of a rule's device on a date. The slot runs from
/// `start_hour` to `end_hour`, which is `(start_hour + 1) mod 24`; an
/// `end_hour` that is not after `start_hour` means the slot ends at midnight,
/// at the close of `scheduled_date`.
#[derive(Clone, Copy, Debug, PartialEq, Eq, Structural)]
pub struct ScheduledAction {
    pub rule_id: u128,
    pub scheduled_date: Date,
    pub start_hour: u8,
    pub end_hour: u8,
    pub price: Option<i64>,
    pub status: ActionStatus,
}

/// Two entries with the same rule, date and start hour.
pub open spec fn same_key(a: ScheduledAction, b: ScheduledAction) -> bool {
    a.rule_id == b.rule_id && a.scheduled_date == b.scheduled_date && a.start_hour == b.start_hour
}

pub open spec fn has_key(s: Seq<ScheduledAction>, e: ScheduledAction) -> bool {
    exists|i: int| 0 <= i < s.len() && same_key(#[trigger] s[i], e)
}

/// A pending entry with the key of `e` is held.
pub open spec fn has_pending_key(s: Seq<ScheduledAction>, e: ScheduledAction) -> bool {
    exists|i: int| 0 <= i < s.len() && same_key(#[trigger] s[i], e) && s[i].status == ActionStatus::Pending
}

/// No two entries share a key.
pub open spec fn keys_unique(s: Seq<ScheduledAction>) -> bool {
    forall|i: int, j: int| 0 <= i < j < s.len() ==> !same_key(#[trigger] s[i], #[trigger] s[j])
}

/// The slot starts after `now` on `today`, or on a later date.
pub open spec fn is_future(e: ScheduledAction, today: Date, now: TimeOfDay) -> bool {
    e.scheduled_date.days_from_ce > today.days_from_ce || (e.scheduled_date.days_from_ce
        == today.days_from_ce && e.start_hour * 3600 > now.secs)
}

/// A pending entry of `rule_id` that has not started yet.
pub open spec fn future_pending_of(
    e: ScheduledAction,
    rule_id: u128,
    today: Date,
    now: TimeOfDay,
) -> bool {
    e.rule_id == rule_id && e.status == ActionStatus::Pending && is_future(e, today, now)
}

/// A pending entry whose slot is over: one of `today` whose slot does not run
/// to midnight and has ended by `now`, or one of an earlier date.
pub open spec fn is_expired(e: ScheduledAction, today: Date, now: TimeOfDay) -> bool {
    e.status == ActionStatus::Pending && ((e.scheduled_date.days_from_ce == today.days_from_ce
        && e.end_hour > e.start_hour && e.end_hour * 3600 <= now.secs)
        || e.scheduled_date.days_from_ce < today.days_from_ce)
}

/// Entries dated `date`.
pub open spec fn dated(date: Date) -> spec_fn(ScheduledAction) -> bool {
    |e: ScheduledAction| e.scheduled_date == date
}

/// Entries that are not pending slots of `rule_id` still to come.
pub open spec fn not_future_pending_of(rule_id: u128, today: Date, now: TimeOfDay) -> spec_fn(
    ScheduledAction,
) -> bool {
    |e: ScheduledAction| !future_pending_of(e, rule_id, today, now)
}

pub open spec fn with_status(e: ScheduledAction, st: ActionStatus) -> ScheduledAction {
    ScheduledAction { status: st, ..e }
}

/// The scheduled actions that the store holds, at most one per rule, date
/// and start hour.
pub struct ActionTable {
    entries: Vec<ScheduledAction>,
}

impl View for ActionTable {
    type V = Seq<ScheduledAction>;

    closed spec fn view(&self) -> Seq<ScheduledAction> {
        self.entries@
    }
}

impl ActionTable {
    pub open spec fn wf(&self) -> bool {
        keys_unique(self@)
    }

    /// An empty table.
    pub fn new() -> (r: ActionTable)
        ensures
            r@ == Seq::<ScheduledAction>::empty(),
            r.wf(),
    {
        ActionTable { entries: Vec::new() }
    }

    pub fn len(&self) -> (r: usize)
        ensures
            r == self@.len(),
    {
        self.entries.len()
    }

    pub fn get(&self, i: usize) -> (r: ScheduledAction)
        requires
            i < self@.len(),
        ensures
            r == self@[i as int],
    {
        self.entries[i]
    }

    /// Whether an entry with the key of `e` is held.
    pub fn contains_key(&self, e: &ScheduledAction) -> (r: bool)
        ensures
            r == has_key(self@, *e),
    {
        let mut i: usize = 0;
        while i < self.entries.len()
            invariant
                i <= self@.len(),
                self@ == self.entries@,
                forall|k: int| 0 <= k < i ==> !same_key(#[trigger] self@[k], *e),
            decreases self.entries.len() - i,
        {
            let x = self.entries[i];
            if x.rule_id == e.rule_id && x.scheduled_date.days_from_ce
                == e.scheduled_date.days_from_ce && x.start_hour == e.start_hour {
                return true;
            }
            i = i + 1;
        }
        false
    }

    /// Adds `e` unless an entry with its key is held; says whether it added.
    pub fn insert_if_absent(&mut self, e: ScheduledAction) -> (r: bool)
        requires
            old(self).wf(),
        ensures
            final(self).wf(),
            r == !has_key(old(self)@, e),
            final(self)@ == if r {
                old(self)@.push(e)
            } else {
                old(self)@
            },
    {
        if self.contains_key(&e) {
            false
        } else {
            self.entries.push(e);
            proof {
                assert forall|i: int, j: int| 0 <= i < j < self@.len() implies !same_key(
                    #[trigger] self@[i],
                    #[trigger] self@[j],
                ) by {
                    if j == self@.len() - 1 {
                        assert(old(self)@[i] == self@[i]);
                    }
                }
            }
            true
        }
    }

    /// The number of entries dated `date`.
    pub fn count_on_date(&self, date: Date) -> (r: usize)
        ensures
            r == self@.filter(dated(date)).len(),
    {
        let ghost pred = dated(date);
        let mut n: usize = 0;
        let mut i: usize = 0;
        while i < self.entries.len()
            invariant
                i <= self@.len(),
                self@ == self.entries@,
                pred == dated(date),
                n == self@.subrange(0, i as int).filter(pred).len(),
                n <= i,
            decreases self.entries.len() - i,
        {
            let x = self.entries[i];
            proof {
                assert(self@.subrange(0, i as int + 1) =~= self@.subrange(0, i as int).push(x));
                self@.subrange(0, i as int).lemma_filter_push(x, pred);
            }
            proof {
                assert((x.scheduled_date.days_from_ce == date.days_from_ce) == (x.scheduled_date
                    == date));
                assert(pred(x) == (x.scheduled_date == date));
            }
            if x.scheduled_date.days_from_ce == date.days_from_ce {
                n = n + 1;
            }
            i = i + 1;
        }
        proof {
            assert(self@.subrange(0, self@.len() as int) =~= self@);
        }
        n
    }

    /// Removes the pending entries of `rule_id` whose slot has not started by
    /// `now` on `today`; returns how many it removed.
    pub fn delete_future_pending(&mut self, rule_id: u128, today: Date, now: TimeOfDay) -> (r: usize)
        requires
            old(self).wf(),
        ensures
            final(self).wf(),
            final(self)@ == old(self)@.filter(not_future_pending_of(rule_id, today, now)),
            r == old(self)@.len() - final(self)@.len(),
    {
        let ghost pred = not_future_pending_of(rule_id, today, now);
        let ghost s = self@;
        let mut kept: Vec<ScheduledAction> = Vec::new();
        let mut i: usize = 0;
        while i < self.entries.len()
            invariant
                i <= s.len(),
                s == self.entries@,
                keys_unique(s),
                pred == not_future_pending_of(rule_id, today, now),
                kept@ == s.subrange(0, i as int).filter(pred),
                keys_unique(kept@),
                forall|x: ScheduledAction| #[trigger] kept@.contains(x) ==> exists|k: int|
                    0 <= k < i && s[k] == x,
                kept@.len() <= i,
            decreases self.entries.len() - i,
        {
            let x = self.entries[i];
            proof {
                assert(s.subrange(0, i as int + 1) =~= s.subrange(0, i as int).push(x));
                s.subrange(0, i as int).lemma_filter_push(x, pred);
            }
            let future = x.rule_id == rule_id && x.status == ActionStatus::Pending && (
            x.scheduled_date.days_from_ce > today.days_from_ce || (x.scheduled_date.days_from_ce
                == today.days_from_ce && (x.start_hour as u32) * 3600 > now.secs));
            proof {
                assert(future == future_pending_of(x, rule_id, today, now));
                assert(pred(x) == !future);
            }
            if !future {
                let ghost k0 = kept@;
                kept.push(x);
                proof {
                    assert forall|a: int, b: int| 0 <= a < b < kept@.len() implies !same_key(
                        #[trigger] kept@[a],
                        #[trigger] kept@[b],
                    ) by {
                        if b == kept@.len() - 1 {
                            assert(k0.contains(kept@[a]));
                            let k = choose|k: int| 0 <= k < i && s[k] == kept@[a];
                            assert(!same_key(s[k], s[i as int]));
                        } else {
                            assert(kept@[a] == k0[a] && kept@[b] == k0[b]);
                        }
                    }
                    assert forall|y: ScheduledAction| #[trigger] kept@.contains(y) implies exists|k: int|
                        0 <= k < i + 1 && s[k] == y by {
                        let j = choose|j: int| 0 <= j < kept@.len() && kept@[j] == y;
                        if j < k0.len() {
                            assert(k0.contains(y));
                        } else {
                            assert(s[i as int] == y);
                        }
                    }
                }
            }
            i = i + 1;
        }
        proof {
            assert(s.subrange(0, s.len() as int) =~= s);
        }
        let removed = self.entries.len() - kept.len();
        self.entries = kept;
        removed
    }

    /// Sets the status of the entry with the key of `key` to `st`, as the
    /// executor of an action reports it, when that entry is pending; an entry
    /// in a final state stays as it is. Says whether an entry changed.
    pub fn update_status(&mut self, key: &ScheduledAction, st: ActionStatus) -> (r: bool)
        requires
            old(self).wf(),
        ensures
            final(self).wf(),
            r == has_pending_key(old(self)@, *key),
            final(self)@ == old(self)@.map_values(
                |e: ScheduledAction|
                    if same_key(e, *key) && e.status == ActionStatus::Pending {
                        with_status(e, st)
                    } else {
                        e
                    },
            ),
    {
        let ghost s = self@;
        let mut i: usize = 0;
        while i < self.entries.len()
            invariant
                i <= s.len(),
                self.entries@ == s,
                s == old(self)@,
                keys_unique(s),
                forall|k: int| 0 <= k < i ==> !same_key(#[trigger] s[k], *key),
            decreases s.len() - i,
        {
            let x = self.entries[i];
            if x.rule_id == key.rule_id && x.scheduled_date.days_from_ce
                == key.scheduled_date.days_from_ce && x.start_hour == key.start_hour {
                proof {
                    assert(x.scheduled_date == key.scheduled_date);
                    assert(same_key(s[i as int], *key));
                    assert forall|k: int| 0 <= k < s.len() && k != i implies !same_key(
                        #[trigger] s[k],
                        *key,
                    ) by {
                        if k > i {
                            assert(!same_key(s[i as int], s[k]));
                        } else {
                            assert(!same_key(s[k], s[i as int]));
                        }
                    }
                }
                if x.status != ActionStatus::Pending {
                    proof {
                        assert(self@ =~= s.map_values(
                            |e: ScheduledAction|
                                if same_key(e, *key) && e.status == ActionStatus::Pending {
                                    with_status(e, st)
                                } else {
                                    e
                                },
                        ));
                    }
                    return false;
                }
                self.entries.set(i, ScheduledAction { status: st, ..x });
                proof {
                    assert(self@ =~= s.map_values(
                        |e: ScheduledAction|
                            if same_key(e, *key) && e.status == ActionStatus::Pending {
                                with_status(e, st)
                            } else {
                                e
                            },
                    ));
                    assert forall|a: int, b: int| 0 <= a < b < self@.len() implies !same_key(
                        #[trigger] self@[a],
                        #[trigger] self@[b],
                    ) by {
                        assert(!same_key(s[a], s[b]));
                    }
                }
                return true;
            }
            i = i + 1;
        }
        proof {
            assert(self@ =~= s.map_values(
                |e: ScheduledAction|
                    if same_key(e, *key) && e.status == ActionStatus::Pending {
                        with_status(e, st)
                    } else {
                        e
                    },
            ));
        }
        false
    }

    /// Sets to `st` the status of every entry that `which` picks; the spec
    /// of `which` is `pick`. Returns how many it changed.
    fn set_status_where(
        &mut self,
        rule: Option<u128>,
        today: Date,
        now: TimeOfDay,
        st: ActionStatus,
        Ghost(pick): Ghost<spec_fn(ScheduledAction) -> bool>,
    ) -> (r: usize)
        requires
            old(self).wf(),
            forall|e: ScheduledAction| #[trigger] pick(e) == match rule {
                Some(id) => future_pending_of(e, id, today, now),
                None => is_expired(e, today, now),
            },
        ensures
            final(self).wf(),
            final(self)@ == old(self)@.map_values(
                |e: ScheduledAction| if pick(e) { with_status(e, st) } else { e },
            ),
            r == old(self)@.filter(pick).len(),
    {
        let ghost s = self@;
        let mut n: usize = 0;
        let mut i: usize = 0;
        while i < self.entries.len()
            invariant
                i <= s.len(),
                self.entries@.len() == s.len(),
                keys_unique(s),
                forall|e: ScheduledAction| #[trigger] pick(e) == match rule {
                    Some(id) => future_pending_of(e, id, today, now),
                    None => is_expired(e, today, now),
                },
                forall|k: int| 0 <= k < i ==> #[trigger] self.entries@[k] == (if pick(s[k]) {
                    with_status(s[k], st)
                } else {
                    s[k]
                }),
                forall|k: int| i <= k < s.len() ==> #[trigger] self.entries@[k] == s[k],
                n == s.subrange(0, i as int).filter(pick).len(),
                n <= i,
            decreases s.len() - i,
        {
            let x = self.entries[i];
            proof {
                assert(s.subrange(0, i as int + 1) =~= s.subrange(0, i as int).push(x));
                s.subrange(0, i as int).lemma_filter_push(x, pick);
            }
            let hit = match rule {
                Some(id) => x.rule_id == id && x.status == ActionStatus::Pending && (
                x.scheduled_date.days_from_ce > today.days_from_ce || (
                x.scheduled_date.days_from_ce == today.days_from_ce && (x.start_hour as u32)
                    * 3600 > now.secs)),
                None => x.status == ActionStatus::Pending && ((x.scheduled_date.days_from_ce
                    == today.days_from_ce && x.end_hour > x.start_hour && (x.end_hour as u32)
                    * 3600 <= now.secs) || x.scheduled_date.days_from_ce
                    < today.days_from_ce),
            };
            if hit {
                let y = ScheduledAction { status: st, ..x };
                self.entries.set(i, y);
                n = n + 1;
            }
            i = i + 1;
        }
        proof {
            assert(s.subrange(0, s.len() as int) =~= s);
            assert(self@ =~= s.map_values(
                |e: ScheduledAction| if pick(e) { with_status(e, st) } else { e },
            ));
            assert forall|a: int, b: int| 0 <= a < b < self@.len() implies !same_key(
                #[trigger] self@[a],
                #[trigger] self@[b],
            ) by {
                assert(!same_key(s[a], s[b]));
            }
        }
        n
    }
}

/// Marks `Cancelled` the pending entries of `rule_id` whose slot has not
/// started by `now` on `today`; everything else stays as it is. Returns how
/// many it cancelled.
pub fn cancel_pending_schedules_for_rule(
    table: &mut ActionTable,
    rule_id: u128,
    today: Date,
    now: TimeOfDay,
) -> (r: usize)
    requires
        old(table).wf(),
    ensures
        final(table).wf(),
        final(table)@ == old(table)@.map_values(
            |e: ScheduledAction|
                if future_pending_of(e, rule_id, today, now) {
                    with_status(e, ActionStatus::Cancelled)
                } else {
                    e
                },
        ),
        r == old(table)@.filter(|e: ScheduledAction| future_pending_of(e, rule_id, today, now)).len(),
{
    let ghost pick = |e: ScheduledAction| future_pending_of(e, rule_id, today, now);
    let r = table.set_status_where(Some(rule_id), today, now, ActionStatus::Cancelled, Ghost(pick));
    proof {
        assert(final(table)@ =~= old(table)@.map_values(
            |e: ScheduledAction|
                if future_pending_of(e, rule_id, today, now) {
                    with_status(e, ActionStatus::Cancelled)
                } else {
                    e
                },
        ));
    }
    r
}

/// Marks `Missed` every pending entry whose slot is over at `now` on
/// `today`: those of `today` whose slot has ended (a slot that runs to
/// midnight never has, the same day), and all those of earlier dates.
/// Returns how many it marked.
pub fn mark_expired_actions_as_missed(table: &mut ActionTable, today: Date, now: TimeOfDay) -> (r: usize)
    requires
        old(table).wf(),
    ensures
        final(table).wf(),
        final(table)@ == old(table)@.map_values(
            |e: ScheduledAction|
                if is_expired(e, today, now) {
                    with_status(e, ActionStatus::Missed)
                } else {
                    e
                },
        ),
        r == old(table)@.filter(|e: ScheduledAction| is_expired(e, today, now)).len(),
{
    let ghost pick = |e: ScheduledAction| is_expired(e, today, now);
    let r = table.set_status_where(None, today, now, ActionStatus::Missed, Ghost(pick));
    proof {
        assert(final(table)@ =~= old(table)@.map_values(
            |e: ScheduledAction|
                if is_expired(e, today, now) {
                    with_status(e, ActionStatus::Missed)
                } else {
                    e
                },
        ));
    }
    r
}

} // verus!

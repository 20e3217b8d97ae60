//! The transaction-state engine: an ordered, time-keyed store of transaction
//! records, the per-participant substate aggregation rule, and the periodic
//! expiration/eviction sweep.
use vstd::prelude::*;
use crate::codec::{
    ID_BASE, ID_WIDTH, id_chars, spec_id, generate_id, lemma_pow36_values,
    lemma_id_chars_injective,
};

verus! {

/// Liveness horizon in seconds: a transaction still pending after this age
/// is marked expired by the sweep.
pub const TIMEOUT: u64 = 60;

/// Dead-letter horizon in seconds: a record older than this is removed from
/// the store by the sweep, whatever its status.
pub const DEAD_TIMEOUT: u64 = 300;

pub const NANOS_PER_SEC: u64 = 1000000000;

pub const TIMEOUT_NANOS: u64 = TIMEOUT * NANOS_PER_SEC;

pub const DEAD_TIMEOUT_NANOS: u64 = DEAD_TIMEOUT * NANOS_PER_SEC;

/// Overall status of a transaction.
#[derive(Clone, Copy, PartialEq, Eq, Structural, Debug)]
pub enum TrStatus {
    Pending,
    Confirmed,
    Expired,
    Aborted,
}

/// One participant's contribution status within a transaction.
#[derive(Clone, Copy, PartialEq, Eq, Structural, Debug)]
pub enum TrSubstatus {
    Pending,
    Confirmed,
    Aborted,
}

/// One participant's slice of a transaction.
pub struct TrSubstate {
    pub service: String,
    pub substatus: TrSubstatus,
}

/// One transaction record: its identifier, its aggregated status, and one
/// substate per participant occurrence, in declaration order.
pub struct TransactionState {
    pub id: String,
    pub status: TrStatus,
    pub substates: Vec<TrSubstate>,
}

/// A record together with the numeric key its identifier renders.
pub struct StoreEntry {
    pub key: u64,
    pub state: TransactionState,
}

/// The in-memory transaction store: records sorted by ascending key, that
/// is from the newest to the oldest.
pub struct TransactionStore {
    pub entries: Vec<StoreEntry>,
}

pub struct TrSubstateView {
    pub service: Seq<char>,
    pub substatus: TrSubstatus,
}

pub struct TransactionStateView {
    pub id: Seq<char>,
    pub status: TrStatus,
    pub substates: Seq<TrSubstateView>,
}

pub struct StoreEntryView {
    pub key: u64,
    pub state: TransactionStateView,
}

impl View for TrSubstate {
    type V = TrSubstateView;

    open spec fn view(&self) -> TrSubstateView {
        TrSubstateView { service: self.service@, substatus: self.substatus }
    }
}

impl View for TransactionState {
    type V = TransactionStateView;

    open spec fn view(&self) -> TransactionStateView {
        TransactionStateView {
            id: self.id@,
            status: self.status,
            substates: self.substates@.map_values(|s: TrSubstate| s@),
        }
    }
}

impl View for StoreEntry {
    type V = StoreEntryView;

    open spec fn view(&self) -> StoreEntryView {
        StoreEntryView { key: self.key, state: self.state@ }
    }
}

impl View for TransactionStore {
    type V = Seq<StoreEntryView>;

    open spec fn view(&self) -> Seq<StoreEntryView> {
        Seq::new(self.entries@.len(), |i: int| self.entries@[i]@)
    }
}

/// Some substate is aborted.
pub open spec fn any_aborted(subs: Seq<TrSubstateView>) -> bool {
    exists|i: int| 0 <= i < subs.len() && subs[i].substatus == TrSubstatus::Aborted
}

/// Every substate is confirmed.
pub open spec fn all_confirmed(subs: Seq<TrSubstateView>) -> bool {
    forall|i: int| 0 <= i < subs.len() ==> subs[i].substatus == TrSubstatus::Confirmed
}

/// The aggregation rule: aborted if any substate is aborted, else confirmed
/// if all substates are confirmed, else the current status stands.
pub open spec fn aggregate(subs: Seq<TrSubstateView>, current: TrStatus) -> TrStatus {
    if any_aborted(subs) {
        TrStatus::Aborted
    } else if all_confirmed(subs) {
        TrStatus::Confirmed
    } else {
        current
    }
}

/// Coherence of a record's status with its substates: confirmed only with
/// every substate confirmed, aborted only with an aborted substate.
pub open spec fn record_inv(t: TransactionStateView) -> bool {
    &&& t.status == TrStatus::Confirmed ==> all_confirmed(t.substates)
    &&& t.status == TrStatus::Aborted ==> any_aborted(t.substates)
}

/// Well-formedness of one store entry: the key is a possible key and the
/// identifier is its rendering, and the record is coherent.
pub open spec fn entry_wf(e: StoreEntryView) -> bool {
    &&& e.key <= ID_BASE
    &&& e.state.id == id_chars(e.key as nat, ID_WIDTH as nat)
    &&& record_inv(e.state)
}

/// Well-formedness of the store: entries strictly sorted by key (newest
/// first) and each entry well-formed.
pub open spec fn entries_wf(s: Seq<StoreEntryView>) -> bool {
    &&& forall|i: int, j: int| 0 <= i < j < s.len() ==> s[i].key < s[j].key
    &&& forall|i: int| 0 <= i < s.len() ==> entry_wf(#[trigger] s[i])
}

/// The store holds a record under this identifier.
pub open spec fn contains_id(s: Seq<StoreEntryView>, id: Seq<char>) -> bool {
    exists|i: int| 0 <= i < s.len() && s[i].state.id == id
}

impl TransactionStore {
    pub open spec fn wf(&self) -> bool {
        entries_wf(self@)
    }

    /// An empty store.
    pub fn new() -> (s: TransactionStore)
        ensures
            s@ == Seq::<StoreEntryView>::empty(),
            s.wf(),
    {
        let s = TransactionStore { entries: Vec::new() };
        proof {
            assert(s@ =~= Seq::<StoreEntryView>::empty());
        }
        s
    }

    /// Point lookup: the status of the record under `id`, or `None` when no
    /// record carries that identifier.
    pub fn read_status(&self, id: &String) -> (r: Option<TrStatus>)
        requires
            self.wf(),
        ensures
            r is Some <==> contains_id(self@, id@),
            forall|i: int|
                0 <= i < self@.len() && self@[i].state.id == id@ ==> r == Some(
                    self@[i].state.status,
                ),
    {
        let n = self.entries.len();
        let mut i: usize = 0;
        while i < n
            invariant
                self.wf(),
                n == self.entries@.len(),
                i <= n,
                forall|j: int| 0 <= j < i ==> self@[j].state.id != id@,
            decreases n - i,
        {
            if self.entries[i].state.id == *id {
                let st = self.entries[i].state.status;
                proof {
                    lemma_distinct_ids(self@, i as int);
                }
                return Some(st);
            }
            i = i + 1;
        }
        None
    }
}

/// In a well-formed store, distinct entries carry distinct identifiers, so
/// a record that matches an identifier is the only one that does.
proof fn lemma_distinct_ids(s: Seq<StoreEntryView>, i: int)
    requires
        entries_wf(s),
        0 <= i < s.len(),
    ensures
        forall|j: int|
            0 <= j < s.len() && #[trigger] s[j].state.id == s[i].state.id ==> j == i,
{
    assert forall|j: int|
        0 <= j < s.len() && #[trigger] s[j].state.id == s[i].state.id implies j == i by {
        if j != i {
            lemma_pow36_values();
            assert(s[j].key != s[i].key);
            lemma_id_chars_injective(s[j].key as nat, s[i].key as nat, ID_WIDTH as nat);
        }
    }
}

/// The substate list with its first entry for `service` set to `new`, or
/// `None` when no substate carries that service name.
pub open spec fn update_first_substate(
    subs: Seq<TrSubstateView>,
    service: Seq<char>,
    new: TrSubstatus,
) -> Option<Seq<TrSubstateView>>
    decreases subs.len(),
{
    if subs.len() == 0 {
        None
    } else if subs[0].service == service {
        Some(subs.update(0, TrSubstateView { service: subs[0].service, substatus: new }))
    } else {
        match update_first_substate(subs.drop_first(), service, new) {
            Some(rest) => Some(seq![subs[0]] + rest),
            None => None,
        }
    }
}

proof fn lemma_update_first_none(subs: Seq<TrSubstateView>, service: Seq<char>, new: TrSubstatus)
    requires
        forall|m: int| 0 <= m < subs.len() ==> (#[trigger] subs[m]).service != service,
    ensures
        update_first_substate(subs, service, new) is None,
    decreases subs.len(),
{
    if subs.len() > 0 {
        lemma_update_first_none(subs.drop_first(), service, new);
    }
}

proof fn lemma_update_first_at(
    subs: Seq<TrSubstateView>,
    service: Seq<char>,
    new: TrSubstatus,
    j: int,
)
    requires
        0 <= j < subs.len(),
        subs[j].service == service,
        forall|m: int| 0 <= m < j ==> (#[trigger] subs[m]).service != service,
    ensures
        update_first_substate(subs, service, new) == Some(
            subs.update(j, TrSubstateView { service: subs[j].service, substatus: new }),
        ),
    decreases j,
{
    if j > 0 {
        lemma_update_first_at(subs.drop_first(), service, new, j - 1);
        assert(seq![subs[0]] + subs.drop_first().update(
            j - 1,
            TrSubstateView { service: subs[j].service, substatus: new },
        ) =~= subs.update(j, TrSubstateView { service: subs[j].service, substatus: new }));
    }
}

/// Every record under this identifier (there is at most one in a
/// well-formed store) is still pending.
pub open spec fn all_matching_pending(s: Seq<StoreEntryView>, id: Seq<char>) -> bool {
    forall|i: int|
        0 <= i < s.len() && (#[trigger] s[i]).state.id == id ==> s[i].state.status
            == TrStatus::Pending
}

proof fn lemma_matching_pending(s: Seq<StoreEntryView>, id: Seq<char>, i: int)
    requires
        all_matching_pending(s, id),
        0 <= i < s.len(),
        s[i].state.id == id,
    ensures
        s[i].state.status == TrStatus::Pending,
{
}

/// A successful substate update really places `new` somewhere in the list.
pub proof fn lemma_update_first_sets(
    subs: Seq<TrSubstateView>,
    service: Seq<char>,
    new: TrSubstatus,
)
    requires
        update_first_substate(subs, service, new) is Some,
    ensures
        ({
            let subs2 = update_first_substate(subs, service, new)->Some_0;
            exists|j: int| 0 <= j < subs2.len() && subs2[j].substatus == new
        }),
    decreases subs.len(),
{
    if subs.len() > 0 && subs[0].service != service {
        lemma_update_first_sets(subs.drop_first(), service, new);
        let rest = update_first_substate(subs.drop_first(), service, new)->Some_0;
        let subs2 = update_first_substate(subs, service, new)->Some_0;
        let w = choose|j: int| 0 <= j < rest.len() && rest[j].substatus == new;
        assert(subs2[w + 1] == rest[w]);
    } else {
        let subs2 = update_first_substate(subs, service, new)->Some_0;
        assert(subs2[0].substatus == new);
    }
}

/// What `update_substatus` leaves behind for the record at index `i` of the
/// prior store: the first substate for `service` is set and the aggregation
/// rule re-run, or nothing changes and the unknown-service error comes back.
pub open spec fn update_post(
    pre: Seq<StoreEntryView>,
    i: int,
    service: Seq<char>,
    new: TrSubstatus,
    r: Result<(), &'static str>,
    post: Seq<StoreEntryView>,
) -> bool {
    match update_first_substate(pre[i].state.substates, service, new) {
        Some(subs2) => r is Ok && post == pre.update(
            i,
            StoreEntryView {
                key: pre[i].key,
                state: TransactionStateView {
                    id: pre[i].state.id,
                    status: aggregate(subs2, pre[i].state.status),
                    substates: subs2,
                },
            },
        ),
        None => (r matches Err(m) && m@ == "unknown service"@) && post == pre,
    }
}

impl TransactionStore {
    /// Sets one participant's substate within the record under `id` and
    /// immediately re-runs the aggregation rule on that record; fails when
    /// the identifier is unknown or the record has no substate for
    /// `service`. Callers only update records that are still pending.
    pub fn update_substatus(
        &mut self,
        id: &String,
        service: &String,
        new_substatus: TrSubstatus,
    ) -> (r: Result<(), &'static str>)
        requires
            old(self).wf(),
            all_matching_pending(old(self)@, id@),
        ensures
            final(self).wf(),
            !contains_id(old(self)@, id@) ==> final(self)@ == old(self)@ && (r matches Err(m)
                && m@ == "transaction not found"@),
            forall|i: int|
                0 <= i < old(self)@.len() && (#[trigger] old(self)@[i]).state.id == id@
                    ==> update_post(old(self)@, i, service@, new_substatus, r, final(self)@),
    {
        let n = self.entries.len();
        let mut i: usize = 0;
        while i < n
            invariant
                *self == *old(self),
                self.wf(),
                all_matching_pending(old(self)@, id@),
                n == self.entries@.len(),
                i <= n,
                forall|j: int| 0 <= j < i ==> self@[j].state.id != id@,
            decreases n - i,
        {
            if self.entries[i].state.id == *id {
                proof {
                    lemma_distinct_ids(self@, i as int);
                }
                let ghost subs0 = self@[i as int].state.substates;
                let m = self.entries[i].state.substates.len();
                let mut j: usize = 0;
                while j < m
                    invariant
                        *self == *old(self),
                        self.wf(),
                        all_matching_pending(old(self)@, id@),
                        i < n,
                        n == self.entries@.len(),
                        m == self.entries@[i as int].state.substates@.len(),
                        j <= m,
                        subs0 == self@[i as int].state.substates,
                        self@[i as int].state.id == id@,
                        forall|q: int| 0 <= q < j ==> subs0[q].service != service@,
                    decreases m - j,
                {
                    if self.entries[i].state.substates[j].service == *service {
                        proof {
                            assert(subs0[j as int] == self.entries@[i as int].state.substates@[
                                j as int
                            ]@);
                        }
                        let mut entry = self.entries.remove(i);
                        let mut sub = entry.state.substates.remove(j);
                        sub.substatus = new_substatus;
                        entry.state.substates.insert(j, sub);
                        let st = compute_aggregate(&entry.state.substates, entry.state.status);
                        entry.state.status = st;
                        self.entries.insert(i, entry);
                        proof {
                            let pre = old(self)@;
                            let subs2 = subs0.update(
                                j as int,
                                TrSubstateView { service: subs0[j as int].service, substatus:
                                    new_substatus },
                            );
                            lemma_update_first_at(subs0, service@, new_substatus, j as int);
                            assert(entry@.state.substates =~= subs2);
                            assert(self@ =~= pre.update(
                                i as int,
                                StoreEntryView {
                                    key: pre[i as int].key,
                                    state: TransactionStateView {
                                        id: pre[i as int].state.id,
                                        status: aggregate(subs2, pre[i as int].state.status),
                                        substates: subs2,
                                    },
                                },
                            ));
                            lemma_distinct_ids(pre, i as int);
                            let post = self@;
                            lemma_matching_pending(old(self)@, id@, i as int);
                            assert(pre[i as int].state.status == TrStatus::Pending);
                            assert(subs2.len() == subs0.len());
                            assert(record_inv(post[i as int].state));
                            assert forall|a: int| 0 <= a < post.len() implies entry_wf(
                                #[trigger] post[a],
                            ) by {
                                if a != i as int {
                                    assert(post[a] == pre[a]);
                                    assert(entry_wf(pre[a]));
                                }
                            }
                            assert(entries_wf(post));
                        }
                        return Ok(());
                    }
                    j = j + 1;
                }
                proof {
                    lemma_update_first_none(subs0, service@, new_substatus);
                    lemma_distinct_ids(self@, i as int);
                }
                return Err("unknown service");
            }
            i = i + 1;
        }
        Err("transaction not found")
    }
}

/// The aggregation rule, executably: recomputes a record's overall status
/// from its substates.
pub fn compute_aggregate(substates: &Vec<TrSubstate>, current: TrStatus) -> (st: TrStatus)
    ensures
        st == aggregate(substates@.map_values(|s: TrSubstate| s@), current),
{
    let ghost subs = substates@.map_values(|s: TrSubstate| s@);
    let n = substates.len();
    let mut i: usize = 0;
    let mut aborted = false;
    let mut confirmed = true;
    while i < n
        invariant
            n == substates@.len(),
            subs == substates@.map_values(|s: TrSubstate| s@),
            i <= n,
            aborted <==> exists|j: int|
                0 <= j < i && subs[j].substatus == TrSubstatus::Aborted,
            confirmed <==> forall|j: int|
                0 <= j < i ==> subs[j].substatus == TrSubstatus::Confirmed,
        decreases n - i,
    {
        match substates[i].substatus {
            TrSubstatus::Aborted => {
                aborted = true;
                confirmed = false;
            },
            TrSubstatus::Confirmed => {
            },
            TrSubstatus::Pending => {
                confirmed = false;
            },
        }
        proof {
            assert(subs[i as int] == substates@[i as int]@);
        }
        i = i + 1;
    }
    if aborted {
        TrStatus::Aborted
    } else if confirmed {
        TrStatus::Confirmed
    } else {
        current
    }
}

/// Re-runs the aggregation rule on one record, leaving its identifier and
/// substates as they are.
pub fn actualize_status(transaction: &mut TransactionState)
    ensures
        final(transaction).id == old(transaction).id,
        final(transaction).substates == old(transaction).substates,
        final(transaction)@.status == aggregate(
            old(transaction)@.substates,
            old(transaction)@.status,
        ),
{
    let st = compute_aggregate(&transaction.substates, transaction.status);
    transaction.status = st;
}

/// Length of the leading run of entries with keys below `key`; in a store
/// sorted by ascending key this is where `key` would be inserted, and the
/// cut between records fresher and older than the horizon `key` renders.
pub open spec fn prefix_lt(s: Seq<StoreEntryView>, key: u64) -> int
    decreases s.len(),
{
    if s.len() == 0 {
        0
    } else if s[0].key < key {
        1 + prefix_lt(s.drop_first(), key)
    } else {
        0
    }
}

pub proof fn lemma_prefix_lt_unique(s: Seq<StoreEntryView>, key: u64, idx: int)
    requires
        0 <= idx <= s.len(),
        forall|j: int| 0 <= j < idx ==> (#[trigger] s[j]).key < key,
        idx < s.len() ==> s[idx].key >= key,
    ensures
        prefix_lt(s, key) == idx,
    decreases s.len(),
{
    if s.len() > 0 && idx > 0 {
        assert(s[0].key < key);
        assert forall|j: int| 0 <= j < idx - 1 implies (#[trigger] s.drop_first()[j]).key
            < key by {
            assert(s.drop_first()[j] == s[j + 1]);
        }
        assert(idx - 1 < s.drop_first().len() ==> s.drop_first()[idx - 1].key >= key);
        lemma_prefix_lt_unique(s.drop_first(), key, idx - 1);
    }
}

pub proof fn lemma_prefix_lt_bounds(s: Seq<StoreEntryView>, key: u64)
    ensures
        0 <= prefix_lt(s, key) <= s.len(),
        forall|j: int| 0 <= j < prefix_lt(s, key) ==> (#[trigger] s[j]).key < key,
        prefix_lt(s, key) < s.len() ==> s[prefix_lt(s, key)].key >= key,
    decreases s.len(),
{
    if s.len() > 0 && s[0].key < key {
        lemma_prefix_lt_bounds(s.drop_first(), key);
        assert forall|j: int| 0 <= j < prefix_lt(s, key) implies (#[trigger] s[j]).key
            < key by {
            if j > 0 {
                assert(s.drop_first()[j - 1] == s[j]);
            }
        }
        if prefix_lt(s, key) < s.len() {
            assert(s.drop_first()[prefix_lt(s, key) - 1] == s[prefix_lt(s, key)]);
        }
    }
}

/// The key standing for the dead-letter horizon: records at or past it are
/// older than `DEAD_TIMEOUT` seconds.
pub open spec fn dead_key(now: u64) -> u64
    recommends
        DEAD_TIMEOUT_NANOS <= now <= ID_BASE,
{
    (ID_BASE - (now - DEAD_TIMEOUT_NANOS)) as u64
}

/// The key standing for the liveness horizon: records at or past it are
/// older than `TIMEOUT` seconds.
pub open spec fn live_key(now: u64) -> u64
    recommends
        TIMEOUT_NANOS <= now <= ID_BASE,
{
    (ID_BASE - (now - TIMEOUT_NANOS)) as u64
}

/// The entry with its record marked expired.
pub open spec fn expire_entry(e: StoreEntryView) -> StoreEntryView {
    StoreEntryView {
        key: e.key,
        state: TransactionStateView {
            id: e.state.id,
            status: TrStatus::Expired,
            substates: e.state.substates,
        },
    }
}

/// Every record at or past the liveness horizon that is still pending is
/// marked expired; every other record stands as it is.
pub open spec fn mark_stale(s: Seq<StoreEntryView>, live: u64) -> Seq<StoreEntryView> {
    s.map_values(
        |e: StoreEntryView|
            if live <= e.key && e.state.status == TrStatus::Pending {
                expire_entry(e)
            } else {
                e
            },
    )
}

/// One sweep pass: the records older than the dead-letter horizon are
/// dropped, and of the rest the stale pending ones are marked expired.
pub open spec fn sweep_view(s: Seq<StoreEntryView>, now: u64) -> Seq<StoreEntryView> {
    mark_stale(s.subrange(0, prefix_lt(s, dead_key(now))), live_key(now))
}

impl TransactionStore {
    /// One sweep tick: evicts every record older than the dead-letter
    /// horizon and marks every still-pending record older than the liveness
    /// horizon as expired. The whole stale range is walked.
    pub fn check_expired_transactions(&mut self, now: u64)
        requires
            old(self).wf(),
            DEAD_TIMEOUT_NANOS <= now,
            now <= ID_BASE,
        ensures
            final(self).wf(),
            final(self)@ == sweep_view(old(self)@, now),
    {
        let dead: u64 = ID_BASE - (now - DEAD_TIMEOUT_NANOS);
        let live: u64 = ID_BASE - (now - TIMEOUT_NANOS);
        let n = self.entries.len();
        let mut idx: usize = 0;
        while idx < n && self.entries[idx].key < dead
            invariant
                *self == *old(self),
                self.wf(),
                n == self.entries@.len(),
                idx <= n,
                forall|j: int| 0 <= j < idx ==> (#[trigger] self@[j]).key < dead,
            decreases n - idx,
        {
            idx = idx + 1;
        }
        proof {
            lemma_prefix_lt_unique(self@, dead, idx as int);
        }
        self.entries.truncate(idx);
        proof {
            assert(self@ =~= old(self)@.subrange(0, idx as int));
        }
        let ghost mid = self@;
        let m = self.entries.len();
        let mut i: usize = 0;
        while i < m
            invariant
                m == self.entries@.len(),
                mid.len() == m,
                i <= m,
                entries_wf(mid),
                forall|j: int| i <= j < m ==> #[trigger] self@[j] == mid[j],
                forall|j: int|
                    0 <= j < i ==> #[trigger] self@[j] == (
                    if live <= mid[j].key && mid[j].state.status == TrStatus::Pending {
                        expire_entry(mid[j])
                    } else {
                        mid[j]
                    }),
            decreases m - i,
        {
            if self.entries[i].key >= live {
                if self.entries[i].state.status == TrStatus::Pending {
                    let ghost before = self@;
                    let ghost ents0 = self.entries@;
                    let mut entry = self.entries.remove(i);
                    entry.state.status = TrStatus::Expired;
                    let ghost e0 = entry;
                    self.entries.insert(i, entry);
                    proof {
                        assert(self.entries@ =~= ents0.update(i as int, e0));
                        assert(before[i as int] == mid[i as int]);
                        assert(ents0[i as int]@ == before[i as int]);
                        assert(e0.key == ents0[i as int].key);
                        assert(e0.state.id == ents0[i as int].state.id);
                        assert(e0.state.substates == ents0[i as int].state.substates);
                        assert(e0@ == expire_entry(mid[i as int]));
                        assert(self@ =~= before.update(i as int, expire_entry(mid[i as int])));
                    }
                }
            }
            i = i + 1;
        }
        proof {
            assert(self@ =~= mark_stale(mid, live_key(now)));
            assert forall|a: int| 0 <= a < self@.len() implies entry_wf(
                #[trigger] self@[a],
            ) by {
                assert(entry_wf(mid[a]));
            }
            assert forall|a: int, b: int| 0 <= a < b < self@.len() implies self@[a].key
                < self@[b].key by {
                assert(self@[a].key == mid[a].key);
                assert(self@[b].key == mid[b].key);
            }
            assert(entries_wf(self@));
        }
    }
}

/// The views of a sequence of strings.
pub open spec fn strings_view(s: Seq<String>) -> Seq<Seq<char>> {
    s.map_values(|x: String| x@)
}

/// One pending substate per participant occurrence, in declaration order.
pub open spec fn pending_substates(names: Seq<Seq<char>>) -> Seq<TrSubstateView> {
    names.map_values(|n: Seq<char>| TrSubstateView { service: n, substatus: TrSubstatus::Pending })
}

/// The entry a creation at instant `now` inserts: a pending record whose
/// identifier renders the key `ID_BASE - now`.
pub open spec fn new_entry_view(names: Seq<Seq<char>>, now: u64) -> StoreEntryView {
    StoreEntryView {
        key: (ID_BASE - now) as u64,
        state: TransactionStateView {
            id: spec_id(now),
            status: TrStatus::Pending,
            substates: pending_substates(names),
        },
    }
}

impl TransactionStore {
    /// Creates a transaction at instant `now` with one pending substate per
    /// participant occurrence, after running one inline sweep tick as a
    /// housekeeping step; the fresh record is inserted at its key's place
    /// and its identifier returned. The caller guarantees key uniqueness:
    /// no two transactions are created within the same nanosecond.
    pub fn create_pending_transaction(&mut self, services: &Vec<String>, now: u64) -> (id: String)
        requires
            old(self).wf(),
            DEAD_TIMEOUT_NANOS <= now,
            now <= ID_BASE,
            forall|i: int|
                0 <= i < old(self)@.len() ==> (#[trigger] old(self)@[i]).key != ID_BASE - now,
        ensures
            final(self).wf(),
            id@ == spec_id(now),
            final(self)@ == sweep_view(old(self)@, now).insert(
                prefix_lt(sweep_view(old(self)@, now), (ID_BASE - now) as u64),
                new_entry_view(strings_view(services@), now),
            ),
    {
        self.check_expired_transactions(now);
        let new_id = generate_id(now);
        let key: u64 = ID_BASE - now;
        let mut substates: Vec<TrSubstate> = Vec::new();
        let mut i: usize = 0;
        while i < services.len()
            invariant
                i <= services@.len(),
                substates@.len() == i,
                forall|j: int|
                    0 <= j < i ==> #[trigger] substates@[j]@ == (TrSubstateView {
                        service: services@[j]@,
                        substatus: TrSubstatus::Pending,
                    }),
            decreases services@.len() - i,
        {
            substates.push(
                TrSubstate { service: services[i].clone(), substatus: TrSubstatus::Pending },
            );
            i = i + 1;
        }
        let ghost swept = self@;
        let n = self.entries.len();
        let mut idx: usize = 0;
        while idx < n && self.entries[idx].key < key
            invariant
                self@ == swept,
                n == self.entries@.len(),
                idx <= n,
                forall|j: int| 0 <= j < idx ==> (#[trigger] self@[j]).key < key,
            decreases n - idx,
        {
            idx = idx + 1;
        }
        proof {
            let pre = old(self)@;
            lemma_prefix_lt_bounds(pre, dead_key(now));
            let cut = prefix_lt(pre, dead_key(now));
            assert forall|j: int| 0 <= j < swept.len() implies (#[trigger] swept[j]).key
                != key by {
                assert(swept[j].key == pre.subrange(0, cut)[j].key);
                assert(pre.subrange(0, cut)[j] == pre[j]);
                assert((#[trigger] pre[j]).key != ID_BASE - now);
            }
            lemma_prefix_lt_unique(self@, key, idx as int);
        }
        let state = TransactionState {
            id: new_id.clone(),
            status: TrStatus::Pending,
            substates,
        };
        self.entries.insert(idx, StoreEntry { key, state });
        proof {
            let names = strings_view(services@);
            assert(pending_substates(names) =~= state@.substates);
            assert(self@ =~= swept.insert(idx as int, new_entry_view(names, now)));
            let post = self@;
            assert forall|a: int| 0 <= a < post.len() implies (if a < idx {
                post[a] == swept[a]
            } else if a == idx {
                post[a] == new_entry_view(names, now)
            } else {
                post[a] == swept[a - 1]
            }) by {
                assert(post[a] == swept.insert(idx as int, new_entry_view(names, now))[a]);
            }
            assert forall|j: int| idx <= j < swept.len() implies (#[trigger] swept[j]).key
                > key by {
                assert(swept[idx as int].key >= key);
                assert(swept[j].key != key);
            }
            assert forall|a: int, b: int| 0 <= a < b < post.len() implies post[a].key
                < post[b].key by {
            }
            assert forall|a: int| 0 <= a < post.len() implies entry_wf(
                #[trigger] post[a],
            ) by {
            }
            assert(entries_wf(post));
        }
        new_id
    }
}

/// Abort precedence law: however the substates came to hold an aborted
/// entry, the aggregation rule reports the whole transaction aborted.
pub proof fn lemma_abort_dominates(subs: Seq<TrSubstateView>, current: TrStatus)
    requires
        any_aborted(subs),
    ensures
        aggregate(subs, current) == TrStatus::Aborted,
{
}

/// Status coherence law: in a well-formed store, a confirmed transaction
/// has every substate confirmed, and an aborted one has an aborted
/// substate; a record can leave `Pending` for no other reason than those
/// two or the sweeper's expiry.
pub proof fn lemma_status_substate_coherence(store: &TransactionStore, i: int)
    requires
        store.wf(),
        0 <= i < store@.len(),
    ensures
        store@[i].state.status == TrStatus::Confirmed ==> all_confirmed(store@[i].state.substates),
        store@[i].state.status == TrStatus::Aborted ==> any_aborted(store@[i].state.substates),
{
}

/// Expiration law: on a sweep at instant `now`, a record older than the
/// dead-letter horizon is removed outright and later lookups of its
/// identifier fail; a surviving still-pending record older than the
/// liveness horizon is marked expired; every other surviving record keeps
/// its status — in particular an expired record never reverts.
pub proof fn lemma_sweep_expiration(s: Seq<StoreEntryView>, now: u64, i: int)
    requires
        entries_wf(s),
        0 <= i < s.len(),
        DEAD_TIMEOUT_NANOS <= now <= ID_BASE,
    ensures
        s[i].key >= dead_key(now) ==> !contains_id(sweep_view(s, now), s[i].state.id),
        s[i].key < dead_key(now) ==> {
            let sw = sweep_view(s, now);
            &&& 0 <= i < sw.len()
            &&& sw[i].state.id == s[i].state.id
            &&& sw[i].state.status == (
                if live_key(now) <= s[i].key && s[i].state.status == TrStatus::Pending {
                    TrStatus::Expired
                } else {
                    s[i].state.status
                })
        },
{
    let dead = dead_key(now);
    let live = live_key(now);
    lemma_prefix_lt_bounds(s, dead);
    let cut = prefix_lt(s, dead);
    let sub = s.subrange(0, cut);
    let sw = sweep_view(s, now);
    assert(sw.len() == cut);
    if s[i].key >= dead {
        assert(i >= cut);
        if contains_id(sw, s[i].state.id) {
            let j = choose|j: int| 0 <= j < sw.len() && sw[j].state.id == s[i].state.id;
            assert(sub[j] == s[j]);
            assert(sw[j].state.id == s[j].state.id);
            lemma_distinct_ids(s, i);
            assert(false);
        }
    } else {
        if i >= cut {
            assert(cut < s.len());
            assert(s[cut].key >= dead);
            assert(s[i].key >= s[cut].key);
            assert(false);
        }
        assert(sub[i] == s[i]);
        assert(sw[i] == (
        if live <= sub[i].key && sub[i].state.status == TrStatus::Pending {
            expire_entry(sub[i])
        } else {
            sub[i]
        }));
    }
}

/// Index of the record under `id`, or -1 when there is none; the store
/// scan takes the first match, and in a well-formed store at most one
/// record matches.
pub open spec fn find_id(s: Seq<StoreEntryView>, id: Seq<char>) -> int
    decreases s.len(),
{
    if s.len() == 0 {
        -1
    } else if s[0].state.id == id {
        0
    } else {
        let rest = find_id(s.drop_first(), id);
        if rest == -1 {
            -1
        } else {
            1 + rest
        }
    }
}

pub proof fn lemma_find_id_props(s: Seq<StoreEntryView>, id: Seq<char>)
    ensures
        find_id(s, id) == -1 ==> !contains_id(s, id),
        find_id(s, id) != -1 ==> 0 <= find_id(s, id) < s.len() && s[find_id(s, id)].state.id
            == id && contains_id(s, id),
    decreases s.len(),
{
    if s.len() > 0 && s[0].state.id != id {
        lemma_find_id_props(s.drop_first(), id);
        if find_id(s, id) == -1 {
            if contains_id(s, id) {
                let w = choose|w: int| 0 <= w < s.len() && s[w].state.id == id;
                assert(s.drop_first()[w - 1] == s[w]);
                assert(contains_id(s.drop_first(), id));
                assert(false);
            }
        } else {
            assert(s.drop_first()[find_id(s.drop_first(), id)] == s[find_id(s, id)]);
        }
    }
}

} // verus!

//! The coordinator: participant registry, transaction creation with
//! participant validation, and the confirm/abort request protocol with its
//! bounded synchronous wait.
use vstd::prelude::*;
use vstd::string::StringExecFns;
use crate::codec::{ID_BASE, spec_id};
use crate::state_tracker::{
    TransactionStore, TrStatus, TrSubstatus, StoreEntryView, TransactionStateView,
    DEAD_TIMEOUT_NANOS, all_matching_pending, aggregate, update_first_substate, update_post,
    sweep_view, prefix_lt, new_entry_view, strings_view, find_id, lemma_find_id_props,
    lemma_update_first_sets, lemma_abort_dominates, all_confirmed, any_aborted,
};
use crate::handler::{TransactionInfo, service_names, message_names, lemma_service_names_take};

verus! {

/// Outcomes of the coordinator's confirm/abort protocol.
#[derive(Debug, PartialEq, Eq)]
pub enum TrErr {
    ArgsError(&'static str),
    Aborted(&'static str),
    Expired(&'static str),
    NotFound(&'static str),
    Unprocessable(&'static str),
    Timeout(&'static str),
    Repeated(&'static str),
}

/// One participant service: its name and the base address messages for it
/// are pushed to.
#[derive(Clone)]
pub struct ServiceConfig {
    pub name: String,
    pub address: String,
}

pub struct ServiceConfigView {
    pub name: Seq<char>,
    pub address: Seq<char>,
}

impl View for ServiceConfig {
    type V = ServiceConfigView;

    open spec fn view(&self) -> ServiceConfigView {
        ServiceConfigView { name: self.name@, address: self.address@ }
    }
}

/// The participant registry: service name to base address, loaded once at
/// startup and read-only afterwards.
pub struct ServiceRegistry {
    pub services: Vec<ServiceConfig>,
}

impl View for ServiceRegistry {
    type V = Seq<ServiceConfigView>;

    open spec fn view(&self) -> Seq<ServiceConfigView> {
        Seq::new(self.services@.len(), |i: int| self.services@[i]@)
    }
}

/// The registry holds a service of this name.
pub open spec fn contains_service(s: Seq<ServiceConfigView>, name: Seq<char>) -> bool {
    exists|i: int| 0 <= i < s.len() && s[i].name == name
}

impl ServiceRegistry {
    /// Names are unique: one address per service.
    pub open spec fn wf(&self) -> bool {
        forall|i: int, j: int| 0 <= i < j < self@.len() ==> self@[i].name != self@[j].name
    }

    /// An empty registry.
    pub fn new() -> (r: ServiceRegistry)
        ensures
            r@ == Seq::<ServiceConfigView>::empty(),
            r.wf(),
    {
        let r = ServiceRegistry { services: Vec::new() };
        proof {
            assert(r@ =~= Seq::<ServiceConfigView>::empty());
        }
        r
    }

    /// Registers one service: replaces the entry of the same name, or
    /// appends a new one.
    pub fn insert_service(&mut self, config: ServiceConfig)
        requires
            old(self).wf(),
        ensures
            final(self).wf(),
            contains_service(final(self)@, config@.name),
            !contains_service(old(self)@, config@.name) ==> final(self)@ == old(self)@.push(
                config@,
            ),
            forall|i: int|
                0 <= i < old(self)@.len() && (#[trigger] old(self)@[i]).name == config@.name
                    ==> final(self)@ == old(self)@.update(i, config@),
    {
        let n = self.services.len();
        let mut i: usize = 0;
        while i < n
            invariant
                *self == *old(self),
                self.wf(),
                n == self.services@.len(),
                i <= n,
                forall|j: int| 0 <= j < i ==> (#[trigger] self@[j]).name != config@.name,
            decreases n - i,
        {
            if self.services[i].name == config.name {
                let ghost pre = self@;
                let ghost c0 = config;
                let _ = self.services.remove(i);
                self.services.insert(i, config);
                proof {
                    assert(pre[i as int].name == c0@.name);
                    assert(contains_service(pre, c0@.name));
                    assert(self@ =~= pre.update(i as int, c0@));
                    assert(self@[i as int].name == c0@.name);
                    assert forall|a: int, b: int|
                        0 <= a < b < self@.len() implies self@[a].name != self@[b].name by {
                        assert(pre[a].name != pre[b].name);
                    }
                }
                return ;
            }
            i = i + 1;
        }
        let ghost pre = self@;
        let ghost c0 = config;
        self.services.push(config);
        proof {
            assert(self@ =~= pre.push(c0@));
            assert(self@[pre.len() as int].name == c0@.name);
        }
    }

    /// Looks one service up by name.
    pub fn read_service_config(&self, service: &String) -> (r: Option<ServiceConfig>)
        requires
            self.wf(),
        ensures
            r is Some <==> contains_service(self@, service@),
            forall|i: int|
                0 <= i < self@.len() && (#[trigger] self@[i]).name == service@ ==> (
                r matches Some(c) && c@ == self@[i]),
    {
        let n = self.services.len();
        let mut i: usize = 0;
        while i < n
            invariant
                self.wf(),
                n == self.services@.len(),
                i <= n,
                forall|j: int| 0 <= j < i ==> (#[trigger] self@[j]).name != service@,
            decreases n - i,
        {
            if self.services[i].name == *service {
                let c = ServiceConfig {
                    name: self.services[i].name.clone(),
                    address: self.services[i].address.clone(),
                };
                proof {
                    assert(self@[i as int].name == service@);
                    assert(contains_service(self@, service@));
                    assert forall|a: int|
                        0 <= a < self@.len() && (#[trigger] self@[a]).name == service@
                        implies a == i as int by {
                        if a != i as int {
                            assert(self@[a].name != self@[i as int].name);
                        }
                    }
                }
                return Some(c);
            }
            i = i + 1;
        }
        None
    }
}

/// The service list that YAML source text parses to, named once for the
/// whole extraction, which is a function of the text alone: `None` when the
/// text is not valid YAML; `Some(None)` when it parses but its first
/// document holds no "services" list (or there is no document); otherwise
/// one element per list entry in order, holding the entry's (name, address)
/// string pair, or `None` where the entry lacks the two string fields.
pub uninterp spec fn yaml_services_of(s: Seq<char>) -> Option<
    Option<Seq<Option<(Seq<char>, Seq<char>)>>>,
>;

/// The views of parsed service entries.
pub open spec fn entries_view(v: Seq<Option<(String, String)>>) -> Seq<
    Option<(Seq<char>, Seq<char>)>,
> {
    v.map_values(
        |e: Option<(String, String)>|
            match e {
                Some(p) => Some((p.0@, p.1@)),
                None => None,
            },
    )
}

/// The view of what `parse_service_entries` hands back.
pub open spec fn parsed_view(r: Option<Option<Vec<Option<(String, String)>>>>) -> Option<
    Option<Seq<Option<(Seq<char>, Seq<char>)>>>,
> {
    match r {
        None => None,
        Some(None) => Some(None),
        Some(Some(v)) => Some(Some(entries_view(v@))),
    }
}

/// Relies on yaml_rust::YamlLoader::load_from_str and on yaml_rust::Yaml's
/// str index (which never panics: a missing key or a non-map gives
/// `BadValue`) with its `Array` and `String` variants: parses the text and
/// pulls the "services" list out as plain (name, address) pairs, entry by
/// entry in order. The result depends on the text alone and carries the
/// name `yaml_services_of`.
#[verifier::external_body]
fn parse_service_entries(contents: &str) -> (r: Option<Option<Vec<Option<(String, String)>>>>)
    ensures
        parsed_view(r) == yaml_services_of(contents@),
{
    let docs = match yaml_rust::YamlLoader::load_from_str(contents) {
        Ok(d) => d,
        Err(_) => return None,
    };
    let list = match docs.first().map(|d| &d["services"]) {
        Some(yaml_rust::Yaml::Array(a)) => a,
        _ => return Some(None),
    };
    let pairs = list.iter().map(|e| match (&e["name"], &e["address"]) {
        (yaml_rust::Yaml::String(n), yaml_rust::Yaml::String(a)) => Some((n.clone(), a.clone())),
        _ => None,
    }).collect();
    Some(Some(pairs))
}

/// Index of the first registry entry of this name, or -1 when there is
/// none; under the registry's unique-names invariant at most one matches.
pub open spec fn find_service(s: Seq<ServiceConfigView>, name: Seq<char>) -> int
    decreases s.len(),
{
    if s.len() == 0 {
        -1
    } else if s[0].name == name {
        0
    } else {
        let rest = find_service(s.drop_first(), name);
        if rest == -1 {
            -1
        } else {
            1 + rest
        }
    }
}

pub proof fn lemma_find_service_props(s: Seq<ServiceConfigView>, name: Seq<char>)
    ensures
        find_service(s, name) == -1 ==> !contains_service(s, name),
        find_service(s, name) != -1 ==> 0 <= find_service(s, name) < s.len() && s[find_service(
            s,
            name,
        )].name == name && contains_service(s, name),
    decreases s.len(),
{
    if s.len() > 0 && s[0].name != name {
        lemma_find_service_props(s.drop_first(), name);
        if find_service(s, name) == -1 {
            if contains_service(s, name) {
                let w = choose|w: int| 0 <= w < s.len() && s[w].name == name;
                assert(s.drop_first()[w - 1] == s[w]);
                assert(contains_service(s.drop_first(), name));
                assert(false);
            }
        } else {
            assert(s.drop_first()[find_service(s.drop_first(), name)] == s[find_service(
                s,
                name,
            )]);
        }
    }
}

/// One registration: replaces the entry of the same name, or appends.
pub open spec fn register_entry(reg: Seq<ServiceConfigView>, c: ServiceConfigView) -> Seq<
    ServiceConfigView,
> {
    let i = find_service(reg, c.name);
    if i == -1 {
        reg.push(c)
    } else {
        reg.update(i, c)
    }
}

/// All parsed entries registered in order: a later duplicate name
/// overwrites an earlier address.
pub open spec fn register_all(
    reg: Seq<ServiceConfigView>,
    entries: Seq<Option<(Seq<char>, Seq<char>)>>,
) -> Seq<ServiceConfigView>
    decreases entries.len(),
{
    if entries.len() == 0 {
        reg
    } else {
        match entries[0] {
            Some(p) => register_all(
                register_entry(reg, ServiceConfigView { name: p.0, address: p.1 }),
                entries.drop_first(),
            ),
            None => reg,
        }
    }
}

proof fn lemma_register_all_snoc(
    reg: Seq<ServiceConfigView>,
    es: Seq<Option<(Seq<char>, Seq<char>)>>,
    e: Option<(Seq<char>, Seq<char>)>,
)
    requires
        e is Some,
        forall|j: int| 0 <= j < es.len() ==> (#[trigger] es[j]) is Some,
    ensures
        register_all(reg, es.push(e)) == register_entry(
            register_all(reg, es),
            (ServiceConfigView { name: (e->Some_0).0, address: (e->Some_0).1 }),
        ),
    decreases es.len(),
{
    let ce = ServiceConfigView { name: (e->Some_0).0, address: (e->Some_0).1 };
    if es.len() == 0 {
        assert(es.push(e)[0] == e);
        assert(es.push(e).drop_first() =~= Seq::<Option<(Seq<char>, Seq<char>)>>::empty());
        assert(register_all(reg, es.push(e)) == register_all(
            register_entry(reg, ce),
            es.push(e).drop_first(),
        ));
        assert(register_all(register_entry(reg, ce), es.push(e).drop_first()) == register_entry(
            reg,
            ce,
        ));
        assert(register_all(reg, es) == reg);
    } else {
        assert(es.push(e)[0] == es[0]);
        assert(es.push(e).drop_first() =~= es.drop_first().push(e));
        assert(es[0] is Some);
        assert forall|j: int|
            0 <= j < es.drop_first().len() implies (#[trigger] es.drop_first()[j]) is Some by {
            assert(es.drop_first()[j] == es[j + 1]);
        }
        let c0 = ServiceConfigView { name: (es[0]->Some_0).0, address: (es[0]->Some_0).1 };
        assert(register_all(reg, es.push(e)) == register_all(
            register_entry(reg, c0),
            es.drop_first().push(e),
        ));
        assert(register_all(reg, es) == register_all(register_entry(reg, c0), es.drop_first()));
        lemma_register_all_snoc(register_entry(reg, c0), es.drop_first(), e);
    }
}

impl ServiceRegistry {
    /// Loads the registry from YAML source text: the first document must
    /// hold a "services" list whose entries each carry string "name" and
    /// "address" fields. Every entry is validated before any is
    /// registered, so a failed load leaves the registry untouched; on
    /// success every pair is registered in order, a later duplicate name
    /// overwriting an earlier address.
    pub fn load_service_configs(&mut self, contents: &str) -> (r: Result<(), &'static str>)
        requires
            old(self).wf(),
        ensures
            final(self).wf(),
            ({
                match yaml_services_of(contents@) {
                    None => final(self)@ == old(self)@ && (r matches Err(m) && m@
                        == "Error while parsing the yaml file"@),
                    Some(None) => final(self)@ == old(self)@ && (r matches Err(m) && m@
                        == "Service list not defined"@),
                    Some(Some(entries)) => if (forall|j: int|
                        0 <= j < entries.len() ==> (#[trigger] entries[j]) is Some) {
                        r is Ok && final(self)@ == register_all(old(self)@, entries)
                    } else {
                        final(self)@ == old(self)@ && (r matches Err(m) && m@
                            == "Bad service config"@)
                    },
                }
            }),
    {
        let parsed = parse_service_entries(contents);
        let entries: Vec<Option<(String, String)>> = match parsed {
            None => {
                return Err("Error while parsing the yaml file");
            },
            Some(None) => {
                return Err("Service list not defined");
            },
            Some(Some(e)) => e,
        };
        let ghost ev = entries_view(entries@);
        let n = entries.len();
        let mut i: usize = 0;
        while i < n
            invariant
                *self == *old(self),
                self.wf(),
                n == entries@.len(),
                i <= n,
                ev == entries_view(entries@),
                yaml_services_of(contents@) == Some(Some(ev)),
                forall|j: int| 0 <= j < i ==> (#[trigger] ev[j]) is Some,
            decreases n - i,
        {
            if entries[i].is_none() {
                proof {
                    assert(ev[i as int] is None);
                }
                return Err("Bad service config");
            }
            proof {
                assert(ev[i as int] is Some);
            }
            i = i + 1;
        }
        let mut k: usize = 0;
        while k < n
            invariant
                self.wf(),
                n == entries@.len(),
                k <= n,
                ev == entries_view(entries@),
                forall|j: int| 0 <= j < n ==> (#[trigger] ev[j]) is Some,
                self@ == register_all(old(self)@, ev.take(k as int)),
            decreases n - k,
        {
            match &entries[k] {
                Some(p) => {
                    let cfg = ServiceConfig { name: p.0.clone(), address: p.1.clone() };
                    let ghost cv = cfg@;
                    let ghost pre = self@;
                    proof {
                        lemma_find_service_props(pre, cv.name);
                    }
                    self.insert_service(cfg);
                    proof {
                        let fi = find_service(pre, cv.name);
                        if fi != -1 {
                            assert(pre[fi].name == cv.name);
                        }
                        assert(self@ == register_entry(pre, cv));
                        assert(ev[k as int] == Some((cv.name, cv.address)));
                        lemma_register_all_snoc(old(self)@, ev.take(k as int), ev[k as int]);
                        assert(ev.take(k as int).push(ev[k as int]) =~= ev.take(k as int + 1));
                    }
                },
                None => {
                    proof {
                        assert(ev[k as int] is Some);
                        assert(false);
                    }
                },
            }
            k = k + 1;
        }
        proof {
            assert(ev.take(n as int) =~= ev);
        }
        Ok(())
    }
}

/// Index of the first participant name that the registry does not know, or
/// -1 when it knows them all.
pub open spec fn first_unknown(names: Seq<Seq<char>>, reg: Seq<ServiceConfigView>) -> int
    decreases names.len(),
{
    if names.len() == 0 {
        -1
    } else if !contains_service(reg, names[0]) {
        0
    } else {
        let rest = first_unknown(names.drop_first(), reg);
        if rest == -1 {
            -1
        } else {
            1 + rest
        }
    }
}

proof fn lemma_first_unknown_none(names: Seq<Seq<char>>, reg: Seq<ServiceConfigView>)
    requires
        forall|q: int| 0 <= q < names.len() ==> contains_service(reg, #[trigger] names[q]),
    ensures
        first_unknown(names, reg) == -1,
    decreases names.len(),
{
    if names.len() > 0 {
        assert forall|q: int|
            0 <= q < names.drop_first().len() implies contains_service(
            reg,
            #[trigger] names.drop_first()[q],
        ) by {
            assert(names.drop_first()[q] == names[q + 1]);
        }
        lemma_first_unknown_none(names.drop_first(), reg);
    }
}

proof fn lemma_first_unknown_at(names: Seq<Seq<char>>, reg: Seq<ServiceConfigView>, k: int)
    requires
        0 <= k < names.len(),
        forall|q: int| 0 <= q < k ==> contains_service(reg, #[trigger] names[q]),
        !contains_service(reg, names[k]),
    ensures
        first_unknown(names, reg) == k,
    decreases k,
{
    if k > 0 {
        assert forall|q: int| 0 <= q < k - 1 implies contains_service(
            reg,
            #[trigger] names.drop_first()[q],
        ) by {
            assert(names.drop_first()[q] == names[q + 1]);
        }
        assert(names.drop_first()[k - 1] == names[k]);
        lemma_first_unknown_at(names.drop_first(), reg, k - 1);
    }
}

/// Validates every participant of the submitted transaction against the
/// registry and, if all are known, creates the pending record (running one
/// inline sweep tick) and returns its identifier. With an unknown
/// participant nothing is created and the error names the first unknown
/// one. The transport then pushes each message to its participants;
/// delivery is fire-and-forget and cannot fail the creation.
pub fn create_transaction(
    registry: &ServiceRegistry,
    store: &mut TransactionStore,
    tr_data: &TransactionInfo,
    now: u64,
) -> (r: Result<String, String>)
    requires
        registry.wf(),
        old(store).wf(),
        DEAD_TIMEOUT_NANOS <= now,
        now <= ID_BASE,
        forall|i: int|
            0 <= i < old(store)@.len() ==> (#[trigger] old(store)@[i]).key != ID_BASE - now,
    ensures
        final(store).wf(),
        ({
            let names = service_names(tr_data@.messages);
            let fu = first_unknown(names, registry@);
            if fu == -1 {
                &&& r matches Ok(id) && id@ == spec_id(now)
                &&& final(store)@ == sweep_view(old(store)@, now).insert(
                    prefix_lt(sweep_view(old(store)@, now), (ID_BASE - now) as u64),
                    new_entry_view(names, now),
                )
            } else {
                &&& r matches Err(m) && m@ == "unknown service: "@ + names[fu]
                &&& final(store)@ == old(store)@
            }
        }),
{
    let ghost msgs = tr_data@.messages;
    let mut names: Vec<String> = Vec::new();
    proof {
        assert(msgs.take(0) =~= Seq::<crate::handler::TransactionMessageView>::empty());
        assert(strings_view(names@) =~= service_names(msgs.take(0)));
    }
    let mut i: usize = 0;
    while i < tr_data.messages.len()
        invariant
            msgs == tr_data@.messages,
            i <= msgs.len(),
            strings_view(names@) == service_names(msgs.take(i as int)),
        decreases msgs.len() - i,
    {
        let msg = &tr_data.messages[i];
        let ghost mn = message_names(msgs[i as int]);
        let mut j: usize = 0;
        proof {
            assert(mn.take(0) =~= Seq::<Seq<char>>::empty());
            assert(strings_view(names@) =~= service_names(msgs.take(i as int)) + mn.take(0));
        }
        while j < msg.services.len()
            invariant
                msgs == tr_data@.messages,
                i < msgs.len(),
                mn == message_names(msgs[i as int]),
                msg == &tr_data.messages[i as int],
                j <= msg.services@.len(),
                mn.len() == msg.services@.len(),
                strings_view(names@) == service_names(msgs.take(i as int)) + mn.take(j as int),
            decreases msg.services@.len() - j,
        {
            let ghost names0 = names@;
            names.push(msg.services[j].name.clone());
            proof {
                assert(msgs[i as int] == tr_data.messages@[i as int]@);
                assert(msgs[i as int].services[j as int] == tr_data.messages@[i as int].services@[
                    j as int
                ]@);
                assert(mn[j as int] == msg.services@[j as int]@.name);
                assert(strings_view(names@) =~= strings_view(names0).push(
                    msg.services@[j as int].name@,
                ));
                assert(strings_view(names@) =~= service_names(msgs.take(i as int)) + mn.take(
                    j + 1,
                ));
            }
            j = j + 1;
        }
        proof {
            assert(mn.take(msg.services@.len() as int) =~= mn);
            lemma_service_names_take(msgs, i as int);
        }
        i = i + 1;
    }
    proof {
        assert(msgs.take(msgs.len() as int) =~= msgs);
        assert(strings_view(names@) == service_names(msgs));
    }
    let ghost nv = strings_view(names@);
    let mut k: usize = 0;
    while k < names.len()
        invariant
            nv == strings_view(names@),
            nv == service_names(tr_data@.messages),
            *store == *old(store),
            store.wf(),
            registry.wf(),
            k <= names@.len(),
            nv.len() == names@.len(),
            forall|q: int| 0 <= q < k ==> contains_service(registry@, #[trigger] nv[q]),
        decreases names@.len() - k,
    {
        proof {
            assert(nv[k as int] == names@[k as int]@);
        }
        if registry.read_service_config(&names[k]).is_none() {
            proof {
                lemma_first_unknown_at(nv, registry@, k as int);
            }
            let msg = "unknown service: ".to_owned().concat(names[k].as_str());
            return Err(msg);
        }
        k = k + 1;
    }
    proof {
        lemma_first_unknown_none(nv, registry@);
    }
    let id = store.create_pending_transaction(&names, now);
    Ok(id)
}

/// What `confirm_transaction` leaves behind, by the status the record under
/// `id` held on entry. A settled transaction is never touched again: a
/// repeated confirmation only reports `Repeated`.
pub open spec fn confirm_post(
    pre: Seq<StoreEntryView>,
    id: Seq<char>,
    service: Seq<char>,
    r: Result<(), TrErr>,
    post: Seq<StoreEntryView>,
) -> bool {
    let i = find_id(pre, id);
    if i == -1 {
        post == pre && (r matches Err(TrErr::NotFound(m)) && m@ == "transaction not found"@)
    } else {
        match pre[i].state.status {
            TrStatus::Aborted => post == pre && (r matches Err(TrErr::Aborted(m)) && m@
                == "transaction aborted"@),
            TrStatus::Expired => post == pre && (r matches Err(TrErr::Expired(m)) && m@
                == "transaction expired"@),
            TrStatus::Confirmed => post == pre && (r matches Err(TrErr::Repeated(m)) && m@
                == "transaction processed"@),
            TrStatus::Pending => match update_first_substate(
                pre[i].state.substates,
                service,
                TrSubstatus::Confirmed,
            ) {
                Some(subs2) => r is Ok && post == pre.update(
                    i,
                    StoreEntryView {
                        key: pre[i].key,
                        state: TransactionStateView {
                            id: pre[i].state.id,
                            status: aggregate(subs2, TrStatus::Pending),
                            substates: subs2,
                        },
                    },
                ),
                None => post == pre && (r matches Err(TrErr::Unprocessable(m)) && m@
                    == "unknown service"@),
            },
        }
    }
}

/// What `abort_transaction` leaves behind, by the status the record under
/// `id` held on entry. A repeated abort only reports `Repeated`.
pub open spec fn abort_post(
    pre: Seq<StoreEntryView>,
    id: Seq<char>,
    service: Seq<char>,
    r: Result<(), TrErr>,
    post: Seq<StoreEntryView>,
) -> bool {
    let i = find_id(pre, id);
    if i == -1 {
        post == pre && (r matches Err(TrErr::NotFound(m)) && m@ == "transaction not found"@)
    } else {
        match pre[i].state.status {
            TrStatus::Aborted => post == pre && (r matches Err(TrErr::Repeated(m)) && m@
                == "aborted"@),
            TrStatus::Expired => post == pre && (r matches Err(TrErr::Expired(m)) && m@
                == "transaction expired"@),
            TrStatus::Confirmed => post == pre && (r matches Err(TrErr::ArgsError(m)) && m@
                == "transaction processed"@),
            TrStatus::Pending => match update_first_substate(
                pre[i].state.substates,
                service,
                TrSubstatus::Aborted,
            ) {
                Some(subs2) => r is Ok && post == pre.update(
                    i,
                    StoreEntryView {
                        key: pre[i].key,
                        state: TransactionStateView {
                            id: pre[i].state.id,
                            status: aggregate(subs2, TrStatus::Pending),
                            substates: subs2,
                        },
                    },
                ),
                None => post == pre && (r matches Err(TrErr::Unprocessable(m)) && m@
                    == "unknown service"@),
            },
        }
    }
}

/// Abort precedence at the protocol level: a successful abort settles the
/// whole transaction as `Aborted` at once, whatever the other participants'
/// substates held and in whatever order they came to hold them.
pub proof fn lemma_abort_settles(
    pre: Seq<StoreEntryView>,
    id: Seq<char>,
    service: Seq<char>,
    post: Seq<StoreEntryView>,
)
    requires
        abort_post(pre, id, service, Ok(()), post),
    ensures
        ({
            let i = find_id(pre, id);
            &&& 0 <= i < post.len()
            &&& post[i].state.id == id
            &&& post[i].state.status == TrStatus::Aborted
        }),
{
    lemma_find_id_props(pre, id);
    let i = find_id(pre, id);
    let subs2 = update_first_substate(
        pre[i].state.substates,
        service,
        TrSubstatus::Aborted,
    )->Some_0;
    lemma_update_first_sets(pre[i].state.substates, service, TrSubstatus::Aborted);
    lemma_abort_dominates(subs2, TrStatus::Pending);
}

/// Completion at the protocol level: a successful confirmation that leaves
/// every substate confirmed settles the whole transaction as `Confirmed`.
pub proof fn lemma_confirm_settles(
    pre: Seq<StoreEntryView>,
    id: Seq<char>,
    service: Seq<char>,
    post: Seq<StoreEntryView>,
)
    requires
        confirm_post(pre, id, service, Ok(()), post),
        all_confirmed(
            update_first_substate(
                pre[find_id(pre, id)].state.substates,
                service,
                TrSubstatus::Confirmed,
            )->Some_0,
        ),
    ensures
        ({
            let i = find_id(pre, id);
            &&& 0 <= i < post.len()
            &&& post[i].state.id == id
            &&& post[i].state.status == TrStatus::Confirmed
        }),
{
    lemma_find_id_props(pre, id);
    let i = find_id(pre, id);
    let subs2 = update_first_substate(
        pre[i].state.substates,
        service,
        TrSubstatus::Confirmed,
    )->Some_0;
    if any_aborted(subs2) {
        let w = choose|j: int| 0 <= j < subs2.len() && subs2[j].substatus == TrSubstatus::Aborted;
        assert(subs2[w].substatus == TrSubstatus::Confirmed);
        assert(false);
    }
}

/// Records one participant's confirmation on a still-pending transaction.
/// `Ok` means the confirmation was recorded; the caller then polls
/// `wait_for_confirm_step` on a fixed interval, up to a fixed attempt
/// budget, until the whole transaction concludes.
pub fn confirm_transaction(store: &mut TransactionStore, id: &String, service: &String) -> (r:
    Result<(), TrErr>)
    requires
        old(store).wf(),
    ensures
        final(store).wf(),
        confirm_post(old(store)@, id@, service@, r, final(store)@),
{
    proof {
        lemma_find_id_props(old(store)@, id@);
    }
    let ghost pre = old(store)@;
    let ghost fi = find_id(pre, id@);
    match store.read_status(id) {
        Some(TrStatus::Pending) => {
            proof {
                assert(pre[fi].state.id == id@);
                assert(pre[fi].state.status == TrStatus::Pending);
                assert forall|j: int|
                    0 <= j < pre.len() && (#[trigger] pre[j]).state.id == id@ implies pre[j]
                    .state.status == TrStatus::Pending by {
                    assert(pre[j].state.id == id@);
                }
                assert(all_matching_pending(pre, id@));
            }
            match store.update_substatus(id, service, TrSubstatus::Confirmed) {
                Ok(()) => {
                    proof {
                        assert(update_post(
                            pre,
                            fi,
                            service@,
                            TrSubstatus::Confirmed,
                            Ok::<(), &'static str>(()),
                            store@,
                        ));
                    }
                    Ok(())
                },
                Err(m) => {
                    proof {
                        assert(update_post(
                            pre,
                            fi,
                            service@,
                            TrSubstatus::Confirmed,
                            Err::<(), &'static str>(m),
                            store@,
                        ));
                    }
                    Err(TrErr::Unprocessable(m))
                },
            }
        },
        Some(TrStatus::Aborted) => Err(TrErr::Aborted("transaction aborted")),
        Some(TrStatus::Expired) => Err(TrErr::Expired("transaction expired")),
        Some(TrStatus::Confirmed) => Err(TrErr::Repeated("transaction processed")),
        None => Err(TrErr::NotFound("transaction not found")),
    }
}

/// Records one participant's abort on a still-pending transaction; the
/// aggregation rule then reports the whole transaction aborted at once, and
/// the call returns without any wait.
pub fn abort_transaction(store: &mut TransactionStore, id: &String, service: &String) -> (r:
    Result<(), TrErr>)
    requires
        old(store).wf(),
    ensures
        final(store).wf(),
        abort_post(old(store)@, id@, service@, r, final(store)@),
{
    proof {
        lemma_find_id_props(old(store)@, id@);
    }
    let ghost pre = old(store)@;
    let ghost fi = find_id(pre, id@);
    match store.read_status(id) {
        Some(TrStatus::Pending) => {
            proof {
                assert(pre[fi].state.id == id@);
                assert(pre[fi].state.status == TrStatus::Pending);
                assert forall|j: int|
                    0 <= j < pre.len() && (#[trigger] pre[j]).state.id == id@ implies pre[j]
                    .state.status == TrStatus::Pending by {
                    assert(pre[j].state.id == id@);
                }
                assert(all_matching_pending(pre, id@));
            }
            match store.update_substatus(id, service, TrSubstatus::Aborted) {
                Ok(()) => {
                    proof {
                        assert(update_post(
                            pre,
                            fi,
                            service@,
                            TrSubstatus::Aborted,
                            Ok::<(), &'static str>(()),
                            store@,
                        ));
                    }
                    Ok(())
                },
                Err(m) => {
                    proof {
                        assert(update_post(
                            pre,
                            fi,
                            service@,
                            TrSubstatus::Aborted,
                            Err::<(), &'static str>(m),
                            store@,
                        ));
                    }
                    Err(TrErr::Unprocessable(m))
                },
            }
        },
        Some(TrStatus::Aborted) => Err(TrErr::Repeated("aborted")),
        Some(TrStatus::Expired) => Err(TrErr::Expired("transaction expired")),
        Some(TrStatus::Confirmed) => Err(TrErr::ArgsError("transaction processed")),
        None => Err(TrErr::NotFound("transaction not found")),
    }
}

/// What one poll of the bounded confirmation wait tells the caller to do.
#[derive(Clone, Copy, PartialEq, Eq, Structural, Debug)]
pub enum WaitStep {
    Concluded,
    KeepWaiting,
}

/// One poll of the bounded confirmation wait: given the status just read,
/// either the wait concludes (successfully or with the terminal error),
/// or the caller sleeps the fixed interval and polls again; after the
/// attempt budget is spent the caller gives up with a `Timeout` error.
pub fn wait_for_confirm_step(status: Option<TrStatus>) -> (r: Result<WaitStep, TrErr>)
    ensures
        status == Some(TrStatus::Confirmed) ==> r == Ok::<WaitStep, TrErr>(WaitStep::Concluded),
        status == Some(TrStatus::Pending) ==> r == Ok::<WaitStep, TrErr>(WaitStep::KeepWaiting),
        status == Some(TrStatus::Expired) ==> (r matches Err(TrErr::Expired(m)) && m@
            == "transaction expired"@),
        status == Some(TrStatus::Aborted) ==> (r matches Err(TrErr::Aborted(m)) && m@
            == "transaction aborted"@),
        status is None ==> (r matches Err(TrErr::NotFound(m)) && m@
            == "transaction not found"@),
{
    match status {
        Some(TrStatus::Confirmed) => Ok(WaitStep::Concluded),
        Some(TrStatus::Pending) => Ok(WaitStep::KeepWaiting),
        Some(TrStatus::Expired) => Err(TrErr::Expired("transaction expired")),
        Some(TrStatus::Aborted) => Err(TrErr::Aborted("transaction aborted")),
        None => Err(TrErr::NotFound("transaction not found")),
    }
}

/// Attempt budget of the bounded confirmation wait.
pub const WAIT_MAX_ATTEMPTS: u64 = 250;

/// One poll of the bounded confirmation wait together with its attempt
/// budget: a terminal status concludes the wait as in
/// `wait_for_confirm_step`, and a transaction still pending once the budget
/// is spent makes the caller give up with the timeout error. The record
/// itself is unaffected by the timeout: a later call can still settle it.
pub fn wait_budget_step(status: Option<TrStatus>, attempts: u64) -> (r: Result<WaitStep, TrErr>)
    ensures
        status == Some(TrStatus::Confirmed) ==> r == Ok::<WaitStep, TrErr>(WaitStep::Concluded),
        status == Some(TrStatus::Pending) && attempts < WAIT_MAX_ATTEMPTS ==> r == Ok::<
            WaitStep,
            TrErr,
        >(WaitStep::KeepWaiting),
        status == Some(TrStatus::Pending) && attempts >= WAIT_MAX_ATTEMPTS ==> (r matches Err(
            TrErr::Timeout(m),
        ) && m@ == "timeout on waiting for status update"@),
        status == Some(TrStatus::Expired) ==> (r matches Err(TrErr::Expired(m)) && m@
            == "transaction expired"@),
        status == Some(TrStatus::Aborted) ==> (r matches Err(TrErr::Aborted(m)) && m@
            == "transaction aborted"@),
        status is None ==> (r matches Err(TrErr::NotFound(m)) && m@
            == "transaction not found"@),
{
    if attempts >= WAIT_MAX_ATTEMPTS && matches!(status, Some(TrStatus::Pending)) {
        return Err(TrErr::Timeout("timeout on waiting for status update"));
    }
    wait_for_confirm_step(status)
}

} // verus!

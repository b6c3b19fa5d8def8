//! The plugin registry and its lifecycle state machine.
//!
//! `PluginManager` owns the name-to-entry registry and the event bus, and
//! is the only component that mutates a plugin's state. Operations whose
//! real-world counterpart must run a module hook (enable, disable, and
//! the disable step of unload) take the hook's outcome as an argument:
//! the caller asks first (`enable_needs_hook`, `disable_needs_hook`),
//! invokes the hook only when told to, and hands the outcome back. The
//! contracts pin the resulting state for every outcome.

use vstd::prelude::*;

use crate::bus::{bus_get, bus_has, distinct_strings, lemma_subscribe_has, lemma_unsubscribe_has, names_set, EventBus};
use crate::errors::PluginError;
use crate::loader::{contents_of, join_lines, joined};
use crate::state::{PluginState, StateView};
use vstd::string::StringExecFns;

verus! {

/// One registered plugin: what the host read from the module at load
/// time, plus its current lifecycle state.
pub struct PluginEntry {
    /// The plugin's declared, registry-unique name.
    pub name: String,
    /// The plugin's declared version.
    pub version: String,
    /// The plugin's declared description.
    pub description: String,
    /// The event names the plugin wants delivered.
    pub subscribed_events: Vec<String>,
    /// The current lifecycle state.
    pub state: PluginState,
}

/// The view of a registry entry.
pub ghost struct EntryView {
    pub name: Seq<char>,
    pub version: Seq<char>,
    pub description: Seq<char>,
    pub events: Seq<Seq<char>>,
    pub state: StateView,
}

impl View for PluginEntry {
    type V = EntryView;

    open spec fn view(&self) -> EntryView {
        EntryView {
            name: self.name@,
            version: self.version@,
            description: self.description@,
            events: self.subscribed_events@.map_values(|e: String| e@),
            state: self.state@,
        }
    }
}

/// The whole manager state, viewed mathematically: the registry, the
/// event bus, and the plugin directory path.
pub ghost struct ManagerView {
    pub registry: Map<Seq<char>, EntryView>,
    pub bus: Map<Seq<char>, Set<Seq<char>>>,
    pub dir: Seq<char>,
}

/// Every bus subscription belongs to a registered plugin that declared
/// that event, and every declared event of a registered plugin is
/// subscribed: the bus and the registry agree.
pub open spec fn linked(v: ManagerView) -> bool {
    forall|e: Seq<char>, n: Seq<char>|
        #![trigger bus_has(v.bus, e, n)]
        #![trigger v.registry[n].events.contains(e)]
        bus_has(v.bus, e, n) <==> (v.registry.contains_key(n) && v.registry[n].events.contains(e))
}

/// A transient application event: a name, a string-to-string payload,
/// and a priority.
///
/// One broadcast consumes it; it is not persisted. The `priority` field
/// is carried on the value but deliberately not consulted when a
/// broadcast orders its recipients — that order goes by each recipient's
/// own subscription count.
pub struct Event {
    /// The event name subscribers registered for.
    pub name: String,
    /// The payload, as key/value pairs.
    pub data: Vec<(String, String)>,
    /// The priority the producer assigned.
    pub priority: i32,
}

/// The names carried by a list of (name, count) pairs.
spec fn first_names(ps: Seq<(String, usize)>) -> Seq<String> {
    ps.map_values(|p: (String, usize)| p.0)
}

/// `n` names a plugin that is registered, `Enabled`, and subscribed to
/// event `ev`: exactly the plugins a broadcast of `ev` reaches.
pub open spec fn enabled_subscriber(v: ManagerView, ev: Seq<char>, n: Seq<char>) -> bool {
    &&& bus_has(v.bus, ev, n)
    &&& v.registry.contains_key(n)
    &&& v.registry[n].state is Enabled
}

/// The plugin manager: the registry of loaded plugins, the plugin
/// directory it serves, and the event bus.
pub struct PluginManager {
    plugins: Vec<PluginEntry>,
    plugin_dir: String,
    event_bus: EventBus,
}

/// There is an entry named `n`.
spec fn reg_has(s: Seq<PluginEntry>, n: Seq<char>) -> bool {
    exists|i: int| 0 <= i < s.len() && s[i].name@ == n
}

/// The index of the entry named `n` (meaningful when `reg_has`).
spec fn reg_at(s: Seq<PluginEntry>, n: Seq<char>) -> int {
    choose|i: int| 0 <= i < s.len() && s[i].name@ == n
}

/// The map that an entry list denotes.
spec fn registry_of(s: Seq<PluginEntry>) -> Map<Seq<char>, EntryView> {
    Map::new(|n: Seq<char>| reg_has(s, n), |n: Seq<char>| s[reg_at(s, n)]@)
}

/// The entries carry pairwise distinct names.
spec fn distinct_names(s: Seq<PluginEntry>) -> bool {
    forall|i: int, j: int| 0 <= i < j < s.len() ==> s[i].name@ != s[j].name@
}

/// Entry `i` denotes the registry entry for its own name.
proof fn lemma_reg_row(s: Seq<PluginEntry>, i: int)
    requires
        distinct_names(s),
        0 <= i < s.len(),
    ensures
        registry_of(s).contains_key(s[i].name@),
        registry_of(s)[s[i].name@] == s[i]@,
{
    assert(reg_has(s, s[i].name@));
    let j = reg_at(s, s[i].name@);
    assert(0 <= j < s.len() && s[j].name@ == s[i].name@);
    assert(j == i);
}

/// Appending an entry with a fresh name inserts exactly that entry.
proof fn lemma_reg_push(s: Seq<PluginEntry>, p: PluginEntry)
    requires
        distinct_names(s),
        !reg_has(s, p.name@),
    ensures
        distinct_names(s.push(p)),
        registry_of(s.push(p)) == registry_of(s).insert(p.name@, p@),
{
    let t = s.push(p);
    assert forall|i: int, j: int| 0 <= i < j < t.len() implies t[i].name@ != t[j].name@ by {
        if j < s.len() {
        } else {
            assert(t[j] == p);
            assert(t[i] == s[i]);
            assert(s[i].name@ != p.name@);
        }
    }
    let lhs = registry_of(t);
    let rhs = registry_of(s).insert(p.name@, p@);
    assert forall|q: Seq<char>| lhs.contains_key(q) implies rhs.contains_key(q) by {
        let i = reg_at(t, q);
        assert(0 <= i < t.len() && t[i].name@ == q);
        if i < s.len() {
            assert(reg_has(s, q));
        }
    }
    assert forall|q: Seq<char>| rhs.contains_key(q) implies lhs.contains_key(q) by {
        if q == p.name@ {
            assert(t[s.len() as int].name@ == q);
        } else {
            let i = reg_at(s, q);
            assert(0 <= i < s.len() && s[i].name@ == q);
            assert(t[i].name@ == q);
        }
    }
    assert forall|q: Seq<char>| lhs.contains_key(q) && rhs.contains_key(q) implies lhs[q] == rhs[q] by {
        if q == p.name@ {
            lemma_reg_row(t, s.len() as int);
        } else {
            let i = reg_at(s, q);
            assert(0 <= i < s.len() && s[i].name@ == q);
            assert(t[i] == s[i]);
            lemma_reg_row(t, i);
            lemma_reg_row(s, i);
        }
    }
    assert(lhs =~= rhs);
}

/// Removing entry `i` removes exactly its name from the registry.
proof fn lemma_reg_remove(s: Seq<PluginEntry>, i: int)
    requires
        distinct_names(s),
        0 <= i < s.len(),
    ensures
        distinct_names(s.remove(i)),
        !reg_has(s.remove(i), s[i].name@),
        registry_of(s.remove(i)) == registry_of(s).remove(s[i].name@),
{
    let t = s.remove(i);
    assert forall|j: int| 0 <= j < t.len() implies t[j] == s[if j < i { j } else { j + 1 }] by {
    }
    assert forall|j: int, k: int| 0 <= j < k < t.len() implies t[j].name@ != t[k].name@ by {
        let j2: int = if j < i { j } else { j + 1 };
        let k2: int = if k < i { k } else { k + 1 };
        assert(t[j] == s[j2]);
        assert(t[k] == s[k2]);
    }
    assert forall|j: int| 0 <= j < t.len() implies t[j].name@ != s[i].name@ by {
        let j2: int = if j < i { j } else { j + 1 };
        assert(t[j] == s[j2]);
    }
    let lhs = registry_of(t);
    let rhs = registry_of(s).remove(s[i].name@);
    assert forall|q: Seq<char>| lhs.contains_key(q) implies rhs.contains_key(q) by {
        let j = reg_at(t, q);
        assert(0 <= j < t.len() && t[j].name@ == q);
        let j2: int = if j < i { j } else { j + 1 };
        assert(s[j2].name@ == q);
        assert(q != s[i].name@);
    }
    assert forall|q: Seq<char>| rhs.contains_key(q) implies lhs.contains_key(q) by {
        let j = reg_at(s, q);
        assert(0 <= j < s.len() && s[j].name@ == q);
        assert(j != i);
        let j2: int = if j < i { j } else { j - 1 };
        assert(t[j2] == s[j]);
    }
    assert forall|q: Seq<char>| lhs.contains_key(q) && rhs.contains_key(q) implies lhs[q] == rhs[q] by {
        let j = reg_at(t, q);
        assert(0 <= j < t.len() && t[j].name@ == q);
        let j2: int = if j < i { j } else { j + 1 };
        assert(t[j] == s[j2]);
        lemma_reg_row(t, j);
        lemma_reg_row(s, j2);
    }
    assert(lhs =~= rhs);
}

/// The enable transition on the registry view: the resulting registry,
/// and whether the operation succeeds.
///
/// Already-`Enabled` entries succeed unchanged; `Loaded` entries become
/// `Enabled` exactly when the enable hook succeeded; every other case
/// (absent name, other states, failed hook) fails and changes nothing.
pub open spec fn enable_spec(
    reg: Map<Seq<char>, EntryView>,
    name: Seq<char>,
    hook_ok: bool,
) -> (Map<Seq<char>, EntryView>, bool) {
    if reg.contains_key(name) {
        let ent = reg[name];
        if ent.state is Enabled {
            (reg, true)
        } else if ent.state is Loaded && hook_ok {
            (reg.insert(name, EntryView { state: StateView::Enabled, ..ent }), true)
        } else {
            (reg, false)
        }
    } else {
        (reg, false)
    }
}

/// Whether `enable` must invoke the module's enable hook: exactly when
/// the plugin is present in state `Loaded`.
pub open spec fn enable_needs_hook_spec(reg: Map<Seq<char>, EntryView>, name: Seq<char>) -> bool {
    reg.contains_key(name) && reg[name].state is Loaded
}

/// The disable transition on the registry view, the mirror image of
/// `enable_spec`: already-`Disabled` entries succeed unchanged, `Enabled`
/// entries become `Disabled` exactly when the disable hook succeeded, and
/// every other case fails and changes nothing.
pub open spec fn disable_spec(
    reg: Map<Seq<char>, EntryView>,
    name: Seq<char>,
    hook_ok: bool,
) -> (Map<Seq<char>, EntryView>, bool) {
    if reg.contains_key(name) {
        let ent = reg[name];
        if ent.state is Disabled {
            (reg, true)
        } else if ent.state is Enabled && hook_ok {
            (reg.insert(name, EntryView { state: StateView::Disabled, ..ent }), true)
        } else {
            (reg, false)
        }
    } else {
        (reg, false)
    }
}

/// Whether `disable` must invoke the module's disable hook: exactly when
/// the plugin is present in state `Enabled`.
pub open spec fn disable_needs_hook_spec(reg: Map<Seq<char>, EntryView>, name: Seq<char>) -> bool {
    reg.contains_key(name) && reg[name].state is Enabled
}

/// Enabling is idempotent: once `enable` has succeeded, a second
/// `enable` of the same name succeeds without changing anything, and the
/// enable hook is not needed again.
pub proof fn lemma_enable_idempotent(
    reg: Map<Seq<char>, EntryView>,
    name: Seq<char>,
    hook1: bool,
    hook2: bool,
)
    requires
        enable_spec(reg, name, hook1).1,
    ensures
        !enable_needs_hook_spec(enable_spec(reg, name, hook1).0, name),
        enable_spec(enable_spec(reg, name, hook1).0, name, hook2) == (
            enable_spec(reg, name, hook1).0,
            true,
        ),
{
}

/// Some string among the first `k` of `v` has contents `x`.
spec fn prefix_contains(v: Seq<String>, k: int, x: Seq<char>) -> bool {
    exists|j: int| 0 <= j < k && v[j]@ == x
}

/// How `prefix_contains` grows with `k`.
proof fn lemma_prefix_step(events: Seq<String>, k: int, e: Seq<char>)
    requires
        0 <= k < events.len(),
    ensures
        prefix_contains(events, k + 1, e) == (prefix_contains(events, k, e) || events[k]@
            == e),
{
    if prefix_contains(events, k + 1, e) {
        let j = choose|j: int| 0 <= j < k + 1 && events[j]@ == e;
        if j < k {
            assert(prefix_contains(events, k, e));
        } else {
            assert(events[k]@ == e);
        }
    }
    if prefix_contains(events, k, e) {
        let j = choose|j: int| 0 <= j < k && events[j]@ == e;
        assert(0 <= j < k + 1 && events[j]@ == e);
    }
    if events[k]@ == e {
        assert(0 <= k < k + 1 && events[k]@ == e);
    }
}

/// The first `len` strings are all of them: the bound becomes membership
/// in the denoted set.
proof fn lemma_prefix_all(events: Seq<String>, e: Seq<char>)
    ensures
        prefix_contains(events, events.len() as int, e) == names_set(events).contains(e),
{
}

impl View for PluginManager {
    type V = ManagerView;

    closed spec fn view(&self) -> ManagerView {
        ManagerView {
            registry: registry_of(self.plugins@),
            bus: self.event_bus@,
            dir: self.plugin_dir@,
        }
    }
}

impl PluginManager {
    /// The representation invariant: entry names are unique, the bus is
    /// well formed, and the bus agrees with the registry.
    pub closed spec fn wf(self) -> bool {
        &&& distinct_names(self.plugins@)
        &&& self.event_bus.wf()
        &&& linked(self@)
    }

    /// Well-formedness implies the registry/bus linkage on the view.
    pub proof fn lemma_wf_linked(&self)
        requires
            self.wf(),
        ensures
            linked(self@),
    {
    }

    /// A manager with an empty registry and an empty bus, serving
    /// `plugin_dir`.
    pub fn new(plugin_dir: String) -> (m: Self)
        ensures
            m.wf(),
            m@.registry == Map::<Seq<char>, EntryView>::empty(),
            m@.bus == Map::<Seq<char>, Set<Seq<char>>>::empty(),
            m@.dir == plugin_dir@,
    {
        let m = PluginManager {
            plugins: Vec::new(),
            plugin_dir,
            event_bus: EventBus::new(),
        };
        proof {
            assert(m@.registry =~= Map::<Seq<char>, EntryView>::empty());
        }
        m
    }

    /// The directory this manager loads plugins from.
    pub fn plugin_dir(&self) -> (r: &String)
        ensures
            r@ == self@.dir,
    {
        &self.plugin_dir
    }

    /// The index of the entry named `name`, if there is one.
    fn find_plugin(&self, name: &String) -> (r: Option<usize>)
        ensures
            match r {
                Some(i) => i < self.plugins@.len() && self.plugins@[i as int].name@ == name@,
                None => !reg_has(self.plugins@, name@),
            },
    {
        let mut i: usize = 0;
        while i < self.plugins.len()
            invariant
                i <= self.plugins@.len(),
                forall|j: int| 0 <= j < i ==> self.plugins@[j].name@ != name@,
            decreases self.plugins@.len() - i,
        {
            if self.plugins[i].name == *name {
                return Some(i);
            }
            i += 1;
        }
        None
    }

    /// The registered plugin named `name`, if any.
    pub fn get_plugin(&self, name: &str) -> (r: Option<&PluginEntry>)
        requires
            self.wf(),
        ensures
            match r {
                Some(p) => self@.registry.contains_key(name@) && p@ == self@.registry[name@]
                    && p.name@ == name@,
                None => !self@.registry.contains_key(name@),
            },
    {
        let name_s: String = name.to_owned();
        match self.find_plugin(&name_s) {
            Some(i) => {
                proof {
                    lemma_reg_row(self.plugins@, i as int);
                }
                Some(&self.plugins[i])
            },
            None => None,
        }
    }

    /// Whether enabling `name` must invoke its enable hook.
    pub fn enable_needs_hook(&self, name: &str) -> (r: bool)
        requires
            self.wf(),
        ensures
            r == enable_needs_hook_spec(self@.registry, name@),
    {
        let name_s: String = name.to_owned();
        match self.find_plugin(&name_s) {
            Some(i) => {
                proof {
                    lemma_reg_row(self.plugins@, i as int);
                }
                self.plugins[i].state.is_loaded()
            },
            None => false,
        }
    }

    /// Whether disabling `name` must invoke its disable hook.
    pub fn disable_needs_hook(&self, name: &str) -> (r: bool)
        requires
            self.wf(),
        ensures
            r == disable_needs_hook_spec(self@.registry, name@),
    {
        let name_s: String = name.to_owned();
        match self.find_plugin(&name_s) {
            Some(i) => {
                proof {
                    lemma_reg_row(self.plugins@, i as int);
                }
                self.plugins[i].state.is_enabled()
            },
            None => false,
        }
    }

    /// Enable the plugin named `name`, `hook_ok` being the outcome of its
    /// enable hook where one was required (`enable_needs_hook`).
    ///
    /// On a name absent from the registry the call fails and changes
    /// nothing; an already-`Enabled` plugin is a success and a no-op.
    pub fn enable_plugin(&mut self, name: &str, hook_ok: bool) -> (r: Result<(), PluginError>)
        requires
            old(self).wf(),
        ensures
            final(self).wf(),
            final(self)@.registry == enable_spec(old(self)@.registry, name@, hook_ok).0,
            (r is Ok) == enable_spec(old(self)@.registry, name@, hook_ok).1,
            r matches Err(e) ==> e is EnableError,
            final(self)@.bus == old(self)@.bus,
            final(self)@.dir == old(self)@.dir,
            !old(self)@.registry.contains_key(name@) ==> r is Err && final(self)@ == old(self)@,
    {
        let name_s: String = name.to_owned();
        match self.find_plugin(&name_s) {
            Some(i) => {
                proof {
                    lemma_reg_row(self.plugins@, i as int);
                }
                if self.plugins[i].state.is_enabled() {
                    Ok(())
                } else if self.plugins[i].state.is_loaded() && hook_ok {
                    let ghost s0 = self.plugins@;
                    let mut ent = self.plugins.remove(i);
                    ent.state = PluginState::Enabled;
                    proof {
                        lemma_reg_remove(s0, i as int);
                    }
                    let ghost s1 = self.plugins@;
                    self.plugins.push(ent);
                    proof {
                        lemma_reg_push(s1, self.plugins@.last());
                        assert(self@.registry =~= enable_spec(old(self)@.registry, name@, hook_ok).0);
                        assert forall|e: Seq<char>, n: Seq<char>|
                            bus_has(self@.bus, e, n) <==> (self@.registry.contains_key(n)
                                && self@.registry[n].events.contains(e)) by {
                            assert(bus_has(old(self)@.bus, e, n) <==> (old(
                                self,
                            )@.registry.contains_key(n) && old(self)@.registry[n].events.contains(
                                e,
                            )));
                        }
                    }
                    Ok(())
                } else {
                    Err(PluginError::EnableError("Can't enable plugin".to_owned()))
                }
            },
            None => Err(PluginError::EnableError("Can't enable plugin".to_owned())),
        }
    }

    /// Disable the plugin named `name`, `hook_ok` being the outcome of
    /// its disable hook where one was required (`disable_needs_hook`).
    ///
    /// On a name absent from the registry the call fails and changes
    /// nothing; an already-`Disabled` plugin is a success and a no-op.
    pub fn disable_plugin(&mut self, name: &str, hook_ok: bool) -> (r: Result<(), PluginError>)
        requires
            old(self).wf(),
        ensures
            final(self).wf(),
            final(self)@.registry == disable_spec(old(self)@.registry, name@, hook_ok).0,
            (r is Ok) == disable_spec(old(self)@.registry, name@, hook_ok).1,
            r matches Err(e) ==> e is DisableError,
            final(self)@.bus == old(self)@.bus,
            final(self)@.dir == old(self)@.dir,
            !old(self)@.registry.contains_key(name@) ==> r is Err && final(self)@ == old(self)@,
    {
        let name_s: String = name.to_owned();
        match self.find_plugin(&name_s) {
            Some(i) => {
                proof {
                    lemma_reg_row(self.plugins@, i as int);
                }
                if self.plugins[i].state.is_disabled() {
                    Ok(())
                } else if self.plugins[i].state.is_enabled() && hook_ok {
                    let ghost s0 = self.plugins@;
                    let mut ent = self.plugins.remove(i);
                    ent.state = PluginState::Disabled;
                    proof {
                        lemma_reg_remove(s0, i as int);
                    }
                    let ghost s1 = self.plugins@;
                    self.plugins.push(ent);
                    proof {
                        lemma_reg_push(s1, self.plugins@.last());
                        assert(self@.registry =~= disable_spec(old(self)@.registry, name@, hook_ok).0);
                        assert forall|e: Seq<char>, n: Seq<char>|
                            bus_has(self@.bus, e, n) <==> (self@.registry.contains_key(n)
                                && self@.registry[n].events.contains(e)) by {
                            assert(bus_has(old(self)@.bus, e, n) <==> (old(
                                self,
                            )@.registry.contains_key(n) && old(self)@.registry[n].events.contains(
                                e,
                            )));
                        }
                    }
                    Ok(())
                } else {
                    Err(PluginError::DisableError("Can't disable plugin".to_owned()))
                }
            },
            None => Err(PluginError::DisableError("Can't disable plugin".to_owned())),
        }
    }

    /// Subscribe `name` to every event in `events`.
    fn subscribe_all(&mut self, events: &Vec<String>, name: &String)
        requires
            old(self).event_bus.wf(),
        ensures
            final(self).event_bus.wf(),
            final(self).plugins == old(self).plugins,
            final(self).plugin_dir == old(self).plugin_dir,
            forall|e: Seq<char>, n: Seq<char>|
                #![trigger bus_has(final(self)@.bus, e, n)]
                bus_has(final(self)@.bus, e, n) == (bus_has(old(self)@.bus, e, n) || (n == name@
                    && names_set(events@).contains(e))),
    {
        let ghost bus0 = self.event_bus@;
        let mut k: usize = 0;
        while k < events.len()
            invariant
                k <= events@.len(),
                self.event_bus.wf(),
                self.plugins == old(self).plugins,
                self.plugin_dir == old(self).plugin_dir,
                forall|e: Seq<char>, n: Seq<char>|
                    #![trigger bus_has(self.event_bus@, e, n)]
                    bus_has(self.event_bus@, e, n) == (bus_has(bus0, e, n) || (n == name@
                        && prefix_contains(events@, k as int, e))),
            decreases events@.len() - k,
        {
            let ghost bus_k = self.event_bus@;
            self.event_bus.subscribe(events[k].as_str(), name.as_str());
            proof {
                assert forall|e: Seq<char>, n: Seq<char>|
                    #![trigger bus_has(self.event_bus@, e, n)]
                    bus_has(self.event_bus@, e, n) == (bus_has(bus0, e, n) || (n == name@
                        && prefix_contains(events@, k + 1, e))) by {
                    lemma_subscribe_has(bus_k, events@[k as int]@, name@, e, n);
                    lemma_prefix_step(events@, k as int, e);
                }
            }
            k += 1;
        }
        proof {
            assert forall|e: Seq<char>| #[trigger]
                prefix_contains(events@, events@.len() as int, e) == names_set(
                events@,
            ).contains(e) by {
                lemma_prefix_all(events@, e);
            }
        }
    }

    /// Withdraw `name` from every event in `events`.
    fn unsubscribe_all(&mut self, events: &Vec<String>, name: &String)
        requires
            old(self).event_bus.wf(),
        ensures
            final(self).event_bus.wf(),
            final(self).plugins == old(self).plugins,
            final(self).plugin_dir == old(self).plugin_dir,
            forall|e: Seq<char>, n: Seq<char>|
                #![trigger bus_has(final(self)@.bus, e, n)]
                bus_has(final(self)@.bus, e, n) == (bus_has(old(self)@.bus, e, n) && !(n == name@
                    && names_set(events@).contains(e))),
    {
        let ghost bus0 = self.event_bus@;
        let mut k: usize = 0;
        while k < events.len()
            invariant
                k <= events@.len(),
                self.event_bus.wf(),
                self.plugins == old(self).plugins,
                self.plugin_dir == old(self).plugin_dir,
                forall|e: Seq<char>, n: Seq<char>|
                    #![trigger bus_has(self.event_bus@, e, n)]
                    bus_has(self.event_bus@, e, n) == (bus_has(bus0, e, n) && !(n == name@
                        && prefix_contains(events@, k as int, e))),
            decreases events@.len() - k,
        {
            let ghost bus_k = self.event_bus@;
            self.event_bus.unsubscribe(events[k].as_str(), name.as_str());
            proof {
                assert forall|e: Seq<char>, n: Seq<char>|
                    #![trigger bus_has(self.event_bus@, e, n)]
                    bus_has(self.event_bus@, e, n) == (bus_has(bus0, e, n) && !(n == name@
                        && prefix_contains(events@, k + 1, e))) by {
                    lemma_unsubscribe_has(bus_k, events@[k as int]@, name@, e, n);
                    lemma_prefix_step(events@, k as int, e);
                }
            }
            k += 1;
        }
        proof {
            assert forall|e: Seq<char>| #[trigger]
                prefix_contains(events@, events@.len() as int, e) == names_set(
                events@,
            ).contains(e) by {
                lemma_prefix_all(events@, e);
            }
        }
    }

    /// Register a freshly loaded plugin entry and subscribe it to every
    /// event it declares. A previously registered plugin of the same name
    /// is replaced, its own subscriptions withdrawn first.
    ///
    /// The caller has already opened the module, resolved its factory
    /// export, and run its load hook with success: loading stops before
    /// registration when any of those fail.
    pub fn load_plugin(&mut self, plugin: PluginEntry)
        requires
            old(self).wf(),
            plugin@.state is Loaded,
        ensures
            final(self).wf(),
            final(self)@.registry == old(self)@.registry.insert(plugin@.name, plugin@),
            final(self)@.dir == old(self)@.dir,
            forall|e: Seq<char>, n: Seq<char>|
                #![trigger bus_has(final(self)@.bus, e, n)]
                bus_has(final(self)@.bus, e, n) == (if n == plugin@.name {
                    plugin@.events.contains(e)
                } else {
                    bus_has(old(self)@.bus, e, n)
                }),
    {
        let ghost nm = plugin@.name;
        let name_s: String = plugin.name.clone();
        match self.find_plugin(&name_s) {
            Some(i) => {
                let ghost s0 = self.plugins@;
                proof {
                    lemma_reg_row(s0, i as int);
                    lemma_reg_remove(s0, i as int);
                }
                let old_ent = self.plugins.remove(i);
                let ghost old_events = old_ent.subscribed_events@;
                proof {
                    assert(old_ent == s0[i as int]);
                    assert(old_ent.name@ == nm);
                    assert(old(self)@.registry.contains_key(nm));
                    assert(old(self)@.registry[nm] == s0[i as int]@);
                    assert(old(self)@.registry[nm].events == old_events.map_values(
                        |s: String| s@,
                    ));
                }
                self.unsubscribe_all(&old_ent.subscribed_events, &old_ent.name);
                proof {
                    assert forall|e: Seq<char>, n: Seq<char>|
                        #![trigger bus_has(self@.bus, e, n)]
                        bus_has(self@.bus, e, n) == (bus_has(old(self)@.bus, e, n) && n
                            != nm) by {
                        if n == nm && bus_has(old(self)@.bus, e, n) {
                            assert(old(self)@.registry[nm].events.contains(e));
                            let j = choose|j: int|
                                0 <= j < old(self)@.registry[nm].events.len() && old(
                                    self,
                                )@.registry[nm].events[j] == e;
                            assert(old_events.map_values(|s: String| s@)[j] == old_events[j]@);
                            assert(old_events[j]@ == e);
                            assert(names_set(old_events).contains(e));
                        }
                    }
                }
            },
            None => {
                proof {
                    assert forall|e: Seq<char>, n: Seq<char>|
                        #![trigger bus_has(self@.bus, e, n)]
                        bus_has(self@.bus, e, n) == (bus_has(old(self)@.bus, e, n) && n
                            != nm) by {
                        if n == nm {
                            assert(!old(self)@.registry.contains_key(nm));
                            assert(!bus_has(old(self)@.bus, e, nm));
                        }
                    }
                    assert(registry_of(self.plugins@) =~= old(self)@.registry.remove(nm));
                }
            },
        }
        let ghost s_mid = self.plugins@;
        let ghost bus_mid = self@.bus;
        proof {
            assert(registry_of(s_mid) == old(self)@.registry.remove(nm));
            assert(!reg_has(s_mid, nm));
            assert(forall|e: Seq<char>, n: Seq<char>|
                #![trigger bus_has(bus_mid, e, n)]
                bus_has(bus_mid, e, n) == (bus_has(old(self)@.bus, e, n) && n != nm));
        }
        self.subscribe_all(&plugin.subscribed_events, &plugin.name);
        proof {
            assert forall|e: Seq<char>| #[trigger]
                names_set(plugin.subscribed_events@).contains(e) == plugin@.events.contains(e) by {
                if names_set(plugin.subscribed_events@).contains(e) {
                    let j = choose|j: int|
                        0 <= j < plugin.subscribed_events@.len() && plugin.subscribed_events@[j]@
                            == e;
                    assert(plugin@.events[j] == e);
                }
                if plugin@.events.contains(e) {
                    let j = choose|j: int|
                        0 <= j < plugin@.events.len() && plugin@.events[j] == e;
                    assert(plugin.subscribed_events@[j]@ == e);
                }
            }
            assert forall|e: Seq<char>, n: Seq<char>|
                #![trigger bus_has(self@.bus, e, n)]
                bus_has(self@.bus, e, n) == (if n == nm {
                    plugin@.events.contains(e)
                } else {
                    bus_has(old(self)@.bus, e, n)
                }) by {
                assert(bus_has(self@.bus, e, n) == (bus_has(bus_mid, e, n) || (n == nm
                    && names_set(plugin.subscribed_events@).contains(e))));
                assert(bus_has(bus_mid, e, n) == (bus_has(old(self)@.bus, e, n) && n != nm));
                assert(names_set(plugin.subscribed_events@).contains(e) == plugin@.events.contains(
                    e,
                ));
            }
        }
        let ghost s1 = self.plugins@;
        let ghost bus1 = self@.bus;
        self.plugins.push(plugin);
        proof {
            lemma_reg_push(s1, self.plugins@.last());
            assert(self@.registry =~= old(self)@.registry.insert(nm, plugin@));
            assert(self@.bus == bus1);
            assert forall|e: Seq<char>, n: Seq<char>|
                bus_has(self@.bus, e, n) <==> (self@.registry.contains_key(n)
                    && self@.registry[n].events.contains(e)) by {
                assert(bus_has(bus1, e, n) == (if n == nm {
                    plugin@.events.contains(e)
                } else {
                    bus_has(old(self)@.bus, e, n)
                }));
                if n != nm {
                    assert(bus_has(old(self)@.bus, e, n) <==> (old(self)@.registry.contains_key(n)
                        && old(self)@.registry[n].events.contains(e)));
                    assert(self@.registry.contains_key(n) == old(self)@.registry.contains_key(n));
                    if self@.registry.contains_key(n) {
                        assert(self@.registry[n] == old(self)@.registry[n]);
                    }
                } else {
                    assert(self@.registry.contains_key(nm));
                    assert(self@.registry[nm] == plugin@);
                }
            }
        }
    }

    /// Unload the plugin named `name`, `hook_ok` being the outcome of its
    /// disable hook where one was required (`disable_needs_hook`).
    ///
    /// A name absent from the registry is a no-op success, `Ok(false)`.
    /// Otherwise the entry must first be disabled: a `Disabled` entry, or
    /// an `Enabled` entry whose disable hook succeeded, is withdrawn from
    /// every event it subscribed to and removed from the registry,
    /// `Ok(true)` — the caller then runs its unload hook, its optional
    /// teardown export, and releases the module handle, in that order.
    /// When disabling fails — a failed hook, or an entry in any other
    /// state — the error is surfaced and nothing changes.
    pub fn unload_plugin(&mut self, name: &str, hook_ok: bool) -> (r: Result<bool, PluginError>)
        requires
            old(self).wf(),
        ensures
            final(self).wf(),
            final(self)@.dir == old(self)@.dir,
            !old(self)@.registry.contains_key(name@) ==> (r matches Ok(b) && !b && final(self)@
                == old(self)@),
            old(self)@.registry.contains_key(name@) && (old(self)@.registry[name@].state is Disabled
                || (old(self)@.registry[name@].state is Enabled && hook_ok)) ==> {
                &&& r matches Ok(b) && b
                &&& final(self)@.registry == old(self)@.registry.remove(name@)
                &&& forall|e: Seq<char>, n: Seq<char>|
                    #![trigger bus_has(final(self)@.bus, e, n)]
                    bus_has(final(self)@.bus, e, n) == (bus_has(old(self)@.bus, e, n) && n
                        != name@)
            },
            old(self)@.registry.contains_key(name@) && !(old(self)@.registry[name@].state
                is Disabled || (old(self)@.registry[name@].state is Enabled && hook_ok)) ==> (r
                matches Err(er) && er is DisableError && final(self)@ == old(self)@),
            r matches Ok(b) && b ==> !final(self)@.registry.contains_key(name@) && forall|
                e: Seq<char>,
            | !bus_has(final(self)@.bus, e, name@),
    {
        let name_s: String = name.to_owned();
        match self.find_plugin(&name_s) {
            None => Ok(false),
            Some(i) => {
                proof {
                    lemma_reg_row(self.plugins@, i as int);
                }
                let removable = self.plugins[i].state.is_disabled() || (
                self.plugins[i].state.is_enabled() && hook_ok);
                if !removable {
                    return Err(PluginError::DisableError("Can't disable plugin".to_owned()));
                }
                let ghost s0 = self.plugins@;
                proof {
                    lemma_reg_remove(s0, i as int);
                }
                let ent = self.plugins.remove(i);
                let ghost old_events = ent.subscribed_events@;
                proof {
                    assert(ent == s0[i as int]);
                    assert(ent.name@ == name@);
                    assert(old(self)@.registry.contains_key(name@));
                    assert(old(self)@.registry[name@] == s0[i as int]@);
                    assert(old(self)@.registry[name@].events == old_events.map_values(
                        |s: String| s@,
                    ));
                }
                self.unsubscribe_all(&ent.subscribed_events, &ent.name);
                proof {
                    assert forall|e: Seq<char>, n: Seq<char>|
                        #![trigger bus_has(self@.bus, e, n)]
                        bus_has(self@.bus, e, n) == (bus_has(old(self)@.bus, e, n) && n
                            != name@) by {
                        if n == name@ && bus_has(old(self)@.bus, e, n) {
                            assert(old(self)@.registry[name@].events.contains(e));
                            let j = choose|j: int|
                                0 <= j < old(self)@.registry[name@].events.len() && old(
                                    self,
                                )@.registry[name@].events[j] == e;
                            assert(old_events.map_values(|s: String| s@)[j] == old_events[j]@);
                            assert(old_events[j]@ == e);
                            assert(names_set(old_events).contains(e));
                        }
                    }
                    assert forall|e: Seq<char>, n: Seq<char>|
                        bus_has(self@.bus, e, n) <==> (self@.registry.contains_key(n)
                            && self@.registry[n].events.contains(e)) by {
                        if n != name@ {
                            assert(bus_has(old(self)@.bus, e, n) <==> (old(
                                self,
                            )@.registry.contains_key(n) && old(self)@.registry[n].events.contains(
                                e,
                            )));
                        }
                    }
                }
                Ok(true)
            },
        }
    }

    /// The delivery plan for broadcasting `event`: the names of every
    /// registered, `Enabled` subscriber of `event.name` — each exactly
    /// once, no plugin that is `Loaded`, `Disabled`, or absent — ordered
    /// ascending by how many events each recipient itself subscribes to.
    ///
    /// The caller delivers the event to each name in this order through
    /// the plugin's event hook; a failed delivery is logged and must not
    /// stop delivery to the remaining names.
    pub fn broadcast_event(&self, event: &Event) -> (order: Vec<String>)
        requires
            self.wf(),
        ensures
            distinct_strings(order@),
            forall|i: int|
                0 <= i < order@.len() ==> #[trigger] enabled_subscriber(
                    self@,
                    event.name@,
                    order@[i]@,
                ),
            forall|n: Seq<char>|
                #[trigger] enabled_subscriber(self@, event.name@, n) ==> names_set(
                    order@,
                ).contains(n),
            forall|i: int, j: int|
                0 <= i < j < order@.len() ==> self@.registry[order@[i]@].events.len()
                    <= self@.registry[order@[j]@].events.len(),
    {
        let ghost m = self@;
        let ghost ev = event.name@;
        let subs = self.event_bus.get_subscribers(event.name.as_str());
        let mut pending: Vec<(String, usize)> = Vec::new();
        let mut i: usize = 0;
        while i < subs.len()
            invariant
                self.wf(),
                m == self@,
                ev == event.name@,
                names_set(subs@) == bus_get(m.bus, ev),
                distinct_strings(subs@),
                i <= subs@.len(),
                forall|k: int|
                    0 <= k < pending@.len() ==> #[trigger] enabled_subscriber(
                        m,
                        ev,
                        pending@[k].0@,
                    ) && pending@[k].1 == m.registry[pending@[k].0@].events.len(),
                forall|a: int, b: int|
                    0 <= a < b < pending@.len() ==> pending@[a].0@ != pending@[b].0@,
                forall|n: Seq<char>|
                    prefix_contains(subs@, i as int, n) && enabled_subscriber(m, ev, n)
                        ==> #[trigger] names_set(first_names(pending@)).contains(n),
                forall|k: int|
                    0 <= k < pending@.len() ==> prefix_contains(
                        subs@,
                        i as int,
                        #[trigger] pending@[k].0@,
                    ),
            decreases subs@.len() - i,
        {
            let ghost pending0 = pending@;
            let name_ref = &subs[i];
            match self.find_plugin(name_ref) {
                Some(k) => {
                    if self.plugins[k].state.is_enabled() {
                        proof {
                            lemma_reg_row(self.plugins@, k as int);
                            assert(bus_has(m.bus, ev, name_ref@));
                            assert(enabled_subscriber(m, ev, name_ref@));
                        }
                        let count = self.plugins[k].subscribed_events.len();
                        pending.push((name_ref.clone(), count));
                    }
                },
                None => {
                    proof {
                        assert(!m.registry.contains_key(name_ref@));
                    }
                },
            }
            proof {
                let names1 = first_names(pending@);
                assert forall|n: Seq<char>|
                    prefix_contains(subs@, i + 1, n) && enabled_subscriber(m, ev, n)
                        implies #[trigger] names_set(names1).contains(n) by {
                    lemma_prefix_step(subs@, i as int, n);
                    let names0 = first_names(pending0);
                    if prefix_contains(subs@, i as int, n) {
                        assert(names_set(names0).contains(n));
                        let a = choose|a: int| 0 <= a < names0.len() && names0[a]@ == n;
                        assert(names1[a]@ == n);
                        assert(names_set(names1).contains(n));
                    } else {
                        assert(subs@[i as int]@ == n);
                        assert(m.registry.contains_key(n) && m.registry[n].state is Enabled);
                        assert(pending@.len() > pending0.len());
                        assert(names1[pending@.len() - 1]@ == n);
                        assert(names_set(names1).contains(n));
                    }
                }
                assert forall|k: int|
                    0 <= k < pending@.len() implies prefix_contains(
                    subs@,
                    i + 1,
                    #[trigger] pending@[k].0@,
                ) by {
                    if k < pending0.len() {
                        assert(prefix_contains(subs@, i as int, pending0[k].0@));
                        let j = choose|j: int| 0 <= j < i && subs@[j]@ == pending0[k].0@;
                        assert(subs@[j]@ == pending@[k].0@);
                    } else {
                        assert(pending@[k].0@ == subs@[i as int]@);
                    }
                }
                assert forall|a: int, b: int|
                    0 <= a < b < pending@.len() implies pending@[a].0@ != pending@[b].0@ by {
                    if b >= pending0.len() {
                        assert(pending@[b].0@ == subs@[i as int]@);
                        assert(prefix_contains(subs@, i as int, pending0[a].0@));
                        if pending@[a].0@ == subs@[i as int]@ {
                            let j = choose|j: int| 0 <= j < i && subs@[j]@ == pending0[a].0@;
                            assert(subs@[j]@ == subs@[i as int]@);
                            assert(false);
                        }
                    }
                }
            }
            i += 1;
        }
        proof {
            assert forall|n: Seq<char>| #[trigger]
                enabled_subscriber(m, ev, n) implies prefix_contains(
                subs@,
                subs@.len() as int,
                n,
            ) by {
                lemma_prefix_all(subs@, n);
                assert(names_set(subs@).contains(n));
            }
        }
        let mut order: Vec<String> = Vec::new();
        while pending.len() > 0
            invariant
                forall|k: int|
                    0 <= k < pending@.len() ==> #[trigger] enabled_subscriber(
                        m,
                        ev,
                        pending@[k].0@,
                    ) && pending@[k].1 == m.registry[pending@[k].0@].events.len(),
                forall|a: int, b: int|
                    0 <= a < b < pending@.len() ==> pending@[a].0@ != pending@[b].0@,
                forall|k: int|
                    0 <= k < order@.len() ==> #[trigger] enabled_subscriber(m, ev, order@[k]@),
                distinct_strings(order@),
                forall|a: int, b: int|
                    0 <= a < order@.len() && 0 <= b < pending@.len() ==> order@[a]@
                        != pending@[b].0@,
                forall|n: Seq<char>|
                    #[trigger] enabled_subscriber(m, ev, n) ==> names_set(order@).contains(n)
                        || names_set(first_names(pending@)).contains(n),
                forall|a: int, b: int|
                    0 <= a < b < order@.len() ==> m.registry[order@[a]@].events.len()
                        <= m.registry[order@[b]@].events.len(),
                forall|a: int, b: int|
                    0 <= a < order@.len() && 0 <= b < pending@.len() ==> m.registry[order@[a]@].events.len()
                        <= pending@[b].1,
            decreases pending@.len(),
        {
            let mut min_j: usize = 0;
            let mut j: usize = 1;
            while j < pending.len()
                invariant
                    pending@.len() > 0,
                    min_j < j,
                    j <= pending@.len(),
                    forall|k: int| 0 <= k < j ==> pending@[min_j as int].1 <= #[trigger] pending@[k].1,
                decreases pending@.len() - j,
            {
                if pending[j].1 < pending[min_j].1 {
                    min_j = j;
                }
                j += 1;
            }
            let ghost pending0 = pending@;
            let ghost order0 = order@;
            let picked = pending.remove(min_j);
            order.push(picked.0);
            proof {
                assert(order@ == order0.push(picked.0));
                assert(order@[order0.len() as int] == picked.0);
                assert(picked == pending0[min_j as int]);
                assert forall|j2: int| 0 <= j2 < pending@.len() implies pending@[j2]
                    == pending0[if j2 < min_j { j2 } else { j2 + 1 }] by {
                }
                assert(enabled_subscriber(m, ev, pending0[min_j as int].0@));
                assert(picked.1 == m.registry[picked.0@].events.len());
                assert forall|a: int, b: int|
                    0 <= a < b < order@.len() implies m.registry[order@[a]@].events.len()
                    <= m.registry[order@[b]@].events.len() by {
                    if b == order0.len() {
                        assert(order@[b]@ == picked.0@);
                        assert(order@[a] == order0[a]);
                        assert(m.registry[order0[a]@].events.len() <= pending0[min_j as int].1);
                    } else {
                        assert(order@[a] == order0[a] && order@[b] == order0[b]);
                    }
                }
                assert forall|a: int, b: int|
                    0 <= a < order@.len() && 0 <= b < pending@.len() implies m.registry[order@[a]@].events.len()
                    <= pending@[b].1 by {
                    let b2: int = if b < min_j { b } else { b + 1 };
                    assert(pending@[b] == pending0[b2]);
                    if a < order0.len() {
                        assert(m.registry[order0[a]@].events.len() <= pending0[b2].1);
                    } else {
                        assert(order@[a]@ == picked.0@);
                        assert(pending0[min_j as int].1 <= pending0[b2].1);
                    }
                }
                assert forall|a: int, b: int|
                    0 <= a < order@.len() && 0 <= b < pending@.len() implies order@[a]@
                    != pending@[b].0@ by {
                    let b2: int = if b < min_j { b } else { b + 1 };
                    assert(pending@[b] == pending0[b2]);
                    if a < order0.len() {
                        assert(order@[a] == order0[a]);
                    } else {
                        assert(order@[a]@ == pending0[min_j as int].0@);
                        assert(b2 != min_j);
                    }
                }
                assert forall|a: int, b: int|
                    0 <= a < b < order@.len() implies order@[a]@ != order@[b]@ by {
                    if b == order0.len() {
                        assert(order@[b]@ == pending0[min_j as int].0@);
                        assert(order0[a]@ != pending0[min_j as int].0@);
                    }
                }
                let names1 = first_names(pending@);
                let names0 = first_names(pending0);
                assert forall|n: Seq<char>| #[trigger]
                    enabled_subscriber(m, ev, n) implies names_set(order@).contains(n)
                    || names_set(names1).contains(n) by {
                    if names_set(order0).contains(n) {
                        let a = choose|a: int| 0 <= a < order0.len() && order0[a]@ == n;
                        assert(order@[a]@ == n);
                        assert(names_set(order@).contains(n));
                    } else if names_set(names0).contains(n) {
                        let a = choose|a: int| 0 <= a < names0.len() && names0[a]@ == n;
                        assert(names0[a] == pending0[a].0);
                        if a == min_j {
                            assert(order@[order0.len() as int]@ == n);
                            assert(names_set(order@).contains(n));
                        } else {
                            let a2: int = if a < min_j { a } else { a - 1 };
                            assert(pending@[a2] == pending0[a]);
                            assert(names1[a2]@ == n);
                            assert(names_set(names1).contains(n));
                        }
                    }
                }
            }
        }
        proof {
            assert forall|n: Seq<char>| #[trigger]
                enabled_subscriber(m, ev, n) implies names_set(order@).contains(n) by {
                let names1 = first_names(pending@);
                assert(names1.len() == 0);
                assert(!names_set(names1).contains(n));
            }
        }
        order
    }

    /// The (name, version, description) of every registered plugin, each
    /// exactly once, in no particular order.
    pub fn get_all_plugins(&self) -> (r: Vec<(String, String, String)>)
        requires
            self.wf(),
        ensures
            forall|k: int|
                0 <= k < r@.len() ==> {
                    &&& self@.registry.contains_key(#[trigger] r@[k].0@)
                    &&& self@.registry[r@[k].0@].version == r@[k].1@
                    &&& self@.registry[r@[k].0@].description == r@[k].2@
                },
            forall|n: Seq<char>|
                #[trigger] self@.registry.contains_key(n) ==> exists|k: int|
                    0 <= k < r@.len() && r@[k].0@ == n,
            forall|a: int, b: int| 0 <= a < b < r@.len() ==> r@[a].0@ != r@[b].0@,
    {
        let mut r: Vec<(String, String, String)> = Vec::new();
        let mut i: usize = 0;
        while i < self.plugins.len()
            invariant
                self.wf(),
                i <= self.plugins@.len(),
                r@.len() == i,
                forall|k: int|
                    0 <= k < i ==> (#[trigger] r@[k]).0@ == self.plugins@[k].name@ && r@[k].1@
                        == self.plugins@[k].version@ && r@[k].2@ == self.plugins@[k].description@,
            decreases self.plugins@.len() - i,
        {
            let e = &self.plugins[i];
            r.push((e.name.clone(), e.version.clone(), e.description.clone()));
            i += 1;
        }
        proof {
            assert forall|k: int|
                0 <= k < r@.len() implies {
                &&& self@.registry.contains_key(#[trigger] r@[k].0@)
                &&& self@.registry[r@[k].0@].version == r@[k].1@
                &&& self@.registry[r@[k].0@].description == r@[k].2@
            } by {
                lemma_reg_row(self.plugins@, k);
            }
            assert forall|n: Seq<char>| #[trigger]
                self@.registry.contains_key(n) implies exists|k: int|
                0 <= k < r@.len() && r@[k].0@ == n by {
                let k = reg_at(self.plugins@, n);
                assert(0 <= k < self.plugins@.len() && self.plugins@[k].name@ == n);
                assert(r@[k].0@ == n);
            }
        }
        r
    }

    /// The overall result of a batch load: success when no per-file
    /// failure was collected, else one aggregate `LoadError` whose text
    /// lists every collected message, newline-separated, after a fixed
    /// header — the loads that succeeded stay registered either way.
    pub fn load_all_result(errors: &Vec<String>) -> (r: Result<(), PluginError>)
        ensures
            (errors@.len() == 0) == (r is Ok),
            r matches Err(e) ==> (e matches PluginError::LoadError(msg) && msg@
                == "Failed to load some plugins:\n"@ + joined(contents_of(errors@))),
    {
        if errors.len() == 0 {
            Ok(())
        } else {
            let mut msg: String = "Failed to load some plugins:\n".to_owned();
            let body = join_lines(errors);
            msg.append(body.as_str());
            Err(PluginError::LoadError(msg))
        }
    }
}

} // verus!

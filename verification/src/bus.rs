//! The event bus: an in-memory registry mapping event names to the set of
//! plugin names that declared interest in them.
//!
//! The bus is viewed as a `Map<Seq<char>, Set<Seq<char>>>` from event name
//! to subscriber set; `subscribe` and `unsubscribe` are idempotent set
//! insert and remove, stated exactly by `subscribe_spec` and
//! `unsubscribe_spec`.

use vstd::prelude::*;

verus! {

/// The set of contents of the strings in `v`.
pub open spec fn names_set(v: Seq<String>) -> Set<Seq<char>> {
    Set::new(|n: Seq<char>| exists|i: int| 0 <= i < v.len() && v[i]@ == n)
}

/// The strings in `v` have pairwise distinct contents.
pub open spec fn distinct_strings(v: Seq<String>) -> bool {
    forall|i: int, j: int| 0 <= i < j < v.len() ==> v[i]@ != v[j]@
}

/// The subscriber set recorded for `e`; empty when `e` has no entry.
pub open spec fn bus_get(m: Map<Seq<char>, Set<Seq<char>>>, e: Seq<char>) -> Set<Seq<char>> {
    if m.contains_key(e) {
        m[e]
    } else {
        Set::<Seq<char>>::empty()
    }
}

/// `n` is recorded as a subscriber of `e`.
pub open spec fn bus_has(m: Map<Seq<char>, Set<Seq<char>>>, e: Seq<char>, n: Seq<char>) -> bool {
    bus_get(m, e).contains(n)
}

/// What `subscribe(e, n)` does to a bus: `n` joins the set for `e`.
pub open spec fn subscribe_spec(
    m: Map<Seq<char>, Set<Seq<char>>>,
    e: Seq<char>,
    n: Seq<char>,
) -> Map<Seq<char>, Set<Seq<char>>> {
    m.insert(e, bus_get(m, e).insert(n))
}

/// What `unsubscribe(e, n)` does to a bus: `n` leaves the set for `e`.
pub open spec fn unsubscribe_spec(
    m: Map<Seq<char>, Set<Seq<char>>>,
    e: Seq<char>,
    n: Seq<char>,
) -> Map<Seq<char>, Set<Seq<char>>> {
    if m.contains_key(e) {
        m.insert(e, m[e].remove(n))
    } else {
        m
    }
}

/// Subscribing adds exactly the pair `(e0, n0)` to the subscription
/// relation.
pub proof fn lemma_subscribe_has(
    m: Map<Seq<char>, Set<Seq<char>>>,
    e0: Seq<char>,
    n0: Seq<char>,
    e: Seq<char>,
    n: Seq<char>,
)
    ensures
        bus_has(subscribe_spec(m, e0, n0), e, n) == (bus_has(m, e, n) || (e == e0 && n == n0)),
{
}

/// Unsubscribing removes exactly the pair `(e0, n0)` from the
/// subscription relation.
pub proof fn lemma_unsubscribe_has(
    m: Map<Seq<char>, Set<Seq<char>>>,
    e0: Seq<char>,
    n0: Seq<char>,
    e: Seq<char>,
    n: Seq<char>,
)
    ensures
        bus_has(unsubscribe_spec(m, e0, n0), e, n) == (bus_has(m, e, n) && !(e == e0 && n == n0)),
{
}

/// Round trip: right after `subscribe(e, n)` the bus records `n` as a
/// subscriber of `e`, and right after a subsequent `unsubscribe(e, n)` it
/// does not.
pub proof fn lemma_subscribe_round_trip(m: Map<Seq<char>, Set<Seq<char>>>, e: Seq<char>, n: Seq<char>)
    ensures
        bus_has(subscribe_spec(m, e, n), e, n),
        !bus_has(unsubscribe_spec(subscribe_spec(m, e, n), e, n), e, n),
{
}

/// The event bus state: one row per event name that has ever been
/// subscribed to, holding the names subscribed to it.
pub struct EventBus {
    subscribers: Vec<(String, Vec<String>)>,
}

/// There is a row for event `e`.
spec fn has_key(s: Seq<(String, Vec<String>)>, e: Seq<char>) -> bool {
    exists|i: int| 0 <= i < s.len() && s[i].0@ == e
}

/// The index of the row for event `e` (meaningful when `has_key`).
spec fn key_at(s: Seq<(String, Vec<String>)>, e: Seq<char>) -> int {
    choose|i: int| 0 <= i < s.len() && s[i].0@ == e
}

/// The map that a subscription table denotes.
spec fn table_map(s: Seq<(String, Vec<String>)>) -> Map<Seq<char>, Set<Seq<char>>> {
    Map::new(|e: Seq<char>| has_key(s, e), |e: Seq<char>| names_set(s[key_at(s, e)].1@))
}

/// The rows carry pairwise distinct event names.
spec fn distinct_keys(s: Seq<(String, Vec<String>)>) -> bool {
    forall|i: int, j: int| 0 <= i < j < s.len() ==> s[i].0@ != s[j].0@
}

/// Row `i` denotes the map entry for its own key.
proof fn lemma_table_row(s: Seq<(String, Vec<String>)>, i: int)
    requires
        distinct_keys(s),
        0 <= i < s.len(),
    ensures
        table_map(s).contains_key(s[i].0@),
        table_map(s)[s[i].0@] == names_set(s[i].1@),
{
    assert(has_key(s, s[i].0@));
    let j = key_at(s, s[i].0@);
    assert(0 <= j < s.len() && s[j].0@ == s[i].0@);
    assert(j == i);
}

/// Appending a row with a fresh key inserts exactly that entry.
proof fn lemma_table_push(s: Seq<(String, Vec<String>)>, p: (String, Vec<String>))
    requires
        distinct_keys(s),
        !has_key(s, p.0@),
    ensures
        distinct_keys(s.push(p)),
        table_map(s.push(p)) == table_map(s).insert(p.0@, names_set(p.1@)),
{
    let t = s.push(p);
    assert forall|i: int, j: int| 0 <= i < j < t.len() implies t[i].0@ != t[j].0@ by {
        if j < s.len() {
        } else {
            assert(t[j] == p);
            assert(t[i] == s[i]);
            assert(s[i].0@ != p.0@);
        }
    }
    let lhs = table_map(t);
    let rhs = table_map(s).insert(p.0@, names_set(p.1@));
    assert forall|q: Seq<char>| lhs.contains_key(q) implies rhs.contains_key(q) by {
        let i = key_at(t, q);
        assert(0 <= i < t.len() && t[i].0@ == q);
        if i < s.len() {
            assert(has_key(s, q));
        }
    }
    assert forall|q: Seq<char>| rhs.contains_key(q) implies lhs.contains_key(q) by {
        if q == p.0@ {
            assert(t[s.len() as int].0@ == q);
        } else {
            let i = key_at(s, q);
            assert(0 <= i < s.len() && s[i].0@ == q);
            assert(t[i].0@ == q);
        }
    }
    assert forall|q: Seq<char>| lhs.contains_key(q) && rhs.contains_key(q) implies lhs[q] == rhs[q] by {
        if q == p.0@ {
            lemma_table_row(t, s.len() as int);
        } else {
            let i = key_at(s, q);
            assert(0 <= i < s.len() && s[i].0@ == q);
            assert(t[i] == s[i]);
            lemma_table_row(t, i);
            lemma_table_row(s, i);
        }
    }
    assert(lhs =~= rhs);
}

/// Removing row `i` removes exactly its entry from the map.
proof fn lemma_table_remove(s: Seq<(String, Vec<String>)>, i: int)
    requires
        distinct_keys(s),
        0 <= i < s.len(),
    ensures
        distinct_keys(s.remove(i)),
        !has_key(s.remove(i), s[i].0@),
        table_map(s.remove(i)) == table_map(s).remove(s[i].0@),
{
    let t = s.remove(i);
    assert forall|j: int| 0 <= j < t.len() implies t[j] == s[if j < i { j } else { j + 1 }] by {
    }
    assert forall|j: int, k: int| 0 <= j < k < t.len() implies t[j].0@ != t[k].0@ by {
        let j2: int = if j < i { j } else { j + 1 };
        let k2: int = if k < i { k } else { k + 1 };
        assert(t[j] == s[j2]);
        assert(t[k] == s[k2]);
    }
    assert forall|j: int| 0 <= j < t.len() implies t[j].0@ != s[i].0@ by {
        let j2: int = if j < i { j } else { j + 1 };
        assert(t[j] == s[j2]);
    }
    let lhs = table_map(t);
    let rhs = table_map(s).remove(s[i].0@);
    assert forall|q: Seq<char>| lhs.contains_key(q) implies rhs.contains_key(q) by {
        let j = key_at(t, q);
        assert(0 <= j < t.len() && t[j].0@ == q);
        let j2: int = if j < i { j } else { j + 1 };
        assert(s[j2].0@ == q);
        assert(q != s[i].0@);
    }
    assert forall|q: Seq<char>| rhs.contains_key(q) implies lhs.contains_key(q) by {
        let j = key_at(s, q);
        assert(0 <= j < s.len() && s[j].0@ == q);
        assert(j != i);
        let j2: int = if j < i { j } else { j - 1 };
        assert(t[j2] == s[j]);
    }
    assert forall|q: Seq<char>| lhs.contains_key(q) && rhs.contains_key(q) implies lhs[q] == rhs[q] by {
        let j = key_at(t, q);
        assert(0 <= j < t.len() && t[j].0@ == q);
        let j2: int = if j < i { j } else { j + 1 };
        assert(t[j] == s[j2]);
        lemma_table_row(t, j);
        lemma_table_row(s, j2);
    }
    assert(lhs =~= rhs);
}

/// Pushing a string onto a list adds its contents to the denoted set.
proof fn lemma_names_push(v: Seq<String>, x: String)
    ensures
        names_set(v.push(x)) == names_set(v).insert(x@),
{
    let t = v.push(x);
    assert forall|n: Seq<char>| names_set(t).contains(n) implies names_set(v).insert(x@).contains(n) by {
        let i = choose|i: int| 0 <= i < t.len() && t[i]@ == n;
        if i < v.len() {
            assert(v[i]@ == n);
        } else {
            assert(t[i] == x);
        }
    }
    assert forall|n: Seq<char>| names_set(v).insert(x@).contains(n) implies names_set(t).contains(n) by {
        if n == x@ {
            assert(t[v.len() as int]@ == n);
        } else {
            let i = choose|i: int| 0 <= i < v.len() && v[i]@ == n;
            assert(t[i]@ == n);
        }
    }
    assert(names_set(t) =~= names_set(v).insert(x@));
}

/// Removing the string at `k` removes its contents from the denoted set,
/// provided the list held pairwise distinct contents.
proof fn lemma_names_remove(v: Seq<String>, k: int)
    requires
        0 <= k < v.len(),
        distinct_strings(v),
    ensures
        distinct_strings(v.remove(k)),
        names_set(v.remove(k)) == names_set(v).remove(v[k]@),
{
    let t = v.remove(k);
    assert forall|j: int| 0 <= j < t.len() implies t[j] == v[if j < k { j } else { j + 1 }] by {
    }
    assert forall|i: int, j: int| 0 <= i < j < t.len() implies t[i]@ != t[j]@ by {
        let i2: int = if i < k { i } else { i + 1 };
        let j2: int = if j < k { j } else { j + 1 };
        assert(t[i] == v[i2]);
        assert(t[j] == v[j2]);
    }
    assert forall|n: Seq<char>| names_set(t).contains(n) implies names_set(v).remove(v[k]@).contains(n) by {
        let j = choose|j: int| 0 <= j < t.len() && t[j]@ == n;
        let j2: int = if j < k { j } else { j + 1 };
        assert(v[j2]@ == n);
        assert(n != v[k]@);
    }
    assert forall|n: Seq<char>| names_set(v).remove(v[k]@).contains(n) implies names_set(t).contains(n) by {
        let j = choose|j: int| 0 <= j < v.len() && v[j]@ == n;
        assert(j != k);
        let j2: int = if j < k { j } else { j - 1 };
        assert(t[j2] == v[j]);
    }
    assert(names_set(t) =~= names_set(v).remove(v[k]@));
}

/// The index of `x` in `v`, if its contents occur there.
fn find_name(v: &Vec<String>, x: &String) -> (r: Option<usize>)
    ensures
        match r {
            Some(j) => j < v@.len() && v@[j as int]@ == x@,
            None => !names_set(v@).contains(x@),
        },
{
    let mut i: usize = 0;
    while i < v.len()
        invariant
            i <= v@.len(),
            forall|j: int| 0 <= j < i ==> v@[j]@ != x@,
        decreases v@.len() - i,
    {
        if v[i] == *x {
            return Some(i);
        }
        i += 1;
    }
    None
}

impl View for EventBus {
    type V = Map<Seq<char>, Set<Seq<char>>>;

    closed spec fn view(&self) -> Map<Seq<char>, Set<Seq<char>>> {
        table_map(self.subscribers@)
    }
}

impl EventBus {
    /// The representation keeps one row per event name, and no name twice
    /// in a row's subscriber list.
    pub closed spec fn wf(self) -> bool {
        &&& distinct_keys(self.subscribers@)
        &&& forall|i: int|
            0 <= i < self.subscribers@.len() ==> distinct_strings(self.subscribers@[i].1@)
    }

    /// A bus with no subscriptions.
    pub fn new() -> (r: Self)
        ensures
            r.wf(),
            r@ == Map::<Seq<char>, Set<Seq<char>>>::empty(),
    {
        let r = EventBus { subscribers: Vec::new() };
        proof {
            assert(r@ =~= Map::<Seq<char>, Set<Seq<char>>>::empty());
        }
        r
    }

    /// The index of the row for `event`, if there is one.
    fn find_event(&self, event: &String) -> (r: Option<usize>)
        ensures
            match r {
                Some(i) => i < self.subscribers@.len() && self.subscribers@[i as int].0@ == event@,
                None => !has_key(self.subscribers@, event@),
            },
    {
        let mut i: usize = 0;
        while i < self.subscribers.len()
            invariant
                i <= self.subscribers@.len(),
                forall|j: int| 0 <= j < i ==> self.subscribers@[j].0@ != event@,
            decreases self.subscribers@.len() - i,
        {
            if self.subscribers[i].0 == *event {
                return Some(i);
            }
            i += 1;
        }
        None
    }

    /// Record that plugin `plugin` wants event `event`; idempotent.
    pub fn subscribe(&mut self, event: &str, plugin: &str)
        requires
            old(self).wf(),
        ensures
            final(self).wf(),
            final(self)@ == subscribe_spec(old(self)@, event@, plugin@),
    {
        let ghost s0 = self.subscribers@;
        let event_s: String = event.to_owned();
        let plugin_s: String = plugin.to_owned();
        match self.find_event(&event_s) {
            Some(i) => {
                let mut pair = self.subscribers.remove(i);
                let ghost members0 = pair.1@;
                proof {
                    lemma_table_row(s0, i as int);
                    lemma_table_remove(s0, i as int);
                }
                match find_name(&pair.1, &plugin_s) {
                    Some(_) => {
                        proof {
                            assert(names_set(members0).insert(plugin_s@) =~= names_set(members0));
                        }
                    },
                    None => {
                        pair.1.push(plugin_s);
                        proof {
                            lemma_names_push(members0, pair.1@[members0.len() as int]);
                            assert forall|a: int, b: int|
                                0 <= a < b < pair.1@.len() implies pair.1@[a]@ != pair.1@[b]@ by {
                                if b < members0.len() {
                                } else {
                                    assert(pair.1@[b]@ == plugin@);
                                    assert(pair.1@[a]@ != plugin@);
                                }
                            }
                        }
                    },
                }
                let ghost s1 = self.subscribers@;
                self.subscribers.push(pair);
                proof {
                    lemma_table_push(s1, (pair.0, pair.1));
                    assert(self@ =~= subscribe_spec(old(self)@, event@, plugin@));
                }
            },
            None => {
                let mut members: Vec<String> = Vec::new();
                members.push(plugin_s);
                let ghost m0 = members@;
                self.subscribers.push((event_s, members));
                proof {
                    lemma_table_push(s0, (event_s, members));
                    assert forall|n: Seq<char>| names_set(m0).contains(n) implies n == plugin@ by {
                        let k = choose|k: int| 0 <= k < m0.len() && m0[k]@ == n;
                        assert(k == 0);
                    }
                    assert(m0[0]@ == plugin@);
                    assert(names_set(m0) =~= Set::<Seq<char>>::empty().insert(plugin@));
                    assert(bus_get(old(self)@, event@) =~= Set::<Seq<char>>::empty());
                    assert(self@ =~= subscribe_spec(old(self)@, event@, plugin@));
                }
            },
        }
    }

    /// Withdraw plugin `plugin` from event `event`; idempotent.
    pub fn unsubscribe(&mut self, event: &str, plugin: &str)
        requires
            old(self).wf(),
        ensures
            final(self).wf(),
            final(self)@ == unsubscribe_spec(old(self)@, event@, plugin@),
    {
        let ghost s0 = self.subscribers@;
        let event_s: String = event.to_owned();
        let plugin_s: String = plugin.to_owned();
        match self.find_event(&event_s) {
            Some(i) => {
                let mut pair = self.subscribers.remove(i);
                let ghost members0 = pair.1@;
                proof {
                    lemma_table_row(s0, i as int);
                    lemma_table_remove(s0, i as int);
                }
                match find_name(&pair.1, &plugin_s) {
                    Some(j) => {
                        pair.1.remove(j);
                        proof {
                            lemma_names_remove(members0, j as int);
                            assert(names_set(pair.1@) =~= names_set(members0).remove(plugin@));
                        }
                    },
                    None => {
                        proof {
                            assert(names_set(members0).remove(plugin@) =~= names_set(members0));
                        }
                    },
                }
                let ghost s1 = self.subscribers@;
                self.subscribers.push(pair);
                proof {
                    lemma_table_push(s1, (pair.0, pair.1));
                    assert(self@ =~= unsubscribe_spec(old(self)@, event@, plugin@));
                }
            },
            None => {
                proof {
                    assert(self@ =~= unsubscribe_spec(old(self)@, event@, plugin@));
                }
            },
        }
    }

    /// A snapshot of the names subscribed to `event`; unordered, empty if
    /// none.
    pub fn get_subscribers(&self, event: &str) -> (r: Vec<String>)
        requires
            self.wf(),
        ensures
            names_set(r@) == bus_get(self@, event@),
            distinct_strings(r@),
    {
        let event_s: String = event.to_owned();
        match self.find_event(&event_s) {
            Some(i) => {
                let r = self.subscribers[i].1.clone();
                proof {
                    lemma_table_row(self.subscribers@, i as int);
                    assert(r@ =~= self.subscribers@[i as int].1@);
                    assert(names_set(r@) == bus_get(self@, event@));
                }
                r
            },
            None => {
                let r: Vec<String> = Vec::new();
                proof {
                    assert(names_set(r@) =~= Set::<Seq<char>>::empty());
                }
                r
            },
        }
    }
}

} // verus!

//! The logical switch state machine: many physical mappings feed one logical
//! switch, which is pressed while any of them is held.
use vstd::prelude::*;

use crate::config::Mapping;
use crate::protocol::{Action, SwitchSnapshot, SwitchState};
use crate::text::{lemma_text_lt_irreflexive, lemma_text_lt_total, lemma_text_lt_transitive, precedes, same_text, text_lt};

verus! {

/// A change of a logical switch.
#[derive(Debug, Clone, PartialEq, Eq)]
pub struct LogicalTransition {
    pub switch_id: String,
    pub action: Action,
}

#[derive(Debug, PartialEq, Eq)]
pub enum StateError {
    /// No mapping has this id.
    UnknownMapping(String),
    /// The mapping is already in the state the edge would put it in.
    InvalidTransition { mapping_id: String, action: Action },
}

/// The abstract state: which logical switch each mapping id feeds (the last
/// mapping with an id wins), the logical switches in order, and for each one
/// the set of mapping ids currently held.
#[verifier::ext_equal]
pub struct SwitchModel {
    pub routes: Map<Seq<char>, Seq<char>>,
    pub switches: Seq<Seq<char>>,
    pub held: Seq<Set<Seq<char>>>,
}

/// Each entry comes strictly before the next in the byte order of strings.
pub open spec fn strictly_ascending(s: Seq<Seq<char>>) -> bool {
    forall|i: int, j: int| 0 <= i < j < s.len() ==> text_lt(#[trigger] s[i], #[trigger] s[j])
}

/// The table built from (key, value) pairs, a later pair overriding an
/// earlier one with the same key.
pub open spec fn last_wins<V>(pairs: Seq<(Seq<char>, V)>) -> Map<Seq<char>, V>
    decreases pairs.len(),
{
    if pairs.len() == 0 {
        Map::empty()
    } else {
        last_wins(pairs.drop_last()).insert(pairs.last().0, pairs.last().1)
    }
}

/// The table of which switch each mapping id feeds.
pub open spec fn route_table(pairs: Seq<(Seq<char>, Seq<char>)>) -> Map<Seq<char>, Seq<char>> {
    last_wins(pairs)
}

/// The (mapping id, switch id) pairs of a list of mappings.
pub open spec fn mapping_pairs(mappings: Seq<Mapping>) -> Seq<(Seq<char>, Seq<char>)> {
    mappings.map_values(|m: Mapping| (m.id@, m.switch_id@))
}

/// Whether some mapping in the list feeds the switch `s`.
pub open spec fn feeds(mappings: Seq<Mapping>, s: Seq<char>) -> bool {
    exists|i: int| 0 <= i < mappings.len() && (#[trigger] mappings[i]).switch_id@ == s
}

/// A logical switch is pressed while at least one of its mappings is held.
pub open spec fn is_pressed(held: Set<Seq<char>>) -> bool {
    held != Set::<Seq<char>>::empty()
}

/// What one physical edge does to the logical state.
pub enum StepOutcome {
    /// The mapping id is not configured.
    UnknownMapping,
    /// The mapping is already pressed (for a press) or released (for a release).
    InvalidTransition,
    /// The physical state changed but the logical switch did not.
    Quiet,
    /// The logical switch named here changed, in the direction of the edge.
    Emitted(Seq<char>),
}

impl SwitchModel {
    pub open spec fn wf(self) -> bool {
        &&& self.held.len() == self.switches.len()
        &&& strictly_ascending(self.switches)
        &&& forall|k: Seq<char>| #[trigger]
            self.routes.contains_key(k) ==> self.switches.contains(self.routes[k])
    }

    /// The position of switch `s` in the ordered switch list.
    pub open spec fn slot_of(self, s: Seq<char>) -> int {
        choose|i: int| 0 <= i < self.switches.len() && self.switches[i] == s
    }

    /// The same model with the held set of slot `i` replaced.
    pub open spec fn with_held(self, i: int, h: Set<Seq<char>>) -> SwitchModel {
        SwitchModel { routes: self.routes, switches: self.switches, held: self.held.update(i, h) }
    }

    /// The model after a physical edge of mapping `id`, and what it emitted.
    pub open spec fn step(self, id: Seq<char>, action: Action) -> (SwitchModel, StepOutcome) {
        if !self.routes.contains_key(id) {
            (self, StepOutcome::UnknownMapping)
        } else {
            let s = self.routes[id];
            let i = self.slot_of(s);
            let h = self.held[i];
            match action {
                Action::Pressed => {
                    if h.contains(id) {
                        (self, StepOutcome::InvalidTransition)
                    } else {
                        (
                            self.with_held(i, h.insert(id)),
                            if is_pressed(h) {
                                StepOutcome::Quiet
                            } else {
                                StepOutcome::Emitted(s)
                            },
                        )
                    }
                },
                Action::Released => {
                    if !h.contains(id) {
                        (self, StepOutcome::InvalidTransition)
                    } else {
                        (
                            self.with_held(i, h.remove(id)),
                            if is_pressed(h.remove(id)) {
                                StepOutcome::Quiet
                            } else {
                                StepOutcome::Emitted(s)
                            },
                        )
                    }
                },
            }
        }
    }

    /// The pressed switches among the first `n`, in order.
    pub open spec fn pressed_prefix(self, n: int) -> Seq<Seq<char>>
        decreases n,
    {
        if n <= 0 {
            Seq::empty()
        } else if is_pressed(self.held[n - 1]) {
            self.pressed_prefix(n - 1).push(self.switches[n - 1])
        } else {
            self.pressed_prefix(n - 1)
        }
    }

    /// Every pressed switch, in switch order.
    pub open spec fn pressed_switches(self) -> Seq<Seq<char>> {
        self.pressed_prefix(self.switches.len() as int)
    }

    /// The same model with every switch released.
    pub open spec fn all_released(self) -> SwitchModel {
        SwitchModel {
            routes: self.routes,
            switches: self.switches,
            held: Seq::new(self.switches.len(), |i: int| Set::<Seq<char>>::empty()),
        }
    }
}

/// The set of mapping ids held in a slot.
pub open spec fn held_set(v: Seq<String>) -> Set<Seq<char>> {
    Set::new(|x: Seq<char>| exists|i: int| 0 <= i < v.len() && (#[trigger] v[i])@ == x)
}

/// No mapping id is held twice in a slot.
pub open spec fn no_repeats(v: Seq<String>) -> bool {
    forall|i: int, j: int| 0 <= i < j < v.len() ==> (#[trigger] v[i])@ != (#[trigger] v[j])@
}

pub open spec fn pair_views(v: Seq<(String, String)>) -> Seq<(Seq<char>, Seq<char>)> {
    v.map_values(|r: (String, String)| (r.0@, r.1@))
}

/// Tracks physical mappings and the logical switches they feed.
#[derive(Debug)]
pub struct SwitchStateMachine {
    routes: Vec<(String, String)>,
    switch_ids: Vec<String>,
    held: Vec<Vec<String>>,
}

impl View for SwitchStateMachine {
    type V = SwitchModel;

    closed spec fn view(&self) -> SwitchModel {
        SwitchModel {
            routes: route_table(pair_views(self.routes@)),
            switches: self.switch_ids@.map_values(|s: String| s@),
            held: self.held@.map_values(|v: Vec<String>| held_set(v@)),
        }
    }
}

pub proof fn lemma_last_wins<V>(pairs: Seq<(Seq<char>, V)>, k: Seq<char>)
    ensures
        last_wins(pairs).contains_key(k) <==> exists|i: int|
            0 <= i < pairs.len() && (#[trigger] pairs[i]).0 == k,
        forall|j: int|
            0 <= j < pairs.len() && (#[trigger] pairs[j]).0 == k && (forall|i: int|
                j < i < pairs.len() ==> (#[trigger] pairs[i]).0 != k) ==> last_wins(pairs)[k]
                == pairs[j].1,
        last_wins(pairs).contains_key(k) ==> exists|i: int|
            0 <= i < pairs.len() && (#[trigger] pairs[i]).0 == k && pairs[i].1 == last_wins(
                pairs,
            )[k],
    decreases pairs.len(),
{
    if pairs.len() > 0 {
        let init = pairs.drop_last();
        lemma_last_wins(init, k);
        if pairs.last().0 != k {
            assert forall|i: int| 0 <= i < pairs.len() && (#[trigger] pairs[i]).0 == k implies 0
                <= i < init.len() && init[i].0 == k by {}
            assert forall|i: int| 0 <= i < init.len() && (#[trigger] init[i]).0 == k implies 0
                <= i < pairs.len() && pairs[i].0 == k by {}
            assert forall|j: int|
                0 <= j < pairs.len() && (#[trigger] pairs[j]).0 == k && (forall|i: int|
                    j < i < pairs.len() ==> (#[trigger] pairs[i]).0 != k) implies last_wins(
                pairs,
            )[k] == pairs[j].1 by {
                assert(j < init.len());
                assert(init[j] == pairs[j]);
                assert forall|i: int| j < i < init.len() implies (#[trigger] init[i]).0 != k by {
                    assert(init[i] == pairs[i]);
                }
            }
            if last_wins(pairs).contains_key(k) {
                let i = choose|i: int|
                    0 <= i < init.len() && (#[trigger] init[i]).0 == k && init[i].1 == last_wins(
                        init,
                    )[k];
                assert(pairs[i] == init[i]);
            }
        } else {
            let n = pairs.len() - 1;
            assert(pairs[n].0 == k);
            assert forall|j: int|
                0 <= j < pairs.len() && (#[trigger] pairs[j]).0 == k && (forall|i: int|
                    j < i < pairs.len() ==> (#[trigger] pairs[i]).0 != k) implies last_wins(
                pairs,
            )[k] == pairs[j].1 by {
                if j < n {
                    assert(pairs[n].0 != k);
                }
            }
        }
    }
}

/// The views of a list of strings.
pub open spec fn text_views(v: Seq<String>) -> Seq<Seq<char>> {
    v.map_values(|s: String| s@)
}

/// Whether a transition names switch `s` and carries `action`.
pub open spec fn transition_is(t: LogicalTransition, s: Seq<char>, action: Action) -> bool {
    t.switch_id@ == s && t.action == action
}

/// Whether a snapshot names switch `s` and shows the state its held set gives.
pub open spec fn snapshot_is(snap: SwitchSnapshot, s: Seq<char>, held: Set<Seq<char>>) -> bool {
    &&& snap.switch_id@ == s
    &&& snap.state == if is_pressed(held) {
        SwitchState::Pressed
    } else {
        SwitchState::Released
    }
    &&& snap.confidence is None
}

/// Whether the result of an edge reports the given outcome.
pub open spec fn reports(
    r: Result<Option<LogicalTransition>, StateError>,
    outcome: StepOutcome,
    id: Seq<char>,
    action: Action,
) -> bool {
    match outcome {
        StepOutcome::UnknownMapping => r matches Err(StateError::UnknownMapping(m)) && m@ == id,
        StepOutcome::InvalidTransition => r matches Err(
            StateError::InvalidTransition { mapping_id: m, action: a },
        ) && m@ == id && a == action,
        StepOutcome::Quiet => r matches Ok(None),
        StepOutcome::Emitted(s) => r matches Ok(Some(t)) && transition_is(t, s, action),
    }
}

proof fn lemma_ascending_distinct(s: Seq<Seq<char>>, i: int, j: int)
    requires
        strictly_ascending(s),
        0 <= i < s.len(),
        0 <= j < s.len(),
        s[i] == s[j],
    ensures
        i == j,
{
    if i < j {
        assert(text_lt(s[i], s[j]));
        lemma_text_lt_irreflexive(s[i]);
    } else if j < i {
        assert(text_lt(s[j], s[i]));
        lemma_text_lt_irreflexive(s[i]);
    }
}

proof fn lemma_insert_ascending(s: Seq<Seq<char>>, p: int, x: Seq<char>)
    requires
        strictly_ascending(s),
        0 <= p <= s.len(),
        forall|q: int| 0 <= q < p ==> text_lt(#[trigger] s[q], x),
        p < s.len() ==> text_lt(x, s[p]),
    ensures
        strictly_ascending(s.insert(p, x)),
{
    let t = s.insert(p, x);
    assert forall|i: int, j: int| 0 <= i < j < t.len() implies text_lt(
        #[trigger] t[i],
        #[trigger] t[j],
    ) by {
        if j < p {
            assert(t[i] == s[i] && t[j] == s[j]);
        } else if j == p {
            assert(t[i] == s[i]);
        } else if i == p {
            assert(t[j] == s[j - 1]);
            if j - 1 > p {
                assert(text_lt(s[p], s[j - 1]));
                lemma_text_lt_transitive(x, s[p], s[j - 1]);
            }
        } else if i < p {
            assert(t[i] == s[i] && t[j] == s[j - 1]);
        } else {
            assert(t[i] == s[i - 1] && t[j] == s[j - 1]);
        }
    }
}

proof fn lemma_held_push(v: Seq<String>, x: String)
    ensures
        held_set(v.push(x)) == held_set(v).insert(x@),
{
    let w = v.push(x);
    assert forall|y: Seq<char>| held_set(w).contains(y) <==> held_set(v).insert(x@).contains(y) by {
        if held_set(v).contains(y) {
            let i = choose|i: int| 0 <= i < v.len() && (#[trigger] v[i])@ == y;
            assert(w[i] == v[i]);
        }
        if held_set(w).contains(y) && y != x@ {
            let i = choose|i: int| 0 <= i < w.len() && (#[trigger] w[i])@ == y;
            assert(i < v.len());
            assert(w[i] == v[i]);
        }
        if y == x@ {
            assert(w[v.len() as int] == x);
        }
    }
    assert(held_set(w) =~= held_set(v).insert(x@));
}

proof fn lemma_held_remove(v: Seq<String>, k: int)
    requires
        no_repeats(v),
        0 <= k < v.len(),
    ensures
        held_set(v.remove(k)) == held_set(v).remove(v[k]@),
        no_repeats(v.remove(k)),
{
    let w = v.remove(k);
    assert forall|y: Seq<char>| held_set(w).contains(y) <==> held_set(v).remove(v[k]@).contains(
        y,
    ) by {
        if held_set(w).contains(y) {
            let i = choose|i: int| 0 <= i < w.len() && (#[trigger] w[i])@ == y;
            if i < k {
                assert(w[i] == v[i]);
            } else {
                assert(w[i] == v[i + 1]);
            }
        }
        if held_set(v).contains(y) && y != v[k]@ {
            let i = choose|i: int| 0 <= i < v.len() && (#[trigger] v[i])@ == y;
            if i < k {
                assert(w[i] == v[i]);
            } else {
                assert(i != k);
                assert(w[i - 1] == v[i]);
            }
        }
    }
    assert(held_set(w) =~= held_set(v).remove(v[k]@));
    assert forall|i: int, j: int| 0 <= i < j < w.len() implies (#[trigger] w[i])@ != (
    #[trigger] w[j])@ by {
        let a = if i < k {
            i
        } else {
            i + 1
        };
        let b = if j < k {
            j
        } else {
            j + 1
        };
        assert(w[i] == v[a] && w[j] == v[b]);
    }
}

proof fn lemma_held_empty(v: Seq<String>)
    ensures
        is_pressed(held_set(v)) <==> v.len() > 0,
{
    if v.len() > 0 {
        assert(held_set(v).contains(v[0]@));
    } else {
        assert(held_set(v) =~= Set::<Seq<char>>::empty());
    }
}

impl SwitchStateMachine {
    /// The machine's internal invariant, kept by every operation.
    pub closed spec fn wf(&self) -> bool {
        &&& self@.wf()
        &&& self.held@.len() == self.switch_ids@.len()
        &&& forall|i: int| 0 <= i < self.held@.len() ==> no_repeats(#[trigger] self.held@[i]@)
        &&& forall|i: int| 0 <= i < self.routes@.len() ==> self@.switches.contains(
            (#[trigger] self.routes@[i]).1@,
        )
    }

    /// A machine for `mappings`: each mapping id feeds its switch (the last
    /// mapping with an id wins), the switches are the distinct switch ids of
    /// `mappings` in byte order, and every switch is released.
    pub fn new(mappings: &[Mapping]) -> (machine: Self)
        ensures
            machine.wf(),
            machine@.wf(),
            machine@.routes == route_table(mapping_pairs(mappings@)),
            forall|s: Seq<char>| #[trigger] machine@.switches.contains(s) <==> feeds(mappings@, s),
            machine@.held == Seq::new(machine@.switches.len(), |i: int| Set::<Seq<char>>::empty()),
    {
        let mut routes: Vec<(String, String)> = Vec::new();
        let mut switch_ids: Vec<String> = Vec::new();
        let mut held: Vec<Vec<String>> = Vec::new();
        let n = mappings.len();
        for k in 0..n
            invariant
                n == mappings@.len(),
                pair_views(routes@) == mapping_pairs(mappings@.take(k as int)),
                strictly_ascending(text_views(switch_ids@)),
                forall|s: Seq<char>| #[trigger]
                    text_views(switch_ids@).contains(s) <==> feeds(mappings@.take(k as int), s),
                held@.len() == switch_ids@.len(),
                forall|i: int| 0 <= i < held@.len() ==> (#[trigger] held@[i])@.len() == 0,
        {
            let m = &mappings[k];
            let ghost before = text_views(switch_ids@);
            let ghost routes_before = routes@;
            proof {
                assert(mappings@.take(k + 1) =~= mappings@.take(k as int).push(mappings@[k as int]));
                assert(mapping_pairs(mappings@.take(k + 1)) =~= mapping_pairs(
                    mappings@.take(k as int),
                ).push((m.id@, m.switch_id@)));
            }
            routes.push((m.id.clone(), m.switch_id.clone()));
            proof {
                assert(pair_views(routes@) =~= pair_views(routes@.drop_last()).push(
                    (m.id@, m.switch_id@),
                ));
                assert(routes@.drop_last() == routes_before);
            }
            let mut p: usize = 0;
            while p < switch_ids.len() && precedes(switch_ids[p].as_str(), m.switch_id.as_str())
                invariant
                    p <= switch_ids@.len(),
                    before == text_views(switch_ids@),
                    forall|q: int| 0 <= q < p ==> text_lt(#[trigger] before[q], m.switch_id@),
                decreases switch_ids@.len() - p,
            {
                p = p + 1;
            }
            let present = p < switch_ids.len() && same_text(
                switch_ids[p].as_str(),
                m.switch_id.as_str(),
            );
            if !present {
                proof {
                    if p < switch_ids@.len() {
                        lemma_text_lt_total(m.switch_id@, before[p as int]);
                    }
                    lemma_insert_ascending(before, p as int, m.switch_id@);
                }
                switch_ids.insert(p, m.switch_id.clone());
                held.push(Vec::new());
                proof {
                    assert(text_views(switch_ids@) =~= before.insert(p as int, m.switch_id@));
                }
            }
            proof {
                let after = text_views(switch_ids@);
                let pre = mappings@.take(k as int);
                let post = mappings@.take(k + 1);
                assert forall|s: Seq<char>| #[trigger] after.contains(s) <==> feeds(post, s) by {
                    if feeds(pre, s) {
                        let i = choose|i: int| 0 <= i < pre.len() && (#[trigger] pre[i]).switch_id@ == s;
                        assert(post[i] == pre[i]);
                    }
                    if feeds(post, s) {
                        let i = choose|i: int| 0 <= i < post.len() && (#[trigger] post[i]).switch_id@ == s;
                        if i < k {
                            assert(post[i] == pre[i]);
                        }
                    }
                    assert(post[k as int] == *m);
                    if !present {
                        if after.contains(s) {
                            let i = choose|i: int| 0 <= i < after.len() && after[i] == s;
                            if i < p {
                                assert(after[i] == before[i]);
                            } else if i > p {
                                assert(after[i] == before[i - 1]);
                            }
                        }
                        if before.contains(s) {
                            let i = choose|i: int| 0 <= i < before.len() && before[i] == s;
                            if i < p {
                                assert(after[i] == before[i]);
                            } else {
                                assert(after[i + 1] == before[i]);
                            }
                        }
                        assert(after[p as int] == m.switch_id@);
                    } else {
                        assert(before[p as int] == m.switch_id@);
                    }
                }
            }
        }
        proof {
            assert(mappings@.take(n as int) =~= mappings@);
        }
        proof {
            let sw = text_views(switch_ids@);
            assert forall|i: int| 0 <= i < routes@.len() implies sw.contains(
                (#[trigger] routes@[i]).1@,
            ) by {
                assert(pair_views(routes@)[i] == mapping_pairs(mappings@)[i]);
                assert(mappings@[i].switch_id@ == routes@[i].1@);
                assert(feeds(mappings@, mappings@[i].switch_id@));
            }
            let table = route_table(pair_views(routes@));
            assert forall|kk: Seq<char>| #[trigger] table.contains_key(kk) implies sw.contains(
                table[kk],
            ) by {
                lemma_last_wins(pair_views(routes@), kk);
                let i = choose|i: int|
                    0 <= i < pair_views(routes@).len() && (#[trigger] pair_views(routes@)[i]).0
                        == kk && pair_views(routes@)[i].1 == table[kk];
                assert(sw.contains(routes@[i].1@));
            }
            assert forall|i: int| 0 <= i < held@.len() implies no_repeats(#[trigger] held@[i]@) by {
                assert(held@[i]@.len() == 0);
            }
            let hs = held@.map_values(|v: Vec<String>| held_set(v@));
            assert(hs =~= Seq::new(sw.len(), |i: int| Set::<Seq<char>>::empty())) by {
                assert forall|i: int| 0 <= i < sw.len() implies hs[i] == Set::<Seq<char>>::empty() by {
                    lemma_held_empty(held@[i]@);
                    assert(held_set(held@[i]@) =~= Set::<Seq<char>>::empty());
                }
            }
        }
        let machine = SwitchStateMachine { routes, switch_ids, held };
        machine
    }

    /// The position of the last route for `mapping_id`, if any.
    fn find_route(&self, mapping_id: &str) -> (found: Option<usize>)
        requires
            self.wf(),
        ensures
            match found {
                None => forall|j: int|
                    0 <= j < self.routes@.len() ==> (#[trigger] self.routes@[j]).0@ != mapping_id@,
                Some(i) => {
                    &&& i < self.routes@.len()
                    &&& self.routes@[i as int].0@ == mapping_id@
                    &&& forall|j: int|
                        i < j < self.routes@.len() ==> (#[trigger] self.routes@[j]).0@ != mapping_id@
                },
            },
    {
        let n = self.routes.len();
        let mut i = n;
        while i > 0
            invariant
                i <= n,
                n == self.routes@.len(),
                forall|j: int| i <= j < n ==> (#[trigger] self.routes@[j]).0@ != mapping_id@,
            decreases i,
        {
            i = i - 1;
            if same_text(self.routes[i].0.as_str(), mapping_id) {
                return Some(i);
            }
        }
        None
    }

    /// The slot of a switch that is known to exist.
    fn find_switch(&self, switch_id: &str) -> (slot: usize)
        requires
            self.wf(),
            text_views(self.switch_ids@).contains(switch_id@),
        ensures
            slot < self.switch_ids@.len(),
            self.switch_ids@[slot as int]@ == switch_id@,
    {
        let n = self.switch_ids.len();
        let mut j: usize = 0;
        while j < n
            invariant
                j <= n,
                n == self.switch_ids@.len(),
                text_views(self.switch_ids@).contains(switch_id@),
                forall|q: int| 0 <= q < j ==> (#[trigger] self.switch_ids@[q])@ != switch_id@,
            decreases n - j,
        {
            if same_text(self.switch_ids[j].as_str(), switch_id) {
                return j;
            }
            j = j + 1;
        }
        proof {
            let q = choose|q: int|
                0 <= q < text_views(self.switch_ids@).len() && text_views(self.switch_ids@)[q]
                    == switch_id@;
            assert(self.switch_ids@[q]@ == switch_id@);
        }
        0
    }

    /// Applies one physical edge of mapping `mapping_id`. The first press
    /// among a switch's mappings and the last release emit a logical
    /// transition; an unknown mapping or a repeated edge is an error and
    /// changes nothing.
    pub fn apply(&mut self, mapping_id: &str, action: Action) -> (r: Result<
        Option<LogicalTransition>,
        StateError,
    >)
        requires
            old(self).wf(),
        ensures
            final(self).wf(),
            final(self)@.wf(),
            final(self)@ == old(self)@.step(mapping_id@, action).0,
            reports(r, old(self)@.step(mapping_id@, action).1, mapping_id@, action),
    {
        let ghost pairs = pair_views(self.routes@);
        let found = self.find_route(mapping_id);
        proof {
            lemma_last_wins(pairs, mapping_id@);
        }
        let ri = match found {
            None => {
                proof {
                    assert forall|i: int| 0 <= i < pairs.len() implies (#[trigger] pairs[i]).0
                        != mapping_id@ by {
                        assert(pairs[i].0 == self.routes@[i].0@);
                    }
                }
                return Err(StateError::UnknownMapping(mapping_id.to_owned()));
            },
            Some(ri) => ri,
        };
        proof {
            assert(pairs[ri as int].0 == mapping_id@);
            assert forall|j: int| ri < j < pairs.len() implies (#[trigger] pairs[j]).0
                != mapping_id@ by {
                assert(pairs[j].0 == self.routes@[j].0@);
            }
        }
        let switch_id = self.routes[ri].1.clone();
        let slot = self.find_switch(switch_id.as_str());
        let ghost m = self@;
        proof {
            assert(m.routes[mapping_id@] == switch_id@);
            assert(m.switches[slot as int] == switch_id@);
            let c = m.slot_of(switch_id@);
            lemma_ascending_distinct(m.switches, c, slot as int);
        }
        let n = self.held[slot].len();
        let mut pos: usize = 0;
        while pos < n && !same_text(self.held[slot][pos].as_str(), mapping_id)
            invariant
                slot < self.held@.len(),
                n == self.held@[slot as int]@.len(),
                pos <= n,
                forall|q: int| 0 <= q < pos ==> (#[trigger] self.held@[slot as int]@[q])@ != mapping_id@,
            decreases n - pos,
        {
            pos = pos + 1;
        }
        let ghost v = self.held@[slot as int]@;
        proof {
            if pos == n {
                assert(!held_set(v).contains(mapping_id@));
            } else {
                assert(v[pos as int]@ == mapping_id@);
                assert(held_set(v).contains(mapping_id@));
            }
            lemma_held_empty(v);
            assert(m.held[slot as int] == held_set(v));
        }
        match action {
            Action::Pressed => {
                if pos < n {
                    return Err(StateError::InvalidTransition { mapping_id: mapping_id.to_owned(), action });
                }
                let was_released = n == 0;
                let owned = mapping_id.to_owned();
                proof {
                    lemma_held_push(v, owned);
                    assert(no_repeats(v.push(owned))) by {
                        let w = v.push(owned);
                        assert forall|i: int, j: int| 0 <= i < j < w.len() implies (#[trigger] w[i])@
                            != (#[trigger] w[j])@ by {
                            if j == v.len() {
                                assert(w[i] == v[i]);
                            } else {
                                assert(w[i] == v[i] && w[j] == v[j]);
                            }
                        }
                    }
                }
                self.held[slot].push(owned);
                proof {
                    assert(self@.held =~= m.held.update(slot as int, m.held[slot as int].insert(mapping_id@)));
                }
                if was_released {
                    Ok(Some(LogicalTransition { switch_id, action }))
                } else {
                    Ok(None)
                }
            },
            Action::Released => {
                if pos == n {
                    return Err(StateError::InvalidTransition { mapping_id: mapping_id.to_owned(), action });
                }
                proof {
                    lemma_held_remove(v, pos as int);
                    lemma_held_empty(v.remove(pos as int));
                }
                self.held[slot].remove(pos);
                proof {
                    assert(self@.held =~= m.held.update(slot as int, m.held[slot as int].remove(mapping_id@)));
                }
                if self.held[slot].len() == 0 {
                    Ok(Some(LogicalTransition { switch_id, action }))
                } else {
                    Ok(None)
                }
            },
        }
    }

    /// The machine's invariant gives a well-formed model.
    pub proof fn lemma_wf(&self)
        requires
            self.wf(),
        ensures
            self@.wf(),
    {
    }

    /// The number of logical switches.
    pub fn switch_count(&self) -> (n: usize)
        requires
            self.wf(),
        ensures
            n == self@.switches.len(),
    {
        self.switch_ids.len()
    }

    /// The state of every logical switch, in switch order.
    pub fn snapshots(&self) -> (snaps: Vec<SwitchSnapshot>)
        requires
            self.wf(),
        ensures
            snaps@.len() == self@.switches.len(),
            forall|i: int|
                0 <= i < snaps@.len() ==> snapshot_is(
                    #[trigger] snaps@[i],
                    self@.switches[i],
                    self@.held[i],
                ),
    {
        let n = self.switch_ids.len();
        let mut snaps: Vec<SwitchSnapshot> = Vec::new();
        for i in 0..n
            invariant
                n == self.switch_ids@.len(),
                self.wf(),
                snaps@.len() == i,
                forall|j: int|
                    0 <= j < i ==> snapshot_is(#[trigger] snaps@[j], self@.switches[j], self@.held[j]),
        {
            proof {
                lemma_held_empty(self.held@[i as int]@);
            }
            let state = if self.held[i].len() == 0 {
                SwitchState::Released
            } else {
                SwitchState::Pressed
            };
            snaps.push(
                SwitchSnapshot { switch_id: self.switch_ids[i].clone(), state, confidence: None },
            );
        }
        snaps
    }

    /// Clears every held mapping and returns one release per logical switch
    /// that was pressed, in switch order.
    pub fn release_all(&mut self) -> (releases: Vec<LogicalTransition>)
        requires
            old(self).wf(),
        ensures
            final(self).wf(),
            final(self)@.wf(),
            final(self)@ == old(self)@.all_released(),
            releases@.len() == old(self)@.pressed_switches().len(),
            forall|i: int|
                0 <= i < releases@.len() ==> transition_is(
                    #[trigger] releases@[i],
                    old(self)@.pressed_switches()[i],
                    Action::Released,
                ),
    {
        let ghost m = self@;
        let n = self.switch_ids.len();
        let mut releases: Vec<LogicalTransition> = Vec::new();
        for i in 0..n
            invariant
                n == self.switch_ids@.len(),
                m.switches.len() == n,
                m.held.len() == n,
                self.wf(),
                self.routes@ == old(self).routes@,
                self.switch_ids@ == old(self).switch_ids@,
                self@.routes == m.routes,
                self@.switches == m.switches,
                forall|j: int| 0 <= j < i ==> (#[trigger] self.held@[j])@.len() == 0,
                forall|j: int| i <= j < n ==> #[trigger] self@.held[j] == m.held[j],
                releases@.len() == m.pressed_prefix(i as int).len(),
                forall|j: int|
                    0 <= j < releases@.len() ==> transition_is(
                        #[trigger] releases@[j],
                        m.pressed_prefix(i as int)[j],
                        Action::Released,
                    ),
        {
            proof {
                lemma_held_empty(self.held@[i as int]@);
            }
            let ghost start = self.held@;
            let ghost start_view = self@;
            let ghost start_releases = releases@;
            proof {
                assert(start_view.held[i as int] == m.held[i as int]);
                assert(m.pressed_prefix(i + 1) == if is_pressed(m.held[i as int]) {
                    m.pressed_prefix(i as int).push(m.switches[i as int])
                } else {
                    m.pressed_prefix(i as int)
                });
            }
            if self.held[i].len() > 0 {
                releases.push(
                    LogicalTransition { switch_id: self.switch_ids[i].clone(), action: Action::Released },
                );
                let ghost before = self.held@;
                self.held[i].clear();
                proof {
                    assert(self.held@ == before.update(i as int, self.held@[i as int]));
                    assert forall|j: int| 0 <= j < self.held@.len() implies no_repeats(
                        #[trigger] self.held@[j]@,
                    ) by {
                        if j != i {
                            assert(self.held@[j] == before[j]);
                        }
                    }
                }
            }
            proof {
                assert forall|j: int| i + 1 <= j < n implies #[trigger] self@.held[j] == m.held[j] by {
                    assert(self.held@[j] == start[j]);
                    assert(start_view.held[j] == m.held[j]);
                }
                assert forall|j: int| 0 <= j < i + 1 implies (#[trigger] self.held@[j])@.len() == 0 by {
                    if j < i {
                        assert(self.held@[j] == start[j]);
                    }
                }
                assert forall|j: int|
                    0 <= j < releases@.len() implies transition_is(
                        #[trigger] releases@[j],
                        m.pressed_prefix(i + 1)[j],
                        Action::Released,
                    ) by {
                    if j < start_releases.len() {
                        assert(releases@[j] == start_releases[j]);
                    }
                }
            }
        }
        proof {
            assert(m.pressed_switches() == m.pressed_prefix(n as int));
            assert forall|j: int| 0 <= j < n implies #[trigger] self@.held[j] == Set::<Seq<char>>::empty() by {
                lemma_held_empty(self.held@[j]@);
                assert(held_set(self.held@[j]@) =~= Set::<Seq<char>>::empty());
            }
            assert(self@.held =~= m.all_released().held);
        }
        releases
    }
}

/// An edge changes at most one logical switch: a switch's logical state
/// (pressed while any of its mappings is held) flips exactly when the edge
/// emits a transition for it, and an emitted transition points in the
/// direction the switch moved. Mappings and the switch list never change.
pub proof fn lemma_only_outer_edges_emit(m: SwitchModel, id: Seq<char>, action: Action)
    requires
        m.wf(),
    ensures
        ({
            let (n, o) = m.step(id, action);
            &&& n.wf()
            &&& n.routes == m.routes
            &&& n.switches == m.switches
            &&& forall|j: int|
                0 <= j < m.switches.len() ==> (is_pressed(#[trigger] n.held[j]) != is_pressed(
                    m.held[j],
                ) <==> o == StepOutcome::Emitted(m.switches[j]))
            &&& forall|j: int|
                0 <= j < m.switches.len() && o == StepOutcome::Emitted(#[trigger] m.switches[j])
                    ==> (is_pressed(n.held[j]) <==> action == Action::Pressed)
        }),
{
    let (n, o) = m.step(id, action);
    if m.routes.contains_key(id) {
        let s = m.routes[id];
        let i = m.slot_of(s);
        let h = m.held[i];
        assert(m.switches.contains(s));
        assert(0 <= i < m.switches.len() && m.switches[i] == s);
        assert forall|j: int| 0 <= j < m.switches.len() implies (is_pressed(
            #[trigger] n.held[j],
        ) != is_pressed(m.held[j]) <==> o == StepOutcome::Emitted(m.switches[j])) by {
            if j != i && m.switches[j] == s {
                lemma_ascending_distinct(m.switches, i, j);
            }
            if action == Action::Pressed && !h.contains(id) && j == i {
                assert(h.insert(id).contains(id));
            }
        }
        assert forall|j: int|
            0 <= j < m.switches.len() && o == StepOutcome::Emitted(
                #[trigger] m.switches[j],
            ) implies (is_pressed(n.held[j]) <==> action == Action::Pressed) by {
            lemma_ascending_distinct(m.switches, i, j);
            if action == Action::Pressed {
                assert(h.insert(id).contains(id));
            }
        }
    }
}

/// A press of a released mapping followed by its release restores the state
/// exactly, and the two edges emit opposite transitions for the same switch
/// or none at all.
pub proof fn lemma_press_release_round_trip(m: SwitchModel, id: Seq<char>)
    requires
        m.wf(),
        m.routes.contains_key(id),
        !m.held[m.slot_of(m.routes[id])].contains(id),
    ensures
        ({
            let (p, o1) = m.step(id, Action::Pressed);
            let (r, o2) = p.step(id, Action::Released);
            &&& r == m
            &&& o1 == o2
            &&& o1 != StepOutcome::UnknownMapping
            &&& o1 != StepOutcome::InvalidTransition
        }),
{
    let s = m.routes[id];
    let i = m.slot_of(s);
    let h = m.held[i];
    let (p, o1) = m.step(id, Action::Pressed);
    assert(p.routes == m.routes && p.switches == m.switches);
    assert(p.slot_of(s) == i);
    assert(p.held[i] == h.insert(id));
    assert(h.insert(id).remove(id) =~= h);
    assert(p.held.update(i, h) =~= m.held);
    if is_pressed(h) {
    } else {
        assert(h =~= Set::<Seq<char>>::empty());
        assert(!is_pressed(h.insert(id).remove(id)));
    }
}

/// After every switch is released, no configured mapping can be released
/// again: such an edge is a repeated transition and changes nothing.
pub proof fn lemma_release_after_release_all(m: SwitchModel, id: Seq<char>)
    requires
        m.wf(),
        m.routes.contains_key(id),
    ensures
        m.all_released().wf(),
        m.all_released().step(id, Action::Released) == (
            m.all_released(),
            StepOutcome::InvalidTransition,
        ),
        forall|j: int|
            0 <= j < m.switches.len() ==> !is_pressed(#[trigger] m.all_released().held[j]),
{
    let a = m.all_released();
    let i = a.slot_of(a.routes[id]);
    assert(a.switches.contains(a.routes[id]));
    assert(0 <= i < a.switches.len());
    assert(!a.held[i].contains(id));
}

/// At most `n` of the first `n` switches are pressed.
pub proof fn lemma_pressed_prefix_len(m: SwitchModel, n: int)
    requires
        0 <= n <= m.switches.len(),
        m.held.len() == m.switches.len(),
    ensures
        m.pressed_prefix(n).len() <= n,
    decreases n,
{
    if n > 0 {
        lemma_pressed_prefix_len(m, n - 1);
    }
}

/// Whether `x` is one of the first `n` switches.
spec fn listed_before(m: SwitchModel, x: Seq<char>, n: int) -> bool {
    exists|k: int| 0 <= k < n && m.switches[k] == x
}

/// The pressed switches among the first `n` are switches listed before
/// `n`, in strictly ascending order.
proof fn lemma_pressed_prefix_ascending(m: SwitchModel, n: int)
    requires
        m.wf(),
        0 <= n <= m.switches.len(),
    ensures
        strictly_ascending(m.pressed_prefix(n)),
        forall|i: int|
            0 <= i < m.pressed_prefix(n).len() ==> listed_before(m, #[trigger] m.pressed_prefix(n)[i], n),
    decreases n,
{
    if n > 0 {
        lemma_pressed_prefix_ascending(m, n - 1);
        let p = m.pressed_prefix(n - 1);
        if is_pressed(m.held[n - 1]) {
            let q = p.push(m.switches[n - 1]);
            assert(m.pressed_prefix(n) == q);
            assert forall|i: int| 0 <= i < q.len() implies listed_before(m, #[trigger] q[i], n) by {
                if i < p.len() {
                    assert(listed_before(m, p[i], n - 1));
                    let k = choose|k: int| 0 <= k < n - 1 && m.switches[k] == p[i];
                    assert(m.switches[k] == q[i]);
                } else {
                    assert(m.switches[n - 1] == q[i]);
                }
            }
            assert forall|i: int, j: int| 0 <= i < j < q.len() implies text_lt(
                #[trigger] q[i],
                #[trigger] q[j],
            ) by {
                if j < p.len() {
                    assert(q[i] == p[i] && q[j] == p[j]);
                } else {
                    assert(listed_before(m, p[i], n - 1));
                    let k = choose|k: int| 0 <= k < n - 1 && m.switches[k] == p[i];
                    assert(q[i] == m.switches[k]);
                    assert(q[j] == m.switches[n - 1]);
                }
            }
        } else {
            assert(m.pressed_prefix(n) == p);
            assert forall|i: int| 0 <= i < p.len() implies listed_before(m, #[trigger] p[i], n) by {
                assert(listed_before(m, p[i], n - 1));
                let k = choose|k: int| 0 <= k < n - 1 && m.switches[k] == p[i];
                assert(m.switches[k] == p[i]);
            }
        }
    }
}

/// A released model has no pressed switch among its first `n`.
proof fn lemma_released_prefix_empty(m: SwitchModel, n: int)
    requires
        0 <= n <= m.switches.len(),
    ensures
        m.all_released().pressed_prefix(n).len() == 0,
    decreases n,
{
    if n > 0 {
        lemma_released_prefix_empty(m, n - 1);
        assert(!is_pressed(m.all_released().held[n - 1]));
    }
}

/// `release_all` releases the pressed switches in strictly ascending order
/// of their ids, and a second `release_all` releases nothing.
pub proof fn lemma_release_all_is_ordered_and_idempotent(m: SwitchModel)
    requires
        m.wf(),
    ensures
        strictly_ascending(m.pressed_switches()),
        m.all_released().pressed_switches().len() == 0,
        m.all_released().all_released() == m.all_released(),
{
    lemma_pressed_prefix_ascending(m, m.switches.len() as int);
    lemma_released_prefix_empty(m, m.switches.len() as int);
    assert(m.all_released().all_released() =~= m.all_released());
}

/// The model after a run of operations: `Some((id, action))` is a physical
/// edge, `None` a `release_all`.
pub open spec fn replay(m: SwitchModel, ops: Seq<Option<(Seq<char>, Action)>>) -> SwitchModel
    decreases ops.len(),
{
    if ops.len() == 0 {
        m
    } else {
        let before = replay(m, ops.drop_last());
        match ops.last() {
            Some((id, action)) => before.step(id, action).0,
            None => before.all_released(),
        }
    }
}

/// Over any run of edges and releases the configuration stays as built:
/// the routing table and the ordered list of switches never change, so
/// every snapshot lists exactly the configured switches in ascending order.
pub proof fn lemma_runs_keep_configuration(m: SwitchModel, ops: Seq<Option<(Seq<char>, Action)>>)
    requires
        m.wf(),
    ensures
        replay(m, ops).wf(),
        replay(m, ops).routes == m.routes,
        replay(m, ops).switches == m.switches,
    decreases ops.len(),
{
    if ops.len() > 0 {
        lemma_runs_keep_configuration(m, ops.drop_last());
        let before = replay(m, ops.drop_last());
        match ops.last() {
            Some((id, action)) => {
                lemma_only_outer_edges_emit(before, id, action);
            },
            None => {
                let after = before.all_released();
                assert forall|k: Seq<char>| #[trigger] after.routes.contains_key(k) implies after.switches.contains(
                    after.routes[k],
                ) by {}
            },
        }
    }
}

proof fn lemma_pressed_prefix_members(m: SwitchModel, n: int)
    requires
        m.wf(),
        0 <= n <= m.switches.len(),
    ensures
        forall|j: int|
            0 <= j < m.switches.len() ==> (m.pressed_prefix(n).contains(#[trigger] m.switches[j])
                <==> (j < n && is_pressed(m.held[j]))),
    decreases n,
{
    if n > 0 {
        lemma_pressed_prefix_members(m, n - 1);
        let p = m.pressed_prefix(n - 1);
        let last = m.switches[n - 1];
        assert forall|j: int| 0 <= j < m.switches.len() implies (m.pressed_prefix(n).contains(
            #[trigger] m.switches[j],
        ) <==> (j < n && is_pressed(m.held[j]))) by {
            if m.switches[j] == last {
                lemma_ascending_distinct(m.switches, j, n - 1);
            }
            if is_pressed(m.held[n - 1]) {
                assert(m.pressed_prefix(n) == p.push(last));
                assert(p.push(last)[p.len() as int] == last);
                if p.push(last).contains(m.switches[j]) {
                    let q = choose|q: int| 0 <= q < p.len() + 1 && p.push(last)[q] == m.switches[j];
                    if q < p.len() {
                        assert(p[q] == m.switches[j]);
                    }
                }
                if p.contains(m.switches[j]) {
                    let q = choose|q: int| 0 <= q < p.len() && p[q] == m.switches[j];
                    assert(p.push(last)[q] == m.switches[j]);
                }
            } else {
                assert(m.pressed_prefix(n) == p);
            }
        }
    }
}

/// `release_all` releases exactly the switches that were pressed: a
/// configured switch is among the releases if and only if at least one of
/// its mappings was held, and the releases come in ascending switch order.
pub proof fn lemma_releases_are_exactly_the_pressed_switches(m: SwitchModel)
    requires
        m.wf(),
    ensures
        forall|j: int|
            0 <= j < m.switches.len() ==> (m.pressed_switches().contains(#[trigger] m.switches[j])
                <==> m.held[j] != Set::<Seq<char>>::empty()),
        forall|i: int|
            0 <= i < m.pressed_switches().len() ==> m.switches.contains(
                #[trigger] m.pressed_switches()[i],
            ),
        strictly_ascending(m.pressed_switches()),
{
    lemma_pressed_prefix_members(m, m.switches.len() as int);
    lemma_pressed_prefix_ascending(m, m.switches.len() as int);
    assert forall|i: int| 0 <= i < m.pressed_switches().len() implies m.switches.contains(
        #[trigger] m.pressed_switches()[i],
    ) by {
        assert(listed_before(m, m.pressed_switches()[i], m.switches.len() as int));
        let k = choose|k: int| 0 <= k < m.switches.len() && m.switches[k] == m.pressed_switches()[i];
        assert(m.switches[k] == m.pressed_switches()[i]);
    }
}

} // verus!

//! The stdin simulator: one internal mapping per logical switch, and the
//! `press <switch_id>` / `release <switch_id>` command language.
use vstd::prelude::*;

use crate::broker::PhysicalEvent;
use crate::config::{InputKind, Mapping};
use crate::protocol::{binary_confidence, Action, Confidence};
use crate::state::feeds;
use crate::text::{chars_of, concat, is_white_space, is_whitespace_char, same_text};

verus! {

/// The distinct switch ids of `ms`, in the order they first appear.
pub open spec fn first_switches(ms: Seq<Mapping>) -> Seq<Seq<char>>
    decreases ms.len(),
{
    if ms.len() == 0 {
        Seq::empty()
    } else {
        let p = first_switches(ms.drop_last());
        if p.contains(ms.last().switch_id@) {
            p
        } else {
            p.push(ms.last().switch_id@)
        }
    }
}

/// The id of the simulated mapping of switch `s`.
pub open spec fn simulated_id(s: Seq<char>) -> Seq<char> {
    "sim:"@ + s
}

/// Whether `m` is the simulated keyboard mapping of switch `s`.
pub open spec fn is_simulated_mapping(m: Mapping, s: Seq<char>) -> bool {
    &&& m.id@ == simulated_id(s)
    &&& m.switch_id@ == s
    &&& m.input == InputKind::Keyboard
    &&& m.code@ == "simulator"@
    &&& m.device is None
}

proof fn lemma_first_switches_feeds(ms: Seq<Mapping>)
    ensures
        forall|s: Seq<char>| #[trigger] first_switches(ms).contains(s) <==> feeds(ms, s),
    decreases ms.len(),
{
    if ms.len() > 0 {
        let init = ms.drop_last();
        lemma_first_switches_feeds(init);
        assert forall|s: Seq<char>| #[trigger] first_switches(ms).contains(s) <==> feeds(ms, s) by {
            if feeds(init, s) {
                let i = choose|i: int| 0 <= i < init.len() && (#[trigger] init[i]).switch_id@ == s;
                assert(ms[i] == init[i]);
            }
            if feeds(ms, s) {
                let i = choose|i: int| 0 <= i < ms.len() && (#[trigger] ms[i]).switch_id@ == s;
                if i < init.len() {
                    assert(ms[i] == init[i]);
                } else {
                    assert(ms[i] == ms.last());
                }
            }
            let p = first_switches(init);
            if !p.contains(ms.last().switch_id@) {
                assert(p.push(ms.last().switch_id@)[p.len() as int] == ms.last().switch_id@);
                if p.push(ms.last().switch_id@).contains(s) {
                    let j = choose|j: int| 0 <= j < p.len() + 1 && p.push(ms.last().switch_id@)[j] == s;
                    if j < p.len() {
                        assert(p[j] == s);
                    }
                }
                if p.contains(s) {
                    let j = choose|j: int| 0 <= j < p.len() && p[j] == s;
                    assert(p.push(ms.last().switch_id@)[j] == s);
                }
            }
            assert(ms.last() == ms[ms.len() - 1]);
        }
    }
}

/// The simulator gets one mapping for each configured switch and no other:
/// the switch ids it covers are exactly those some mapping feeds, each once.
pub proof fn lemma_simulator_covers_each_switch_once(ms: Seq<Mapping>)
    ensures
        forall|s: Seq<char>| #[trigger] first_switches(ms).contains(s) <==> feeds(ms, s),
        forall|i: int, j: int|
            0 <= i < j < first_switches(ms).len() ==> #[trigger] first_switches(ms)[i]
                != #[trigger] first_switches(ms)[j],
    decreases ms.len(),
{
    lemma_first_switches_feeds(ms);
    if ms.len() > 0 {
        lemma_simulator_covers_each_switch_once(ms.drop_last());
        let p = first_switches(ms.drop_last());
        let f = first_switches(ms);
        assert forall|i: int, j: int| 0 <= i < j < f.len() implies #[trigger] f[i] != #[trigger] f[j] by {
            if !p.contains(ms.last().switch_id@) && j == p.len() {
                assert(f[i] == p[i]);
            } else {
                assert(f[i] == p[i] && f[j] == p[j]);
            }
        }
    }
}

/// One simulated keyboard mapping per distinct switch id of `mappings`, in
/// the order the switch ids first appear.
pub fn mappings_for(mappings: &[Mapping]) -> (sim: Vec<Mapping>)
    ensures
        sim@.len() == first_switches(mappings@).len(),
        forall|i: int|
            0 <= i < sim@.len() ==> is_simulated_mapping(
                #[trigger] sim@[i],
                first_switches(mappings@)[i],
            ),
{
    let n = mappings.len();
    let mut sim: Vec<Mapping> = Vec::new();
    for k in 0..n
        invariant
            n == mappings@.len(),
            sim@.len() == first_switches(mappings@.take(k as int)).len(),
            forall|i: int|
                0 <= i < sim@.len() ==> is_simulated_mapping(
                    #[trigger] sim@[i],
                    first_switches(mappings@.take(k as int))[i],
                ),
    {
        let m = &mappings[k];
        let ghost pre = first_switches(mappings@.take(k as int));
        proof {
            assert(mappings@.take(k + 1).drop_last() =~= mappings@.take(k as int));
            assert(mappings@.take(k + 1).last() == *m);
        }
        let mut seen = false;
        let mut j: usize = 0;
        while j < sim.len()
            invariant
                j <= sim@.len(),
                sim@.len() == pre.len(),
                forall|i: int| 0 <= i < sim@.len() ==> is_simulated_mapping(#[trigger] sim@[i], pre[i]),
                seen ==> pre.contains(m.switch_id@),
                !seen ==> forall|q: int| 0 <= q < j ==> pre[q] != m.switch_id@,
            decreases sim@.len() - j,
        {
            if same_text(sim[j].switch_id.as_str(), m.switch_id.as_str()) {
                proof {
                    assert(is_simulated_mapping(sim@[j as int], pre[j as int]));
                }
                seen = true;
            }
            j = j + 1;
        }
        if !seen {
            let id = concat("sim:", m.switch_id.as_str());
            let ghost before = sim@;
            sim.push(
                Mapping {
                    id,
                    switch_id: m.switch_id.clone(),
                    input: InputKind::Keyboard,
                    code: "simulator".to_owned(),
                    device: None,
                },
            );
            proof {
                assert(!pre.contains(m.switch_id@));
                let post = pre.push(m.switch_id@);
                assert forall|i: int| 0 <= i < sim@.len() implies is_simulated_mapping(
                    #[trigger] sim@[i],
                    post[i],
                ) by {
                    if i < before.len() {
                        assert(sim@[i] == before[i]);
                    }
                }
            }
        }
    }
    proof {
        assert(mappings@.take(n as int) =~= mappings@);
    }
    sim
}

/// The first index at or after `i` that is not white space.
pub open spec fn skip_white(s: Seq<char>, i: int) -> int
    decreases s.len() - i,
{
    if i < 0 || i >= s.len() || !is_white_space(s[i]) {
        i
    } else {
        skip_white(s, i + 1)
    }
}

/// The first index at or after `i` that is white space (or the end).
pub open spec fn word_end(s: Seq<char>, i: int) -> int
    decreases s.len() - i,
{
    if i < 0 || i >= s.len() || is_white_space(s[i]) {
        i
    } else {
        word_end(s, i + 1)
    }
}

/// The word starting at the first non-white character at or after `i`.
pub open spec fn word_from(s: Seq<char>, i: int) -> Option<Seq<char>> {
    let a = skip_white(s, i);
    if a >= s.len() {
        None
    } else {
        Some(s.subrange(a, word_end(s, a)))
    }
}

/// The first word of a line, words being separated by white space.
pub open spec fn first_word(s: Seq<char>) -> Option<Seq<char>> {
    word_from(s, 0)
}

/// The second word of a line.
pub open spec fn second_word(s: Seq<char>) -> Option<Seq<char>> {
    word_from(s, word_end(s, skip_white(s, 0)))
}

/// What one line typed into the simulator asks for.
#[derive(Debug)]
pub enum SimCommand {
    /// An empty or blank line.
    Blank,
    /// The first word is neither `press` nor `release`.
    UnknownCommand(Vec<char>),
    /// `press` or `release` without a switch id.
    MissingSwitch,
    /// The switch id is not simulated.
    UnknownSwitch(Vec<char>),
    /// A simulated edge for the broker.
    Input(PhysicalEvent),
}

/// The action a command word names.
pub open spec fn command_action(w: Seq<char>) -> Option<Action> {
    if w == "press"@ {
        Some(Action::Pressed)
    } else if w == "release"@ {
        Some(Action::Released)
    } else {
        None
    }
}

/// Whether `c` is what the simulator makes of `line`, given the configured
/// `mappings`: the first word names the action, the second the switch, and
/// the edge goes to that switch's simulated mapping with the confidence of
/// a binary switch.
pub open spec fn command_is(c: SimCommand, line: Seq<char>, mappings: Seq<Mapping>) -> bool {
    match first_word(line) {
        None => c is Blank,
        Some(w) => match command_action(w) {
            None => c matches SimCommand::UnknownCommand(v) && v@ == w,
            Some(action) => match second_word(line) {
                None => c is MissingSwitch,
                Some(s) => if feeds(mappings, s) {
                    c matches SimCommand::Input(e) && e.mapping_id@ == simulated_id(s) && e.action
                        == action && e.confidence == Some(
                        Confidence {
                            bits: if action == Action::Pressed {
                                crate::protocol::CONFIDENCE_FULL_BITS
                            } else {
                                0u32
                            },
                        },
                    )
                } else {
                    c matches SimCommand::UnknownSwitch(v) && v@ == s
                },
            },
        },
    }
}

fn skip_white_at(cs: &Vec<char>, i: usize) -> (r: usize)
    requires
        i <= cs@.len(),
    ensures
        r == skip_white(cs@, i as int),
        i <= r <= cs@.len(),
{
    let mut j = i;
    while j < cs.len() && is_whitespace_char(cs[j])
        invariant
            i <= j <= cs@.len(),
            skip_white(cs@, i as int) == skip_white(cs@, j as int),
        decreases cs@.len() - j,
    {
        j = j + 1;
    }
    j
}

fn word_end_at(cs: &Vec<char>, i: usize) -> (r: usize)
    requires
        i <= cs@.len(),
    ensures
        r == word_end(cs@, i as int),
        i <= r <= cs@.len(),
{
    let mut j = i;
    while j < cs.len() && !is_whitespace_char(cs[j])
        invariant
            i <= j <= cs@.len(),
            word_end(cs@, i as int) == word_end(cs@, j as int),
        decreases cs@.len() - j,
    {
        j = j + 1;
    }
    j
}

fn slice_chars(cs: &Vec<char>, a: usize, b: usize) -> (r: Vec<char>)
    requires
        a <= b <= cs@.len(),
    ensures
        r@ == cs@.subrange(a as int, b as int),
{
    let mut r: Vec<char> = Vec::new();
    for i in a..b
        invariant
            b <= cs@.len(),
            r@ == cs@.subrange(a as int, i as int),
    {
        r.push(cs[i]);
        proof {
            assert(r@ =~= cs@.subrange(a as int, i + 1));
        }
    }
    r
}

fn chars_equal(a: &Vec<char>, b: &Vec<char>) -> (r: bool)
    ensures
        r == (a@ == b@),
{
    if a.len() != b.len() {
        return false;
    }
    let n = a.len();
    let mut i: usize = 0;
    while i < n
        invariant
            i <= n,
            n == a@.len(),
            n == b@.len(),
            forall|j: int| 0 <= j < i ==> a@[j] == b@[j],
        decreases n - i,
    {
        if a[i] != b[i] {
            return false;
        }
        i = i + 1;
    }
    assert(a@ =~= b@);
    true
}

/// Interprets one line typed into the simulator.
pub fn parse_command(line: &str, mappings: &[Mapping]) -> (c: SimCommand)
    ensures
        command_is(c, line@, mappings@),
{
    let cs = chars_of(line);
    let a = skip_white_at(&cs, 0);
    if a >= cs.len() {
        return SimCommand::Blank;
    }
    let b = word_end_at(&cs, a);
    let word = slice_chars(&cs, a, b);
    let press = chars_of("press");
    let release = chars_of("release");
    let action = if chars_equal(&word, &press) {
        Action::Pressed
    } else if chars_equal(&word, &release) {
        Action::Released
    } else {
        return SimCommand::UnknownCommand(word);
    };
    let c = skip_white_at(&cs, b);
    if c >= cs.len() {
        return SimCommand::MissingSwitch;
    }
    let d = word_end_at(&cs, c);
    let switch_id = slice_chars(&cs, c, d);
    proof {
        assert(first_word(line@) == Some(word@));
        assert(second_word(line@) == Some(switch_id@));
    }
    let n = mappings.len();
    let mut k: usize = 0;
    while k < n
        invariant
            first_word(line@) == Some(word@),
            command_action(word@) == Some(action),
            second_word(line@) == Some(switch_id@),
            k <= n,
            n == mappings@.len(),
            forall|q: int| 0 <= q < k ==> (#[trigger] mappings@[q]).switch_id@ != switch_id@,
        decreases n - k,
    {
        let candidate = chars_of(mappings[k].switch_id.as_str());
        if chars_equal(&candidate, &switch_id) {
            let mapping_id = concat("sim:", mappings[k].switch_id.as_str());
            proof {
                assert(feeds(mappings@, switch_id@));
            }
            return SimCommand::Input(
                PhysicalEvent { mapping_id, action, confidence: Some(binary_confidence(action)) },
            );
        }
        k = k + 1;
    }
    SimCommand::UnknownSwitch(switch_id)
}

} // verus!

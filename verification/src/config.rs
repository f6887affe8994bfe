//! Daemon configuration: server settings, the stdin simulator switch and the
//! physical-to-logical switch mappings, with the checks a loaded
//! configuration must pass.
use vstd::prelude::*;

use crate::text::{is_blank, is_blank_text, same_text};

verus! {

/// How a physical mapping is captured.
#[derive(Debug, Clone, Copy, PartialEq, Eq, Structural)]
pub enum InputKind {
    Keyboard,
    Gamepad,
}

/// One physical input bound to a logical switch.
#[derive(Debug, Clone, PartialEq, Eq)]
pub struct Mapping {
    pub id: String,
    pub switch_id: String,
    pub input: InputKind,
    pub code: String,
    pub device: Option<String>,
}

/// Loopback server settings.
#[derive(Debug, Clone, PartialEq, Eq, Structural)]
pub struct ServerConfig {
    pub port: u16,
    pub client_queue_capacity: usize,
}

impl Default for ServerConfig {
    fn default() -> (c: Self)
        ensures
            c.port == 7312,
            c.client_queue_capacity == 256,
    {
        ServerConfig { port: 7312, client_queue_capacity: 256 }
    }
}

/// Whether the stdin simulator runs.
#[derive(Debug, Clone, PartialEq, Eq, Structural)]
pub struct SimulatorConfig {
    pub stdin: bool,
}

impl Default for SimulatorConfig {
    fn default() -> (c: Self)
        ensures
            !c.stdin,
    {
        SimulatorConfig { stdin: false }
    }
}

/// The daemon's configuration.
#[derive(Debug, Clone)]
pub struct Config {
    pub server: ServerConfig,
    pub simulator: SimulatorConfig,
    pub mappings: Vec<Mapping>,
}

/// Why a configuration was refused.
#[derive(Debug, Clone, PartialEq, Eq)]
pub enum ConfigError {
    NoMappings,
    DuplicateMappingId(String),
    EmptySwitchId(String),
    EmptyCode(String),
    ZeroQueueCapacity,
}

/// What is wrong with one mapping, checked in this order.
pub enum MappingProblem {
    /// An earlier mapping has the same id.
    DuplicateId,
    /// The switch id is empty or only white space.
    EmptySwitchId,
    /// The code is empty or only white space.
    EmptyCode,
}

/// The problem of mapping `i` among `ms`, if any.
pub open spec fn problem_at(ms: Seq<Mapping>, i: int) -> Option<MappingProblem> {
    if exists|j: int| 0 <= j < i && (#[trigger] ms[j]).id@ == ms[i].id@ {
        Some(MappingProblem::DuplicateId)
    } else if is_blank_text(ms[i].switch_id@) {
        Some(MappingProblem::EmptySwitchId)
    } else if is_blank_text(ms[i].code@) {
        Some(MappingProblem::EmptyCode)
    } else {
        None
    }
}

/// Whether `r` is the error for the problem of mapping `i`.
pub open spec fn reports_problem(r: Result<(), ConfigError>, ms: Seq<Mapping>, i: int) -> bool {
    match problem_at(ms, i) {
        Some(MappingProblem::DuplicateId) => r matches Err(ConfigError::DuplicateMappingId(id))
            && id@ == ms[i].id@,
        Some(MappingProblem::EmptySwitchId) => r matches Err(ConfigError::EmptySwitchId(id)) && id@
            == ms[i].id@,
        Some(MappingProblem::EmptyCode) => r matches Err(ConfigError::EmptyCode(id)) && id@
            == ms[i].id@,
        None => false,
    }
}

impl Config {
    /// Checks a parsed configuration: at least one mapping, a non-zero queue
    /// capacity, and mappings with unique ids and non-blank switch ids and
    /// codes. The first failing check is reported; mappings are checked in
    /// order.
    pub fn validate(&self) -> (r: Result<(), ConfigError>)
        ensures
            self.mappings@.len() == 0 ==> r == Err::<(), ConfigError>(ConfigError::NoMappings),
            self.mappings@.len() > 0 && self.server.client_queue_capacity == 0 ==> r == Err::<
                (),
                ConfigError,
            >(ConfigError::ZeroQueueCapacity),
            self.mappings@.len() > 0 && self.server.client_queue_capacity > 0 ==> {
                &&& r is Ok <==> forall|i: int|
                    0 <= i < self.mappings@.len() ==> problem_at(self.mappings@, i) is None
                &&& r is Err ==> exists|i: int|
                    0 <= i < self.mappings@.len() && (forall|j: int|
                        0 <= j < i ==> problem_at(self.mappings@, j) is None) && reports_problem(
                        r,
                        self.mappings@,
                        i,
                    )
            },
    {
        if self.mappings.len() == 0 {
            return Err(ConfigError::NoMappings);
        }
        if self.server.client_queue_capacity == 0 {
            return Err(ConfigError::ZeroQueueCapacity);
        }
        let ms = &self.mappings;
        let n = ms.len();
        for i in 0..n
            invariant
                n == ms@.len(),
                ms@ == self.mappings@,
                n > 0,
                self.server.client_queue_capacity > 0,
                forall|j: int| 0 <= j < i ==> problem_at(ms@, j) is None,
        {
            let mut j: usize = 0;
            let mut dup = false;
            while j < i
                invariant
                    j <= i,
                    i < n,
                    n == ms@.len(),
                    dup ==> exists|q: int| 0 <= q < i && (#[trigger] ms@[q]).id@ == ms@[i as int].id@,
                    !dup ==> forall|q: int| 0 <= q < j ==> (#[trigger] ms@[q]).id@ != ms@[i as int].id@,
                decreases i - j,
            {
                if same_text(ms[j].id.as_str(), ms[i].id.as_str()) {
                    dup = true;
                }
                j = j + 1;
            }
            proof {
                if !dup {
                    assert(!exists|q: int| 0 <= q < i && (#[trigger] ms@[q]).id@ == ms@[i as int].id@);
                }
            }
            if dup {
                let r = Err(ConfigError::DuplicateMappingId(ms[i].id.clone()));
                proof {
                    assert(problem_at(ms@, i as int) matches Some(MappingProblem::DuplicateId));
                    assert(reports_problem(r, ms@, i as int));
                }
                return r;
            }
            if is_blank(ms[i].switch_id.as_str()) {
                let r = Err(ConfigError::EmptySwitchId(ms[i].id.clone()));
                proof {
                    assert(problem_at(ms@, i as int) matches Some(MappingProblem::EmptySwitchId));
                    assert(reports_problem(r, ms@, i as int));
                }
                return r;
            }
            if is_blank(ms[i].code.as_str()) {
                let r = Err(ConfigError::EmptyCode(ms[i].id.clone()));
                proof {
                    assert(problem_at(ms@, i as int) matches Some(MappingProblem::EmptyCode));
                    assert(reports_problem(r, ms@, i as int));
                }
                return r;
            }
        }
        Ok(())
    }
}

/// A configuration that passes validation has pairwise distinct mapping
/// ids, and each mapping feeds exactly the switch it names: no mapping is
/// overridden by another with the same id.
pub proof fn lemma_valid_mappings_route_uniquely(ms: Seq<Mapping>)
    requires
        forall|i: int| 0 <= i < ms.len() ==> problem_at(ms, i) is None,
    ensures
        forall|i: int, j: int| 0 <= i < j < ms.len() ==> (#[trigger] ms[i]).id@ != (#[trigger] ms[j]).id@,
        forall|i: int|
            0 <= i < ms.len() ==> crate::state::route_table(crate::state::mapping_pairs(ms)).contains_key(
                (#[trigger] ms[i]).id@,
            ) && crate::state::route_table(crate::state::mapping_pairs(ms))[ms[i].id@] == ms[i].switch_id@,
{
    assert forall|i: int, j: int| 0 <= i < j < ms.len() implies (#[trigger] ms[i]).id@ != (#[trigger] ms[j]).id@ by {
        assert(problem_at(ms, j) is None);
    }
    let pairs = crate::state::mapping_pairs(ms);
    assert forall|i: int| 0 <= i < ms.len() implies crate::state::route_table(pairs).contains_key(
        (#[trigger] ms[i]).id@,
    ) && crate::state::route_table(pairs)[ms[i].id@] == ms[i].switch_id@ by {
        crate::state::lemma_last_wins(pairs, ms[i].id@);
        assert(pairs[i].0 == ms[i].id@);
        assert forall|q: int| i < q < pairs.len() implies (#[trigger] pairs[q]).0 != ms[i].id@ by {
            assert(pairs[q].0 == ms[q].id@);
            assert(problem_at(ms, q) is None);
        }
    }
}

} // verus!

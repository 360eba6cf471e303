//! The search for the smallest parameter at which the recurrence, at fixed
//! outer arguments, yields a target word.
//!
//! The search is a state machine. [`step`] tries one candidate against a
//! fresh memo table and says where the search stands afterwards; [`search`]
//! runs the machine to its end. What the candidates yielded is handed back
//! as [`Report`]s, one per candidate tried, for the caller to print or log.

use crate::evaluator::{energy_level, energy_level_within, fits};
use crate::memo::Memo;
use crate::recurrence::{energy, lemma_energy_is_word, MODULUS};
use vstd::prelude::*;

verus! {

/// What the search does when the evaluation of a candidate runs into the
/// memo limit.
#[derive(Clone, Copy, Debug, PartialEq, Eq)]
pub enum OnExhaustion {
    /// The whole search ends there.
    Abort,
    /// The candidate is given up and the search goes on with the next.
    Skip,
}

/// What to search for, and where.
#[derive(Clone, Copy, Debug, PartialEq, Eq)]
pub struct SearchConfig {
    /// First outer argument of the recurrence.
    pub x: u16,
    /// Second outer argument of the recurrence.
    pub y: u16,
    /// The word that the recurrence is to yield.
    pub target: u16,
    /// First candidate.
    pub k_first: u16,
    /// Last candidate.
    pub k_last: u16,
    /// The most entries that the memo table of one candidate may hold, if
    /// the table is limited at all.
    pub memo_limit: Option<usize>,
    /// What happens when a candidate runs into `memo_limit`.
    pub on_exhaustion: OnExhaustion,
}

/// Why a configuration was rejected. Each variant carries what is wrong.
#[derive(Clone, Copy, Debug, PartialEq, Eq)]
pub enum ConfigError {
    /// `x` is not a word.
    XOutOfRange(u16),
    /// `y` is not a word.
    YOutOfRange(u16),
    /// `target` is not a word.
    TargetOutOfRange(u16),
    /// The last candidate is not a word.
    RangeEndOutOfRange(u16),
    /// The first candidate lies after the last.
    EmptyRange { first: u16, last: u16 },
}

/// Where the search stands.
#[derive(Clone, Copy, Debug, PartialEq, Eq)]
pub enum SearchState {
    /// The candidate `k` is to be tried next.
    Searching(u16),
    /// The candidate `k` yields the target, and no candidate before it
    /// does.
    Found(u16),
    /// No candidate is left.
    Exhausted,
    /// The evaluation of the candidate `k` ran into the memo limit, and the
    /// search was configured to end there.
    Aborted(u16),
}

/// What one candidate yielded: the value of the recurrence, or nothing
/// where the evaluation ran into the memo limit.
#[derive(Clone, Copy, Debug, PartialEq, Eq)]
pub struct Report {
    /// The candidate.
    pub k: u16,
    /// What it yielded.
    pub result: Option<u16>,
}

/// A finished search.
#[derive(Debug, PartialEq, Eq)]
pub struct SearchRun {
    /// The state in which the search ended.
    pub outcome: SearchState,
    /// One report per candidate tried, in the order tried.
    pub reports: Vec<Report>,
}

impl SearchState {
    /// Whether the search has ended.
    pub open spec fn terminal(self) -> bool {
        !(self is Searching)
    }

    /// Whether the search has ended.
    pub fn is_terminal(&self) -> (b: bool)
        ensures
            b == self.terminal(),
    {
        match self {
            SearchState::Searching(_) => false,
            _ => true,
        }
    }
}

impl SearchConfig {
    /// The first thing wrong with the configuration, if anything is: the
    /// fields are looked at in the order `x`, `y`, `target`, `k_last`, and
    /// the range is looked at last.
    pub open spec fn first_violation(self) -> Option<ConfigError> {
        if self.x >= MODULUS {
            Some(ConfigError::XOutOfRange(self.x))
        } else if self.y >= MODULUS {
            Some(ConfigError::YOutOfRange(self.y))
        } else if self.target >= MODULUS {
            Some(ConfigError::TargetOutOfRange(self.target))
        } else if self.k_last >= MODULUS {
            Some(ConfigError::RangeEndOutOfRange(self.k_last))
        } else if self.k_first > self.k_last {
            Some(ConfigError::EmptyRange { first: self.k_first, last: self.k_last })
        } else {
            None
        }
    }

    /// Whether nothing is wrong with the configuration.
    pub open spec fn valid(self) -> bool {
        self.first_violation() is None
    }

    /// Whether `k` is one of the candidates.
    pub open spec fn in_range(self, k: int) -> bool {
        self.k_first <= k <= self.k_last
    }

    /// What the candidate `k` yields: the value of the recurrence, which is
    /// a word, or nothing where its evaluation against an empty table does
    /// not fit the memo limit.
    pub open spec fn result_at(self, k: int) -> Option<u16> {
        if fits(
            Map::<(nat, nat, nat), nat>::empty(),
            self.x as nat,
            self.y as nat,
            k as nat,
            self.memo_limit,
        ) {
            Some(energy(self.x as nat, self.y as nat, k as nat) as u16)
        } else {
            None
        }
    }

    /// Whether the candidate `k` yields the target.
    pub open spec fn hits(self, k: int) -> bool {
        self.result_at(k) == Some(self.target)
    }

    /// Whether the search ends with the candidate `k` because its
    /// evaluation ran into the memo limit.
    pub open spec fn aborts(self, k: int) -> bool {
        self.result_at(k) is None && self.on_exhaustion is Abort
    }

    /// Whether the search goes on past the candidate `k`.
    pub open spec fn passes(self, k: int) -> bool {
        !self.hits(k) && !self.aborts(k)
    }

    /// Whether the search goes on past every candidate before `k`.
    pub open spec fn passes_all_before(self, k: int) -> bool {
        forall|j: int|
            #![trigger self.passes(j)]
            #![trigger self.result_at(j)]
            self.k_first <= j < k ==> self.passes(j)
    }

    /// The state after `state`: a search that has ended stays where it is,
    /// and one that has not ends with its candidate or moves on to the
    /// next.
    pub open spec fn next_state(self, state: SearchState) -> SearchState {
        match state {
            SearchState::Searching(k) => {
                if self.hits(k as int) {
                    SearchState::Found(k)
                } else if self.aborts(k as int) {
                    SearchState::Aborted(k)
                } else if k < self.k_last {
                    SearchState::Searching((k + 1) as u16)
                } else {
                    SearchState::Exhausted
                }
            },
            ended => ended,
        }
    }

    /// The report that the step from `state` makes: one on the candidate
    /// tried, none where the search has ended.
    pub open spec fn report_of(self, state: SearchState) -> Option<Report> {
        match state {
            SearchState::Searching(k) => Some(Report { k, result: self.result_at(k as int) }),
            _ => None,
        }
    }

    /// Whether `state` is the state in which the search over the whole
    /// range ends.
    pub open spec fn ends_in(self, state: SearchState) -> bool {
        match state {
            SearchState::Searching(_) => false,
            SearchState::Found(k) => self.in_range(k as int) && self.hits(k as int)
                && self.passes_all_before(k as int),
            SearchState::Aborted(k) => self.in_range(k as int) && self.aborts(k as int)
                && self.passes_all_before(k as int),
            SearchState::Exhausted => self.passes_all_before(self.k_last + 1),
        }
    }

    /// The number of candidates that have been tried when the search stands
    /// in `state`.
    pub open spec fn tried(self, state: SearchState) -> int {
        match state {
            SearchState::Searching(k) => k - self.k_first,
            SearchState::Found(k) => k - self.k_first + 1,
            SearchState::Aborted(k) => k - self.k_first + 1,
            SearchState::Exhausted => self.k_last - self.k_first + 1,
        }
    }

    /// The reports on the first `n` candidates.
    pub open spec fn reports(self, n: int) -> Seq<Report> {
        Seq::new(
            n as nat,
            |i: int|
                Report { k: (self.k_first + i) as u16, result: self.result_at(self.k_first + i) },
        )
    }

    /// The state in which a search begins: the first candidate is to be
    /// tried.
    pub fn first_state(&self) -> (state: SearchState)
        ensures
            state == SearchState::Searching(self.k_first),
    {
        SearchState::Searching(self.k_first)
    }

    /// Checks the configuration.
    pub fn validate(&self) -> (checked: Result<(), ConfigError>)
        ensures
            checked == match self.first_violation() {
                Some(e) => Err::<(), ConfigError>(e),
                None => Ok::<(), ConfigError>(()),
            },
    {
        if self.x >= MODULUS {
            Err(ConfigError::XOutOfRange(self.x))
        } else if self.y >= MODULUS {
            Err(ConfigError::YOutOfRange(self.y))
        } else if self.target >= MODULUS {
            Err(ConfigError::TargetOutOfRange(self.target))
        } else if self.k_last >= MODULUS {
            Err(ConfigError::RangeEndOutOfRange(self.k_last))
        } else if self.k_first > self.k_last {
            Err(ConfigError::EmptyRange { first: self.k_first, last: self.k_last })
        } else {
            Ok(())
        }
    }
}

impl Default for SearchConfig {
    /// The search for which the library was made: outer arguments 4 and 1,
    /// target 6, every word a candidate, no memo limit.
    fn default() -> (cfg: SearchConfig)
        ensures
            cfg == (SearchConfig {
                x: 4,
                y: 1,
                target: 6,
                k_first: 0,
                k_last: 32767,
                memo_limit: None,
                on_exhaustion: OnExhaustion::Abort,
            }),
            cfg.valid(),
    {
        SearchConfig {
            x: 4,
            y: 1,
            target: 6,
            k_first: 0,
            k_last: 32767,
            memo_limit: None,
            on_exhaustion: OnExhaustion::Abort,
        }
    }
}

/// Tries the candidate of a search that has not ended, against a memo
/// table of its own, and returns the state after it and the report on it.
/// A search that has ended stays where it is and reports nothing.
pub fn step(cfg: &SearchConfig, state: SearchState) -> (after: (SearchState, Option<Report>))
    requires
        cfg.valid(),
        state matches SearchState::Searching(k) ==> cfg.in_range(k as int),
    ensures
        after.0 == cfg.next_state(state),
        after.1 == cfg.report_of(state),
{
    match state {
        SearchState::Searching(k) => {
            let mut memo = Memo::new();
            proof {
                lemma_energy_is_word(cfg.x as nat, cfg.y as nat, k as nat);
            }
            let result: Option<u16> = match cfg.memo_limit {
                None => Some(energy_level(cfg.x, cfg.y, k, &mut memo)),
                Some(max) => match energy_level_within(cfg.x, cfg.y, k, &mut memo, max) {
                    Ok(v) => Some(v),
                    Err(_) => None,
                },
            };
            let report = Report { k, result };
            let ended: Option<SearchState> = match result {
                Some(v) => {
                    if v == cfg.target {
                        Some(SearchState::Found(k))
                    } else {
                        None
                    }
                },
                None => match cfg.on_exhaustion {
                    OnExhaustion::Abort => Some(SearchState::Aborted(k)),
                    OnExhaustion::Skip => None,
                },
            };
            let next = match ended {
                Some(end) => end,
                None => {
                    if k < cfg.k_last {
                        SearchState::Searching(k + 1)
                    } else {
                        SearchState::Exhausted
                    }
                },
            };
            (next, Some(report))
        },
        ended => (ended, None),
    }
}

/// Checks the configuration and, where nothing is wrong with it, tries the
/// candidates in ascending order until one yields the target, one runs
/// into the memo limit of a search configured to end there, or none is
/// left.
pub fn search(cfg: &SearchConfig) -> (done: Result<SearchRun, ConfigError>)
    ensures
        match cfg.first_violation() {
            Some(e) => done == Err::<SearchRun, ConfigError>(e),
            None => done matches Ok(run) && cfg.ends_in(run.outcome) && run.reports@
                == cfg.reports(cfg.tried(run.outcome)),
        },
{
    match cfg.validate() {
        Err(e) => {
            return Err(e);
        },
        Ok(_) => {},
    }
    let mut state = cfg.first_state();
    let mut reports: Vec<Report> = Vec::new();
    while !state.is_terminal()
        invariant
            cfg.valid(),
            state matches SearchState::Searching(k) ==> cfg.in_range(k as int)
                && cfg.passes_all_before(k as int),
            state.terminal() ==> cfg.ends_in(state),
            reports@ == cfg.reports(cfg.tried(state)),
        decreases
            (match state {
                SearchState::Searching(k) => cfg.k_last - k + 1,
                _ => 0,
            }),
    {
        let after: (SearchState, Option<Report>) = step(cfg, state);
        match after.1 {
            Some(report) => {
                reports.push(report);
            },
            None => {},
        }
        state = after.0;
    }
    Ok(SearchRun { outcome: state, reports })
}

/// Determinism: a search over a given configuration can end in one state
/// only, so running it again yields the same winner, or none again.
pub proof fn law_search_deterministic(cfg: SearchConfig, first: SearchState, second: SearchState)
    requires
        cfg.ends_in(first),
        cfg.ends_in(second),
    ensures
        first == second,
{
}

} // verus!

//! Per-task statistics: cumulative token counts and durations, with
//! thread-time accounting.

use vstd::prelude::*;
use crate::session::{sat_add, InferenceStats};
use crate::text::str_eq;

verus! {

/// `a * b` capped at the type's maximum.
pub open spec fn sat_mul(a: int, b: int, cap: int) -> int {
    if a * b <= cap {
        a * b
    } else {
        cap
    }
}

fn sat_mul_u64(a: u64, b: u64) -> (r: u64)
    ensures
        r == sat_mul(a as int, b as int, u64::MAX as int),
{
    if b == 0 {
        proof {
            assert(a as int * 0 == 0) by (nonlinear_arith);
        }
        0
    } else if a > u64::MAX / b {
        proof {
            assert(a as int * b as int > u64::MAX as int) by (nonlinear_arith)
                requires
                    b as int >= 1,
                    a as int > u64::MAX as int / b as int,
            ;
        }
        u64::MAX
    } else {
        proof {
            assert(a as int * b as int <= u64::MAX as int) by (nonlinear_arith)
                requires
                    b as int >= 1,
                    a as int <= u64::MAX as int / b as int,
            ;
        }
        a * b
    }
}

/// Cumulative statistics for one task.
#[derive(Debug, Clone, Copy, PartialEq, Eq, Structural)]
pub struct TaskStats {
    /// How many completion cycles the task has served.
    pub cycles: usize,
    /// Total prediction duration, and the same in thread-time
    /// (microseconds).
    pub predict_duration_us: u64,
    pub predict_duration_threads_us: u64,
    pub predict_tokens: usize,
    /// Total prompt-feeding duration, and the same in thread-time
    /// (microseconds).
    pub prompt_duration_us: u64,
    pub prompt_duration_threads_us: u64,
    pub prompt_tokens: usize,
}

/// The record after one more completion cycle is folded in: counts and
/// durations grow, thread-time durations grow by the duration times the
/// thread count, everything saturating at the counter caps.
pub open spec fn stats_after_cycle(t: TaskStats, s: InferenceStats, n_threads: int) -> TaskStats {
    TaskStats {
        cycles: sat_add(t.cycles as int, 1, usize::MAX as int) as usize,
        predict_duration_us: sat_add(
            t.predict_duration_us as int,
            s.predict_duration_us as int,
            u64::MAX as int,
        ) as u64,
        predict_duration_threads_us: sat_add(
            t.predict_duration_threads_us as int,
            sat_mul(s.predict_duration_us as int, n_threads, u64::MAX as int),
            u64::MAX as int,
        ) as u64,
        predict_tokens: sat_add(
            t.predict_tokens as int,
            s.predict_tokens as int,
            usize::MAX as int,
        ) as usize,
        prompt_duration_us: sat_add(
            t.prompt_duration_us as int,
            s.feed_prompt_duration_us as int,
            u64::MAX as int,
        ) as u64,
        prompt_duration_threads_us: sat_add(
            t.prompt_duration_threads_us as int,
            sat_mul(s.feed_prompt_duration_us as int, n_threads, u64::MAX as int),
            u64::MAX as int,
        ) as u64,
        prompt_tokens: sat_add(
            t.prompt_tokens as int,
            s.prompt_tokens as int,
            usize::MAX as int,
        ) as usize,
    }
}

impl TaskStats {
    pub fn add_cycle(&mut self, stats: &InferenceStats, n_threads: usize)
        requires
            n_threads <= u64::MAX,
        ensures
            *final(self) == stats_after_cycle(*old(self), *stats, n_threads as int),
    {
        self.predict_tokens = crate::session::sat_add_usize(
            self.predict_tokens,
            stats.predict_tokens,
        );
        self.prompt_tokens = crate::session::sat_add_usize(self.prompt_tokens, stats.prompt_tokens);
        self.prompt_duration_us = crate::session::sat_add_u64(
            self.prompt_duration_us,
            stats.feed_prompt_duration_us,
        );
        self.prompt_duration_threads_us = crate::session::sat_add_u64(
            self.prompt_duration_threads_us,
            sat_mul_u64(stats.feed_prompt_duration_us, n_threads as u64),
        );
        self.predict_duration_us = crate::session::sat_add_u64(
            self.predict_duration_us,
            stats.predict_duration_us,
        );
        self.predict_duration_threads_us = crate::session::sat_add_u64(
            self.predict_duration_threads_us,
            sat_mul_u64(stats.predict_duration_us, n_threads as u64),
        );
        self.cycles = crate::session::sat_add_usize(self.cycles, 1);
    }
}

impl Default for TaskStats {
    /// All counters at zero.
    fn default() -> (r: TaskStats)
        ensures
            r == (TaskStats {
                cycles: 0,
                predict_duration_us: 0,
                predict_duration_threads_us: 0,
                predict_tokens: 0,
                prompt_duration_us: 0,
                prompt_duration_threads_us: 0,
                prompt_tokens: 0,
            }),
    {
        TaskStats {
            cycles: 0,
            predict_duration_us: 0,
            predict_duration_threads_us: 0,
            predict_tokens: 0,
            prompt_duration_us: 0,
            prompt_duration_threads_us: 0,
            prompt_tokens: 0,
        }
    }
}

/// The per-task aggregator: task name to cumulative statistics, in
/// first-report order.
#[derive(Debug)]
pub struct BackendStats {
    pub task_stats: Vec<(String, TaskStats)>,
}

/// Index of the first record keyed by `name`; negative when absent.
pub open spec fn stats_index_of(entries: Seq<(String, TaskStats)>, name: Seq<char>) -> int
    decreases entries.len(),
{
    if entries.len() == 0 {
        -1
    } else if entries[0].0@ == name {
        0
    } else {
        let sub = stats_index_of(entries.drop_first(), name);
        if sub == -1 {
            -1
        } else {
            sub + 1
        }
    }
}

proof fn lemma_stats_index_of(entries: Seq<(String, TaskStats)>, name: Seq<char>)
    ensures
        stats_index_of(entries, name) == -1 ==> forall|i: int|
            0 <= i < entries.len() ==> (#[trigger] entries[i]).0@ != name,
        stats_index_of(entries, name) != -1 ==> {
            let ix = stats_index_of(entries, name);
            &&& 0 <= ix < entries.len()
            &&& entries[ix].0@ == name
            &&& forall|i: int| 0 <= i < ix ==> (#[trigger] entries[i]).0@ != name
        },
    decreases entries.len(),
{
    if entries.len() > 0 {
        lemma_stats_index_of(entries.drop_first(), name);
        assert forall|i: int| 1 <= i < entries.len() implies entries[i]
            == entries.drop_first()[i - 1] by {}
    }
}

impl BackendStats {
    pub fn new() -> (r: BackendStats)
        ensures
            r.task_stats@.len() == 0,
    {
        BackendStats { task_stats: Vec::new() }
    }

    /// Fold one finished completion into the task's record, creating the
    /// record on the task's first completion.
    pub fn add(&mut self, task_name: &str, stats: &InferenceStats, n_threads: usize)
        requires
            n_threads <= u64::MAX,
        ensures
            ({
                let ix = stats_index_of(old(self).task_stats@, task_name@);
                if ix == -1 {
                    &&& final(self).task_stats@.len() == old(self).task_stats@.len() + 1
                    &&& forall|i: int|
                        0 <= i < old(self).task_stats@.len() ==> final(self).task_stats@[i] == old(
                            self,
                        ).task_stats@[i]
                    &&& final(self).task_stats@.last().0@ == task_name@
                    &&& final(self).task_stats@.last().1 == stats_after_cycle(
                        TaskStats {
                            cycles: 0,
                            predict_duration_us: 0,
                            predict_duration_threads_us: 0,
                            predict_tokens: 0,
                            prompt_duration_us: 0,
                            prompt_duration_threads_us: 0,
                            prompt_tokens: 0,
                        },
                        *stats,
                        n_threads as int,
                    )
                } else {
                    &&& final(self).task_stats@.len() == old(self).task_stats@.len()
                    &&& forall|i: int|
                        0 <= i < old(self).task_stats@.len() && i != ix ==> final(self).task_stats@[i]
                            == old(self).task_stats@[i]
                    &&& final(self).task_stats@[ix].0@ == task_name@
                    &&& final(self).task_stats@[ix].1 == stats_after_cycle(
                        old(self).task_stats@[ix].1,
                        *stats,
                        n_threads as int,
                    )
                }
            }),
    {
        proof {
            lemma_stats_index_of(self.task_stats@, task_name@);
        }
        let n = self.task_stats.len();
        let mut i: usize = 0;
        while i < n
            invariant
                i <= n,
                n == self.task_stats@.len(),
                *self == *old(self),
                forall|j: int| 0 <= j < i ==> (#[trigger] self.task_stats@[j]).0@ != task_name@,
            decreases n - i,
        {
            if str_eq(self.task_stats[i].0.as_str(), task_name) {
                proof {
                    assert(stats_index_of(self.task_stats@, task_name@) == i as int) by {
                        lemma_stats_index_of(self.task_stats@, task_name@);
                        if stats_index_of(self.task_stats@, task_name@) == -1 {
                            assert(self.task_stats@[i as int].0@ != task_name@);
                        }
                    }
                }
                let entry = &mut self.task_stats[i];
                entry.1.add_cycle(stats, n_threads);
                return ;
            }
            i = i + 1;
        }
        proof {
            assert(stats_index_of(self.task_stats@, task_name@) == -1) by {
                lemma_stats_index_of(self.task_stats@, task_name@);
                if stats_index_of(self.task_stats@, task_name@) != -1 {
                    let ix = stats_index_of(self.task_stats@, task_name@);
                    assert(self.task_stats@[ix].0@ == task_name@);
                }
            }
        }
        let mut fresh = TaskStats::default();
        fresh.add_cycle(stats, n_threads);
        self.task_stats.push((task_name.to_owned(), fresh));
    }
}

} // verus!

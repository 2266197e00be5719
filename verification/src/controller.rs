//! A coarse progress tracker for long generation runs: named event counters,
//! a wall-clock cutoff, and the filled-cell counts seen along the way.

use vstd::prelude::*;

verus! {

/// The total count recorded under one label, summed over every entry that
/// carries it.
pub open spec fn label_total(s: Seq<(String, u32)>, l: Seq<char>) -> int
    decreases s.len(),
{
    if s.len() == 0 {
        0
    } else {
        label_total(s.drop_last(), l) + if (s.last().0)@ == l {
            s.last().1 as int
        } else {
            0int
        }
    }
}

/// Tracks elapsed time against an optional budget, whether the run and the
/// current branch should go on, and how often each named event happened.
pub struct BuildController {
    pub time_start: std::time::Instant,
    pub time: Option<u64>,
    pub time_limit: Option<u64>,
    pub continue_build: bool,
    pub continue_branch: bool,
    pub event_counts: Vec<(String, u32)>,
    pub filled_cell_counts: Vec<u16>,
    pub max_tried_grid_count: Option<usize>,
}

impl BuildController {
    /// A fresh tracker with the given cache cap and budget in milliseconds.
    pub fn new(max_tried_grid_count: Option<usize>, duration_limit: Option<u64>) -> (c:
        BuildController)
        ensures
            c.time is None,
            c.time_limit == duration_limit,
            c.continue_build,
            c.continue_branch,
            c.event_counts@.len() == 0,
            c.filled_cell_counts@.len() == 0,
            c.max_tried_grid_count == max_tried_grid_count,
    {
        BuildController {
            time_start: std::time::Instant::now(),
            time: None,
            time_limit: duration_limit,
            continue_build: true,
            continue_branch: true,
            event_counts: Vec::new(),
            filled_cell_counts: Vec::new(),
            max_tried_grid_count,
        }
    }

    /// Counts one more occurrence of the named event, then consults the
    /// clock.
    #[verifier::loop_isolation(false)]
    pub fn log_event(&mut self, label: &str)
        ensures
            label_total(final(self).event_counts@, label@) == label_total(
                old(self).event_counts@,
                label@,
            ) + 1,
            forall|l: Seq<char>|
                l != label@ ==> label_total(final(self).event_counts@, l) == label_total(
                    old(self).event_counts@,
                    l,
                ),
            final(self).filled_cell_counts@ == old(self).filled_cell_counts@,
            final(self).time_limit == old(self).time_limit,
            final(self).time == old(self).time,
            final(self).max_tried_grid_count == old(self).max_tried_grid_count,
            final(self).continue_branch == old(self).continue_branch,
            final(self).continue_build ==> old(self).continue_build,
            old(self).time_limit is None ==> final(self).continue_build == old(
                self,
            ).continue_build,
    {
        let owned = label.to_owned();
        let ghost source = self.event_counts@;
        let mut updated: Vec<(String, u32)> = Vec::new();
        let mut found = false;
        let n = self.event_counts.len();
        let mut q: usize = 0;
        while q < n
            invariant
                q <= n,
                n == source.len(),
                self.event_counts@ == source,
                owned@ == label@,
                forall|l: Seq<char>|
                    label_total(updated@, l) == label_total(source.take(q as int), l) + if found
                        && l == label@ {
                        1int
                    } else {
                        0int
                    },
            decreases n - q,
        {
            let ghost pre = updated@;
            let key = crate::runner::clone_string(&self.event_counts[q].0);
            let count = self.event_counts[q].1;
            if !found && key == owned && count < u32::MAX {
                updated.push((key, count + 1));
                found = true;
            } else {
                updated.push((key, count));
            }
            proof {
                assert(updated@.drop_last() =~= pre);
                assert(source.take(q + 1).drop_last() =~= source.take(q as int));
                assert forall|l: Seq<char>|
                    label_total(updated@, l) == label_total(source.take(q + 1), l) + (if found && l
                        == label@ {
                        1int
                    } else {
                        0int
                    }) by {
                    assert(label_total(updated@, l) == label_total(pre, l) + if (updated@.last().0)@
                        == l {
                        updated@.last().1 as int
                    } else {
                        0int
                    });
                    assert(label_total(source.take(q + 1), l) == label_total(
                        source.take(q as int),
                        l,
                    ) + if (source[q as int].0)@ == l {
                        source[q as int].1 as int
                    } else {
                        0int
                    });
                }
            }
            q = q + 1;
        }
        proof {
            assert(source.take(n as int) =~= source);
            assert forall|l: Seq<char>|
                #[trigger] label_total(updated@, l) == label_total(source, l) + (if found && l
                    == label@ {
                    1int
                } else {
                    0int
                }) by {
                assert(label_total(updated@, l) == label_total(source.take(n as int), l) + (
                if found && l == label@ {
                    1int
                } else {
                    0int
                }));
                assert(label_total(source.take(n as int), l) == label_total(source, l));
            }
        }
        if !found {
            let ghost pre = updated@;
            updated.push((owned, 1));
            proof {
                assert(updated@.drop_last() =~= pre);
                assert forall|l: Seq<char>|
                    #[trigger] label_total(updated@, l) == label_total(source, l) + (if l == label@ {
                        1int
                    } else {
                        0int
                    }) by {
                    assert(label_total(pre, l) == label_total(source, l));
                    assert(label_total(updated@, l) == label_total(pre, l) + (
                    if (updated@.last().0)@ == l {
                        updated@.last().1 as int
                    } else {
                        0int
                    }));
                }
            }
        }
        proof {
            assert(label_total(updated@, label@) == label_total(source, label@) + 1);
            assert(forall|l: Seq<char>|
                l != label@ ==> #[trigger] label_total(updated@, l) == label_total(source, l));
        }
        self.event_counts = updated;
        self.check_time();
    }

    /// Records the total elapsed time of the run.
    pub fn log_done(&mut self)
        ensures
            final(self).time is Some,
            *final(self) == (BuildController { time: final(self).time, ..*old(self) }),
    {
        let elapsed = self.time_start.elapsed();
        let ms = elapsed.as_millis();
        self.time = Some(
            if ms > u64::MAX as u128 {
                u64::MAX
            } else {
                ms as u64
            },
        );
    }

    /// Remembers how many cells were filled when a branch ended.
    pub fn log_filled_cell_count(&mut self, filled_cell_count: u16)
        ensures
            final(self).filled_cell_counts@ == old(self).filled_cell_counts@.push(
                filled_cell_count,
            ),
            *final(self) == (BuildController {
                filled_cell_counts: final(self).filled_cell_counts,
                ..*old(self)
            }),
    {
        self.filled_cell_counts.push(filled_cell_count);
    }

    /// Consults the clock: past the budget, the run should stop.
    fn check_time(&mut self)
        ensures
            *final(self) == (BuildController {
                continue_build: final(self).continue_build,
                ..*old(self)
            }),
            old(self).time_limit is None ==> final(self).continue_build == old(
                self,
            ).continue_build,
            final(self).continue_build ==> old(self).continue_build,
    {
        match self.time_limit {
            Some(duration_limit) => {
                let elapsed = self.time_start.elapsed();
                let ms = elapsed.as_millis();
                if ms > duration_limit as u128 {
                    self.continue_build = false;
                }
            },
            None => {},
        }
    }
}

} // verus!

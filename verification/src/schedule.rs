//! The order of work inside one step.
//!
//! A step over `n` bodies is a fixed list of tasks: first one pull for every
//! ordered pair of distinct bodies, row by row, then one position update per
//! body, then the hand-off to the recorder. No position moves before the last
//! pull has been gathered.
use vstd::prelude::*;
use vstd::arithmetic::div_mod::lemma_fundamental_div_mod;
use vstd::arithmetic::div_mod::lemma_fundamental_div_mod_converse;
use vstd::arithmetic::div_mod::lemma_mod_pos_bound;
use vstd::arithmetic::div_mod::lemma_multiply_divide_lt;
use vstd::arithmetic::div_mod::lemma_div_pos_is_pos;

verus! {

/// One unit of work inside a step.
#[derive(Clone, Copy, Debug, PartialEq, Eq)]
pub enum Task {
    /// Add to `target`'s accumulator the pull that `source` exerts on it.
    Accumulate { target: usize, source: usize },
    /// Advance the position of `body` and clear its accumulator.
    Integrate { body: usize },
    /// Hand the positions and the time to the recorder.
    Record,
}

/// Number of ordered pairs of distinct bodies among `n`.
pub open spec fn pairs(n: nat) -> nat {
    if n == 0 {
        0
    } else {
        (n * (n - 1)) as nat
    }
}

/// Number of tasks in one step over `n` bodies.
pub open spec fn step_len(n: nat) -> nat {
    pairs(n) + n + 1
}

/// The task at place `r` of a step over `n` bodies, for `r < step_len(n)`.
///
/// Places below `pairs(n)` hold the pulls: place `i * (n - 1) + k` is the pull
/// on body `i` from the `k`-th body other than `i`. The next `n` places hold
/// the position updates in body order, and the last one the recording.
pub open spec fn task_at(n: nat, r: nat) -> Task {
    if r < pairs(n) {
        let target = r / ((n - 1) as nat);
        let k = r % ((n - 1) as nat);
        Task::Accumulate {
            target: target as usize,
            source: (if k < target {
                k
            } else {
                k + 1
            }) as usize,
        }
    } else if r < pairs(n) + n {
        Task::Integrate { body: (r - pairs(n)) as usize }
    } else {
        Task::Record
    }
}

impl Task {
    /// The task names bodies among `n`, and a pull has two distinct ends.
    pub open spec fn fits(self, n: nat) -> bool {
        match self {
            Task::Accumulate { target, source } => target < n && source < n && target != source,
            Task::Integrate { body } => body < n,
            Task::Record => true,
        }
    }

    /// The place of the task in a step over `n` bodies.
    pub open spec fn cursor(self, n: nat) -> nat {
        match self {
            Task::Accumulate { target, source } => (target * (n - 1) + (if source < target {
                source as int
            } else {
                source - 1
            })) as nat,
            Task::Integrate { body } => (pairs(n) + body) as nat,
            Task::Record => pairs(n) + n,
        }
    }

    /// The task at which the accumulator of `body` is written for the first
    /// time in a step: no pull has reached that body yet.
    pub open spec fn opens(self, body: nat) -> bool {
        match self {
            Task::Accumulate { target, source } => target == body && (source == 0 || (target == 0
                && source == 1)),
            _ => false,
        }
    }

    /// The first task of a step over `n` bodies.
    pub fn first(n: usize) -> (t: Task)
        ensures
            t == task_at(n as nat, 0),
            t.fits(n as nat),
    {
        if n >= 2 {
            proof {
                lemma_place_of_pair(n as nat, 0, 0);
            }
            Task::Accumulate { target: 0, source: 1 }
        } else if n == 1 {
            Task::Integrate { body: 0 }
        } else {
            Task::Record
        }
    }

    /// The task that follows this one in a step over `n` bodies. After the
    /// last source of a target comes the next target, after the last pull the
    /// first position update, after the last update the recording, which ends
    /// the step and is its own successor here.
    pub open spec fn successor(self, n: nat) -> Task {
        match self {
            Task::Accumulate { target, source } => {
                let follower = if source + 1 == target {
                    source + 2
                } else {
                    source + 1
                };
                if follower < n {
                    Task::Accumulate { target, source: follower as usize }
                } else if target + 1 < n {
                    Task::Accumulate { target: (target + 1) as usize, source: 0 }
                } else {
                    Task::Integrate { body: 0 }
                }
            },
            Task::Integrate { body } => if body + 1 < n {
                Task::Integrate { body: (body + 1) as usize }
            } else {
                Task::Record
            },
            Task::Record => Task::Record,
        }
    }

    /// The task that follows this one in a step over `n` bodies; `None` after
    /// the recording.
    pub fn next(self, n: usize) -> (t: Option<Task>)
        requires
            self.fits(n as nat),
        ensures
            t == (if self is Record {
                None
            } else {
                Some(self.successor(n as nat))
            }),
    {
        match self {
            Task::Accumulate { target, source } => {
                let mut follower: usize = source + 1;
                if follower == target {
                    follower = follower + 1;
                }
                if follower < n {
                    Some(Task::Accumulate { target, source: follower })
                } else if target + 1 < n {
                    Some(Task::Accumulate { target: target + 1, source: 0 })
                } else {
                    Some(Task::Integrate { body: 0 })
                }
            },
            Task::Integrate { body } => {
                if body + 1 < n {
                    Some(Task::Integrate { body: body + 1 })
                } else {
                    Some(Task::Record)
                }
            },
            Task::Record => None,
        }
    }
}

/// Place `i * (n - 1) + k` lies among the pulls and holds the pull on body `i`
/// from the `k`-th body other than `i`.
pub proof fn lemma_place_of_pair(n: nat, i: nat, k: nat)
    requires
        i < n,
        k + 1 < n,
    ensures
        i * (n - 1) + k < pairs(n),
        (i * (n - 1) + k) / (n - 1) == i,
        (i * (n - 1) + k) % (n - 1) == k,
{
    let d = (n - 1) as int;
    assert(i * d + k < n * d) by (nonlinear_arith)
        requires
            i < n,
            k < d,
            d == n - 1,
    ;
    lemma_fundamental_div_mod_converse(i * d + k, d, i as int, k as int);
}

/// Every task that fits has a place in the step, and that place holds it.
pub proof fn lemma_task_at_cursor(n: nat, t: Task)
    requires
        t.fits(n),
    ensures
        t.cursor(n) < step_len(n),
        task_at(n, t.cursor(n)) == t,
{
    match t {
        Task::Accumulate { target, source } => {
            let k: nat = if source < target {
                source as nat
            } else {
                (source - 1) as nat
            };
            lemma_place_of_pair(n, target as nat, k);
        },
        Task::Integrate { body } => {},
        Task::Record => {},
    }
}

/// Every place of the step holds a task that fits, and no other place holds
/// the same task.
pub proof fn lemma_cursor_task_at(n: nat, r: nat)
    requires
        n <= usize::MAX,
        r < step_len(n),
    ensures
        task_at(n, r).fits(n),
        task_at(n, r).cursor(n) == r,
{
    if r < pairs(n) {
        let d = (n - 1) as int;
        let i = r as int / d;
        let k = r as int % d;
        assert(d > 0);
        lemma_fundamental_div_mod(r as int, d);
        lemma_mod_pos_bound(r as int, d);
        lemma_div_pos_is_pos(r as int, d);
        lemma_multiply_divide_lt(r as int, d, n as int);
        assert(d * i == i * d) by (nonlinear_arith);
    }
}

/// The successor of a task is the task one place further on, and it fits.
pub proof fn lemma_successor(n: nat, t: Task)
    requires
        n <= usize::MAX,
        t.fits(n),
        !(t is Record),
    ensures
        t.successor(n) == task_at(n, t.cursor(n) + 1),
        t.successor(n).fits(n),
        t.successor(n).cursor(n) == t.cursor(n) + 1,
{
    match t {
        Task::Accumulate { target, source } => {
            let k: nat = if source < target {
                source as nat
            } else {
                (source - 1) as nat
            };
            lemma_place_of_pair(n, target as nat, k);
            if k + 2 < n {
                lemma_place_of_pair(n, target as nat, k + 1);
            } else if target + 1 < n {
                lemma_place_of_pair(n, (target + 1) as nat, 0);
                assert((target + 1) * (n - 1) == target * (n - 1) + (n - 1)) by (nonlinear_arith);
            } else {
                assert(target * (n - 1) + (n - 1) == n * (n - 1)) by (nonlinear_arith)
                    requires
                        target + 1 == n,
                ;
            }
        },
        Task::Integrate { body } => {},
        Task::Record => {},
    }
    lemma_task_at_cursor(n, t);
    lemma_cursor_task_at(n, t.cursor(n) + 1);
}

} // verus!

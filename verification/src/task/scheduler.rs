//! Round-robin choice of the next task, stated over the statuses of the
//! tasks alone.

use vstd::prelude::*;
use vstd::arithmetic::div_mod::{
    lemma_add_mod_noop, lemma_mod_sub_multiples_vanish, lemma_small_mod,
};
use crate::task::task::TaskStatus;

verus! {

/// What the scheduler sees of the task table: the status of each task,
/// the number of tasks that take part and the task that has the
/// processor.
pub struct SchedState {
    pub statuses: Seq<TaskStatus>,
    pub task_num: int,
    pub current: int,
}

/// The first runnable task at `d` or more places after `current`, going
/// round the first `n` tasks and ending with `current` itself.
pub open spec fn next_runnable(statuses: Seq<TaskStatus>, current: int, n: int, d: int) -> Option<
    int,
>
    decreases n - d + 1,
{
    if n <= 0 || d > n {
        None
    } else if statuses[(current + d) % n] == TaskStatus::Runable {
        Some((current + d) % n)
    } else {
        next_runnable(statuses, current, n, d + 1)
    }
}

/// How many places after `current` task `i` comes in the round, from 1
/// for the next task to `n` for `current` itself.
pub open spec fn distance(current: int, i: int, n: int) -> int {
    if i > current {
        i - current
    } else {
        i - current + n
    }
}

/// Going round `n` tasks: a place below `n` is itself, and one from `n`
/// up to twice `n` is `n` places back.
pub proof fn lemma_wrap(x: int, n: int)
    requires
        0 < n,
        0 <= x < 2 * n,
    ensures
        x % n == if x < n {
            x
        } else {
            x - n
        },
{
    if x < n {
        lemma_small_mod(x as nat, n as nat);
    } else {
        lemma_mod_sub_multiples_vanish(x, n);
        lemma_small_mod((x - n) as nat, n as nat);
    }
}

impl SchedState {
    pub open spec fn wf(self) -> bool {
        &&& 0 < self.task_num <= self.statuses.len()
        &&& 0 <= self.current < self.task_num
    }

    /// The task that runs next when the current task gives up the
    /// processor but stays runnable.
    pub open spec fn next_after_suspend(self) -> Option<int> {
        next_runnable(
            self.statuses.update(self.current, TaskStatus::Runable),
            self.current,
            self.task_num,
            1,
        )
    }

    /// The state after the current task gave up the processor and the
    /// next runnable task took it.
    pub open spec fn suspend(self) -> SchedState {
        let marked = self.statuses.update(self.current, TaskStatus::Runable);
        match next_runnable(marked, self.current, self.task_num, 1) {
            Some(next) => SchedState {
                statuses: marked.update(next, TaskStatus::Running),
                current: next,
                ..self
            },
            None => SchedState { statuses: marked, ..self },
        }
    }

    /// The state after `k` suspensions in a row.
    pub open spec fn suspends(self, k: nat) -> SchedState
        decreases k,
    {
        if k == 0 {
            self
        } else {
            self.suspend().suspends((k - 1) as nat)
        }
    }
}

/// The search finds the first runnable task from `d` places on: the
/// task found is runnable, lies `e` places after `current` for some `e`
/// from `d` on, and no task between is runnable; and nothing is found
/// only if no task from `d` places on is runnable.
pub proof fn lemma_next_runnable(statuses: Seq<TaskStatus>, current: int, n: int, d: int)
    requires
        0 < n <= statuses.len(),
        0 <= current,
        1 <= d,
    ensures
        match next_runnable(statuses, current, n, d) {
            Some(id) => exists|e: int|
                {
                    &&& d <= e <= n
                    &&& id == (current + e) % n
                    &&& #[trigger] statuses[(current + e) % n] == TaskStatus::Runable
                    &&& forall|f: int|
                        d <= f < e ==> #[trigger] statuses[(current + f) % n]
                            != TaskStatus::Runable
                },
            None => forall|f: int|
                d <= f <= n ==> #[trigger] statuses[(current + f) % n] != TaskStatus::Runable,
        },
    decreases n - d + 1,
{
    if d <= n {
        if statuses[(current + d) % n] == TaskStatus::Runable {
            assert(statuses[(current + d) % n] == TaskStatus::Runable);
        } else {
            lemma_next_runnable(statuses, current, n, d + 1);
            match next_runnable(statuses, current, n, d + 1) {
                Some(id) => {
                    let e = choose|e: int|
                        {
                            &&& d + 1 <= e <= n
                            &&& id == (current + e) % n
                            &&& #[trigger] statuses[(current + e) % n] == TaskStatus::Runable
                            &&& forall|f: int|
                                d + 1 <= f < e ==> #[trigger] statuses[(current + f) % n]
                                    != TaskStatus::Runable
                        };
                    assert(statuses[(current + e) % n] == TaskStatus::Runable);
                },
                None => {},
            }
        }
    }
}

/// Where the task next to the current one is runnable, it is the one
/// that runs next.
pub proof fn lemma_next_is_neighbour(statuses: Seq<TaskStatus>, current: int, n: int)
    requires
        0 < n,
        statuses[(current + 1) % n] == TaskStatus::Runable,
    ensures
        next_runnable(statuses, current, n, 1) == Some((current + 1) % n),
{
}

impl SchedState {
    /// After a suspension the processor is with task `i`, or task `i`
    /// is still runnable and has come closer in the round.
    pub proof fn lemma_suspend_progress(self, i: int)
        requires
            self.wf(),
            0 <= i < self.task_num,
            self.statuses[i] == TaskStatus::Runable || i == self.current,
        ensures
            self.suspend().wf(),
            self.suspend().task_num == self.task_num,
            self.suspend().current == i || (self.suspend().statuses[i] == TaskStatus::Runable
                && distance(self.suspend().current, i, self.task_num) < distance(
                self.current,
                i,
                self.task_num,
            )),
            1 <= distance(self.current, i, self.task_num) <= self.task_num,
    {
        let n = self.task_num;
        let c = self.current;
        let marked = self.statuses.update(c, TaskStatus::Runable);
        let di = distance(c, i, n);
        lemma_next_runnable(marked, c, n, 1);
        lemma_wrap(c + di, n);
        lemma_wrap(c + n, n);
        assert(marked[(c + n) % n] == TaskStatus::Runable);
        assert(marked[(c + di) % n] == TaskStatus::Runable);
        let id = next_runnable(marked, c, n, 1).unwrap();
        let e = choose|e: int|
            {
                &&& 1 <= e <= n
                &&& id == (c + e) % n
                &&& #[trigger] marked[(c + e) % n] == TaskStatus::Runable
                &&& forall|f: int|
                    1 <= f < e ==> #[trigger] marked[(c + f) % n] != TaskStatus::Runable
            };
        lemma_wrap(c + e, n);
        if di < e {
            assert(marked[(c + di) % n] != TaskStatus::Runable);
        }
    }

    /// Round-robin scheduling is fair: while no task exits, a runnable
    /// task has the processor after at most as many suspensions as it
    /// lies places after the current task in the round, so after at most
    /// as many as there are tasks.
    pub proof fn lemma_fair(self, i: int)
        requires
            self.wf(),
            0 <= i < self.task_num,
            self.statuses[i] == TaskStatus::Runable || i == self.current,
        ensures
            exists|k: nat|
                1 <= k <= distance(self.current, i, self.task_num) && k <= self.task_num
                    && #[trigger] self.suspends(k).current == i,
        decreases distance(self.current, i, self.task_num),
    {
        self.lemma_suspend_progress(i);
        let next = self.suspend();
        reveal_with_fuel(SchedState::suspends, 2);
        if next.current == i {
            assert(self.suspends(1).current == i);
        } else {
            next.lemma_fair(i);
            let k = choose|k: nat|
                1 <= k <= distance(next.current, i, next.task_num) && k <= next.task_num
                    && #[trigger] next.suspends(k).current == i;
            assert(self.suspends(k + 1) == next.suspends(k));
            assert(self.suspends(k + 1).current == i);
        }
    }
}

impl SchedState {
    /// Whether task `j` takes part in the round: it is runnable, or it
    /// is the current task.
    pub open spec fn in_round(self, j: int) -> bool {
        self.statuses[j] == TaskStatus::Runable || j == self.current
    }

    /// The number of tasks in the round among those that come 1 to `d`
    /// places after the current task.
    pub open spec fn turns_until(self, d: int) -> int
        decreases d,
    {
        if d <= 0 {
            0
        } else {
            self.turns_until(d - 1) + if self.in_round((self.current + d) % self.task_num) {
                1int
            } else {
                0int
            }
        }
    }

    /// The number of tasks in the round.
    pub open spec fn round_size(self) -> int {
        self.turns_until(self.task_num)
    }

    /// The count of turns grows with the distance and by at most one a
    /// place.
    pub proof fn lemma_turns_grow(self, a: int, b: int)
        requires
            0 <= a <= b,
        ensures
            0 <= self.turns_until(a) <= self.turns_until(b),
            self.turns_until(b) <= self.turns_until(a) + (b - a),
        decreases b,
    {
        if a < b {
            self.lemma_turns_grow(a, b - 1);
        } else if a > 0 {
            self.lemma_turns_grow(a - 1, a - 1);
        }
    }

    /// Up to the first task of the round there is one turn.
    proof fn lemma_first_turn(self, e: int, d: int)
        requires
            self.wf(),
            1 <= e <= self.task_num,
            0 <= d <= e,
            self.in_round((self.current + e) % self.task_num),
            forall|f: int|
                1 <= f < e ==> !self.in_round(#[trigger] ((self.current + f) % self.task_num)),
        ensures
            self.turns_until(d) == if d == e {
                1int
            } else {
                0int
            },
        decreases d,
    {
        if d > 0 {
            self.lemma_first_turn(e, d - 1);
            if d < e {
                assert(!self.in_round((self.current + d) % self.task_num));
            }
        }
    }

    /// A suspension keeps the round: the same tasks take part, and the
    /// task that gets the processor is one of them.
    pub proof fn lemma_round_kept(self)
        requires
            self.wf(),
        ensures
            self.suspend().wf(),
            self.suspend().task_num == self.task_num,
            self.suspend().statuses.len() == self.statuses.len(),
            self.in_round(self.suspend().current),
            forall|j: int|
                0 <= j < self.task_num ==> self.suspend().in_round(j) == self.in_round(j),
    {
        self.lemma_suspend_progress(self.current);
        let n = self.task_num;
        let c = self.current;
        let marked = self.statuses.update(c, TaskStatus::Runable);
        lemma_next_runnable(marked, c, n, 1);
        lemma_wrap(c + n, n);
        assert(marked[(c + n) % n] == TaskStatus::Runable);
        let id = next_runnable(marked, c, n, 1).unwrap();
        let e = choose|e: int|
            {
                &&& 1 <= e <= n
                &&& id == (c + e) % n
                &&& #[trigger] marked[(c + e) % n] == TaskStatus::Runable
                &&& forall|f: int|
                    1 <= f < e ==> #[trigger] marked[(c + f) % n] != TaskStatus::Runable
            };
        lemma_wrap(c + e, n);
    }

    /// Round-robin scheduling gives every task of the round its turn in
    /// order: while no task exits, a task of the round has the processor
    /// after exactly as many suspensions as tasks of the round come
    /// after the current task up to it, which is at least one and at
    /// most the number of tasks in the round.
    pub proof fn lemma_turn(self, i: int)
        requires
            self.wf(),
            0 <= i < self.task_num,
            self.in_round(i),
        ensures
            1 <= self.turns_until(distance(self.current, i, self.task_num)) <= self.round_size(),
            self.suspends(
                self.turns_until(distance(self.current, i, self.task_num)) as nat,
            ).current == i,
        decreases distance(self.current, i, self.task_num),
    {
        let n = self.task_num;
        let c = self.current;
        let d = distance(c, i, n);
        let marked = self.statuses.update(c, TaskStatus::Runable);
        self.lemma_round_kept();
        self.lemma_suspend_progress(i);
        lemma_next_runnable(marked, c, n, 1);
        lemma_wrap(c + n, n);
        lemma_wrap(c + d, n);
        assert(marked[(c + n) % n] == TaskStatus::Runable);
        let id = next_runnable(marked, c, n, 1).unwrap();
        let e = choose|e: int|
            {
                &&& 1 <= e <= n
                &&& id == (c + e) % n
                &&& #[trigger] marked[(c + e) % n] == TaskStatus::Runable
                &&& forall|f: int|
                    1 <= f < e ==> #[trigger] marked[(c + f) % n] != TaskStatus::Runable
            };
        lemma_wrap(c + e, n);
        let next = self.suspend();
        assert(next.current == id);
        assert forall|f: int| 1 <= f < e implies !self.in_round(#[trigger] ((c + f) % n)) by {
            lemma_wrap(c + f, n);
            assert(marked[(c + f) % n] != TaskStatus::Runable);
        }
        assert(self.in_round((c + e) % n));
        if d < e {
            assert(marked[(c + d) % n] != TaskStatus::Runable);
        }
        self.lemma_turns_grow(d, n);
        reveal_with_fuel(SchedState::suspends, 2);
        if d == e {
            self.lemma_first_turn(e, e);
            assert(self.suspends(1).current == i);
        } else {
            self.lemma_first_turn(e, e);
            assert(distance(id, i, n) == d - e);
            next.lemma_turn(i);
            self.lemma_shift(e, d - e);
            self.lemma_shift(e, n - e);
            next.lemma_turns_grow(n - e, n);
            let k = next.turns_until(d - e);
            assert(self.turns_until(d) == 1 + k);
            assert(self.suspends((k + 1) as nat) == next.suspends(k as nat));
        }
    }

    /// Past the first task of the round, the turns count on as from
    /// that task in the state after a suspension.
    proof fn lemma_shift(self, e: int, f: int)
        requires
            self.wf(),
            1 <= e <= self.task_num,
            0 <= f <= self.task_num - e,
            self.suspend().current == (self.current + e) % self.task_num,
            self.turns_until(e) == 1,
        ensures
            self.turns_until(e + f) == 1 + self.suspend().turns_until(f),
        decreases f,
    {
        if f > 0 {
            self.lemma_shift(e, f - 1);
            self.lemma_round_kept();
            let n = self.task_num;
            let next = self.suspend();
            lemma_add_mod_noop(self.current + e, f, n);
            lemma_small_mod(f as nat, n as nat);
            lemma_wrap(self.current + e, n);
            let j = (self.current + e + f) % n;
            assert((next.current + f) % n == j);
            assert(0 <= j < n) by {
                if self.current + e + f < n {
                    lemma_small_mod((self.current + e + f) as nat, n as nat);
                } else if self.current + e + f < 2 * n {
                    lemma_wrap(self.current + e + f, n);
                } else {
                    lemma_mod_sub_multiples_vanish(self.current + e + f, n);
                    lemma_wrap(self.current + e + f - n, n);
                }
            }
            assert(next.in_round(j) == self.in_round(j));
        }
    }

    /// A suspension keeps the number of tasks in the round.
    pub proof fn lemma_round_size_kept(self)
        requires
            self.wf(),
        ensures
            self.suspend().round_size() == self.round_size(),
    {
        let n = self.task_num;
        let c = self.current;
        let marked = self.statuses.update(c, TaskStatus::Runable);
        self.lemma_round_kept();
        lemma_next_runnable(marked, c, n, 1);
        lemma_wrap(c + n, n);
        assert(marked[(c + n) % n] == TaskStatus::Runable);
        let id = next_runnable(marked, c, n, 1).unwrap();
        let e = choose|e: int|
            {
                &&& 1 <= e <= n
                &&& id == (c + e) % n
                &&& #[trigger] marked[(c + e) % n] == TaskStatus::Runable
                &&& forall|f: int|
                    1 <= f < e ==> #[trigger] marked[(c + f) % n] != TaskStatus::Runable
            };
        lemma_wrap(c + e, n);
        let next = self.suspend();
        assert forall|f: int| 1 <= f < e implies !self.in_round(#[trigger] ((c + f) % n)) by {
            lemma_wrap(c + f, n);
            assert(marked[(c + f) % n] != TaskStatus::Runable);
        }
        self.lemma_first_turn(e, e);
        // From the next task on, the first `n - e` places are those after
        // place `e` here, and the last `e` places are the first `e` here.
        self.lemma_shift(e, n - e);
        next.lemma_wrapped_turns(self, e, e);
    }

    /// The last places of the round after a suspension are the first
    /// places of the round before it.
    proof fn lemma_wrapped_turns(self, before: SchedState, e: int, g: int)
        requires
            before.wf(),
            self == before.suspend(),
            1 <= e <= before.task_num,
            self.current == (before.current + e) % before.task_num,
            0 <= g <= e,
        ensures
            self.turns_until(before.task_num - e + g) == self.turns_until(before.task_num - e)
                + before.turns_until(g),
        decreases g,
    {
        if g > 0 {
            self.lemma_wrapped_turns(before, e, g - 1);
            before.lemma_round_kept();
            let n = before.task_num;
            let c = before.current;
            lemma_wrap(c + e, n);
            lemma_wrap(c + g, n);
            let x = self.current + (n - e + g);
            let j = (c + g) % n;
            assert(x % n == j) by {
                // x is c + g + n, or c + g with one more round taken off.
                if c + e < n {
                    assert(x == c + g + n);
                    lemma_mod_sub_multiples_vanish(x, n);
                    assert(-n + x == c + g);
                } else {
                    assert(x == c + g);
                }
            }
            assert(self.in_round(j) == before.in_round(j));
        }
    }
}

} // verus!

//! A single-level timing wheel: a ring of task queues and a cursor.
//!
//! Each call of `InnerWheel::execute` runs every task queued in the slot
//! under the cursor, in the order the tasks were inserted, empties that slot
//! and moves the cursor one slot on, wrapping after the last slot.

use crate::atomic_queue::Queue;
use vstd::prelude::*;

verus! {

/// The number of slots of an `InnerWheel`.
pub const WHEEL_SLOTS_NUMBER: usize = 256;

/// A task that a wheel can run.
pub trait Executor {
    /// Possible results of `execute`.
    spec fn yields(&self, r: usize) -> bool;

    /// Runs the task.
    fn execute(&self) -> (r: usize)
        ensures
            self.yields(r),
    ;
}

/// A task made of a closure that captures everything it needs.
pub struct WheelTask<T> where T: Fn() -> usize + 'static {
    callback: T,
    _dropped: bool,
}

impl<T> WheelTask<T> where T: Fn() -> usize + 'static {
    /// The closure can be called without arguments.
    #[verifier::type_invariant]
    closed spec fn wf(self) -> bool {
        call_requires(self.callback, ())
    }

    /// The closure the task runs.
    pub closed spec fn callback(self) -> T {
        self.callback
    }

    /// A dropped task runs nothing and returns 0.
    pub closed spec fn dropped(self) -> bool {
        self._dropped
    }

    /// A live task that runs `callback`.
    pub fn new(callback: T) -> (task: Self)
        requires
            call_requires(callback, ()),
        ensures
            task.callback() == callback,
            !task.dropped(),
            forall|r: usize| task.yields(r) <==> call_ensures(callback, (), r),
    {
        WheelTask { callback, _dropped: false }
    }

    /// A live task that runs `callback`, boxed so that it can be handed to a
    /// wheel as a `Box<dyn Executor>`.
    pub fn new_as_executor(callback: T) -> (task: Box<WheelTask<T>>)
        requires
            call_requires(callback, ()),
        ensures
            task.callback() == callback,
            !task.dropped(),
            forall|r: usize| task.yields(r) <==> call_ensures(callback, (), r),
    {
        Box::new(WheelTask { callback, _dropped: false })
    }
}

impl<T> Executor for WheelTask<T> where T: Fn() -> usize + 'static {
    closed spec fn yields(&self, r: usize) -> bool {
        if self._dropped {
            r == 0
        } else {
            call_ensures(self.callback, (), r)
        }
    }

    /// Calls the closure, unless the task was dropped.
    fn execute(&self) -> (r: usize) {
        proof {
            use_type_invariant(self);
        }
        if !self._dropped {
            (self.callback)()
        } else {
            0
        }
    }
}

/// The slot the cursor reaches from slot `c` after `k` calls of `execute`.
pub open spec fn cursor_after(c: nat, k: nat) -> nat
    decreases k,
{
    if k == 0 {
        c
    } else {
        ((cursor_after(c, (k - 1) as nat) + 1) % (WHEEL_SLOTS_NUMBER as nat)) as nat
    }
}

/// How many of `k` calls of `execute`, starting with the cursor at `c`,
/// report that the cursor wrapped around.
pub open spec fn wrap_count(c: nat, k: nat) -> nat
    decreases k,
{
    if k == 0 {
        0
    } else {
        wrap_count(c, (k - 1) as nat) + if cursor_after(c, (k - 1) as nat) + 1
            == WHEEL_SLOTS_NUMBER {
            1nat
        } else {
            0nat
        }
    }
}

/// A boxed task runs the task it holds.
impl Executor for Box<dyn Executor> {
    open spec fn yields(&self, r: usize) -> bool {
        (**self).yields(r)
    }

    fn execute(&self) -> (r: usize) {
        (**self).execute()
    }
}

/// A ring of `WHEEL_SLOTS_NUMBER` task queues with a cursor on one of them.
pub struct InnerWheel<E: Executor = Box<dyn Executor>> {
    slots: Vec<Queue<E>>,
    cursor: usize,
}

impl<E: Executor> InnerWheel<E> {
    /// There are `WHEEL_SLOTS_NUMBER` slots and the cursor is on one of them.
    #[verifier::type_invariant]
    closed spec fn wf(self) -> bool {
        self.slots.len() == WHEEL_SLOTS_NUMBER && self.cursor < WHEEL_SLOTS_NUMBER
    }

    /// The tasks queued in each slot, in insertion order.
    pub closed spec fn slots(self) -> Seq<Seq<E>> {
        Seq::new(self.slots.len() as nat, |i: int| self.slots@[i]@)
    }

    /// The slot that the next `execute` runs.
    pub closed spec fn cursor(self) -> nat {
        self.cursor as nat
    }

    /// A wheel with every slot empty and the cursor on slot 0.
    pub fn new() -> (wheel: Self)
        ensures
            wheel.slots().len() == WHEEL_SLOTS_NUMBER,
            forall|i: int|
                0 <= i < WHEEL_SLOTS_NUMBER ==> #[trigger] wheel.slots()[i] == Seq::<
                    E,
                >::empty(),
            wheel.cursor() == 0,
    {
        let mut slots: Vec<Queue<E>> = Vec::new();
        let mut i: usize = 0;
        while i < WHEEL_SLOTS_NUMBER
            invariant
                i <= WHEEL_SLOTS_NUMBER,
                slots.len() == i,
                forall|j: int| 0 <= j < i ==> (#[trigger] slots@[j])@ == Seq::<E>::empty(),
            decreases WHEEL_SLOTS_NUMBER - i,
        {
            slots.push(Queue::<E>::new());
            i = i + 1;
        }
        let wheel = InnerWheel { slots, cursor: 0 };
        wheel
    }

    /// Runs and removes every task of the slot under the cursor, in insertion
    /// order, then moves the cursor to the next slot. Returns whether the
    /// cursor wrapped around to slot 0.
    pub fn execute(&mut self) -> (wrapped: bool)
        ensures
            final(self).slots() == old(self).slots().update(
                old(self).cursor() as int,
                Seq::<E>::empty(),
            ),
            final(self).cursor() == (old(self).cursor() + 1) % (WHEEL_SLOTS_NUMBER as nat),
            wrapped <==> old(self).cursor() + 1 == WHEEL_SLOTS_NUMBER,
            old(self).slots().len() == WHEEL_SLOTS_NUMBER,
            final(self).slots().len() == WHEEL_SLOTS_NUMBER,
            old(self).cursor() < WHEEL_SLOTS_NUMBER,
            all_ran(old(self).slots()[old(self).cursor() as int]),
    {
        proof {
            use_type_invariant(&*self);
        }
        let c = self.cursor;
        let ghost tasks = self.slots@[c as int]@;
        let ghost mut n: int = 0;
        let ghost mut results: Seq<usize> = Seq::empty();
        loop
            invariant
                self.slots.len() == WHEEL_SLOTS_NUMBER,
                self.cursor == c,
                c < WHEEL_SLOTS_NUMBER,
                0 <= n <= tasks.len(),
                tasks == old(self).slots()[c as int],
                self.slots@[c as int]@ == tasks.subrange(n, tasks.len() as int),
                forall|j: int|
                    0 <= j < WHEEL_SLOTS_NUMBER && j != c ==> #[trigger] self.slots@[j]
                        == old(self).slots@[j],
                results.len() == n,
                forall|i: int| #![trigger results[i]] 0 <= i < n ==> tasks[i].yields(results[i]),
            ensures
                n == tasks.len(),
                self.slots@[c as int]@ == Seq::<E>::empty(),
                forall|j: int|
                    0 <= j < WHEEL_SLOTS_NUMBER && j != c ==> #[trigger] self.slots@[j]
                        == old(self).slots@[j],
                results.len() == tasks.len(),
                forall|i: int| #![trigger results[i]] 0 <= i < tasks.len() ==> tasks[i].yields(results[i]),
            decreases tasks.len() - n,
        {
            match self.slots[c].pop() {
                Some(task) => {
                    let r = task.execute();
                    proof {
                        assert(task == tasks[n]);
                        assert(tasks[n].yields(r));
                        results = results.push(r);
                        n = n + 1;
                    }
                },
                None => {
                    break ;
                },
            }
        }
        assert(self.slots() =~= old(self).slots().update(c as int, Seq::<E>::empty()));
        assert(tasks == old(self).slots()[old(self).cursor() as int]);
        assert(results.len() == tasks.len());
        let next = c + 1;
        if next == WHEEL_SLOTS_NUMBER {
            self.cursor = 0;
            true
        } else {
            self.cursor = next;
            false
        }
    }

    /// Queues `task` at the back of slot `index`. An `index` outside the
    /// wheel leaves the wheel unchanged.
    pub fn insert_task(&mut self, index: usize, task: E)
        ensures
            index >= WHEEL_SLOTS_NUMBER ==> final(self).slots() == old(self).slots(),
            index < WHEEL_SLOTS_NUMBER ==> final(self).slots() == old(self).slots().update(
                index as int,
                old(self).slots()[index as int].push(task),
            ),
            final(self).cursor() == old(self).cursor(),
            old(self).slots().len() == WHEEL_SLOTS_NUMBER,
            final(self).slots().len() == WHEEL_SLOTS_NUMBER,
            final(self).cursor() < WHEEL_SLOTS_NUMBER,
    {
        proof {
            use_type_invariant(&*self);
        }
        if index >= WHEEL_SLOTS_NUMBER {
            return ;
        }
        self.slots[index].emplace(task);
        assert(self.slots() =~= old(self).slots().update(
            index as int,
            old(self).slots()[index as int].push(task),
        ));
    }
}

/// A full turn of `WHEEL_SLOTS_NUMBER` calls of `execute` brings the cursor
/// back to where it started, and exactly one of those calls reports a wrap.
pub proof fn law_full_turn(c: nat)
    requires
        c < WHEEL_SLOTS_NUMBER,
    ensures
        cursor_after(c, WHEEL_SLOTS_NUMBER as nat) == c,
        wrap_count(c, WHEEL_SLOTS_NUMBER as nat) == 1,
{
    lemma_turn_closed_form(c, WHEEL_SLOTS_NUMBER as nat);
}

/// Within one turn, the cursor reaches slot `i` from slot `c` after exactly
/// `(i - c) mod 256` calls of `execute`, and after no other number: a task
/// inserted in slot `i` runs during call `(i - c) mod 256 + 1`, once.
pub proof fn law_slot_reached_once(c: nat, i: nat, k: nat)
    requires
        c < WHEEL_SLOTS_NUMBER,
        i < WHEEL_SLOTS_NUMBER,
        k < WHEEL_SLOTS_NUMBER,
    ensures
        cursor_after(c, k) == i <==> k == (i + 256 - c) % 256,
{
    lemma_turn_closed_form(c, k);
}

/// What one call of `InnerWheel::execute` does, as its contract states it:
/// every task of the cursor's slot has run, `b` is `a` with that slot
/// emptied and the cursor moved on, and `wrapped` tells whether the cursor
/// went round to slot 0.
pub open spec fn executed<E: Executor>(a: InnerWheel<E>, b: InnerWheel<E>, wrapped: bool) -> bool {
    &&& all_ran(a.slots()[a.cursor() as int])
    &&& a.slots().len() == WHEEL_SLOTS_NUMBER
    &&& a.cursor() < WHEEL_SLOTS_NUMBER
    &&& b.slots() == a.slots().update(a.cursor() as int, Seq::<E>::empty())
    &&& b.cursor() == (a.cursor() + 1) % (WHEEL_SLOTS_NUMBER as nat)
    &&& wrapped == (a.cursor() + 1 == WHEEL_SLOTS_NUMBER)
}

/// Every task of `tasks` has run: there is one result per task that its
/// `execute` gave.
pub open spec fn all_ran<E: Executor>(tasks: Seq<E>) -> bool {
    exists|results: Seq<usize>|
        #![trigger results.len()]
        results.len() == tasks.len() && forall|i: int|
            #![trigger results[i]]
            0 <= i < results.len() ==> tasks[i].yields(results[i])
}

/// What one call of `insert_task(index, task)` does, as its contract states
/// it: the cursor stays, and `task` joins the back of slot `index` when
/// `index` is a slot.
pub open spec fn inserted<E: Executor>(a: InnerWheel<E>, b: InnerWheel<E>, index: int, task: E) -> bool {
    &&& a.slots().len() == WHEEL_SLOTS_NUMBER
    &&& b.cursor() == a.cursor()
    &&& b.slots() == if 0 <= index < WHEEL_SLOTS_NUMBER {
        a.slots().update(index, a.slots()[index].push(task))
    } else {
        a.slots()
    }
}

/// `b` is `a` with tasks added: the same cursor, and each slot of `b` holds
/// the tasks of that slot of `a`, in order, at its front.
pub open spec fn grown<E: Executor>(a: InnerWheel<E>, b: InnerWheel<E>) -> bool {
    &&& b.cursor() == a.cursor()
    &&& b.slots().len() == a.slots().len()
    &&& forall|i: int|
        0 <= i < a.slots().len() ==> (#[trigger] b.slots()[i]).len() >= a.slots()[i].len()
            && b.slots()[i].take(a.slots()[i].len() as int) == a.slots()[i]
}

/// A call of `insert_task` only adds a task: the wheel after it has grown
/// from the wheel before it.
pub proof fn law_insert_grows<E: Executor>(a: InnerWheel<E>, b: InnerWheel<E>, index: int, task: E)
    requires
        inserted(a, b, index, task),
    ensures
        grown(a, b),
{
    assert forall|i: int| 0 <= i < a.slots().len() implies (#[trigger] b.slots()[i]).len()
        >= a.slots()[i].len() && b.slots()[i].take(a.slots()[i].len() as int) == a.slots()[i] by {
        assert(b.slots()[i].take(a.slots()[i].len() as int) =~= a.slots()[i]);
    }
}

/// Any number of calls of `insert_task`, none included, only add tasks:
/// `grown` holds of a wheel and itself, and of the ends of two steps that
/// each grow.
pub proof fn law_grown_chains<E: Executor>(a: InnerWheel<E>, b: InnerWheel<E>, c: InnerWheel<E>)
    ensures
        grown(a, a),
        grown(a, b) && grown(b, c) ==> grown(a, c),
{
    assert forall|i: int| 0 <= i < a.slots().len() implies (#[trigger] a.slots()[i]).len()
        >= a.slots()[i].len() && a.slots()[i].take(a.slots()[i].len() as int) == a.slots()[i] by {
        assert(a.slots()[i].take(a.slots()[i].len() as int) =~= a.slots()[i]);
    }
    if grown(a, b) && grown(b, c) {
        assert forall|i: int| 0 <= i < a.slots().len() implies (#[trigger] c.slots()[i]).len()
            >= a.slots()[i].len() && c.slots()[i].take(a.slots()[i].len() as int) == a.slots()[i] by {
            lemma_prefix_of_prefix(a.slots()[i], b.slots()[i], c.slots()[i]);
        }
    }
}

/// A prefix of a prefix is a prefix.
proof fn lemma_prefix_of_prefix<E>(x: Seq<E>, y: Seq<E>, z: Seq<E>)
    requires
        y.len() >= x.len(),
        y.take(x.len() as int) == x,
        z.len() >= y.len(),
        z.take(y.len() as int) == y,
    ensures
        z.len() >= x.len(),
        z.take(x.len() as int) == x,
{
    assert forall|k: int| 0 <= k < x.len() implies z.take(x.len() as int)[k] == x[k] by {
        assert(z.take(y.len() as int)[k] == z[k]);
        assert(y.take(x.len() as int)[k] == y[k]);
    }
    assert(z.take(x.len() as int) =~= x);
}

/// Successive calls of `execute`, with calls of `insert_task` between them:
/// `mids[j]` has grown from `ws[j]` by insertions, and `ws[j + 1]` and
/// `wrapped[j]` come from calling `execute` on `mids[j]`. With no insertion,
/// `mids[j]` is `ws[j]`.
pub open spec fn execute_run<E: Executor>(
    ws: Seq<InnerWheel<E>>,
    mids: Seq<InnerWheel<E>>,
    wrapped: Seq<bool>,
) -> bool {
    &&& ws.len() == wrapped.len() + 1
    &&& mids.len() == wrapped.len()
    &&& forall|j: int|
        0 <= j < wrapped.len() ==> run_step(ws[j], mids[j], ws[j + 1], #[trigger] wrapped[j])
}

/// Insertions lead from `a` to `m`, then a call of `execute` on `m` gives
/// `b` and `wrapped`.
pub open spec fn run_step<E: Executor>(
    a: InnerWheel<E>,
    m: InnerWheel<E>,
    b: InnerWheel<E>,
    wrapped: bool,
) -> bool {
    grown(a, m) && executed(m, b, wrapped)
}

/// After `j` calls of `execute` from cursor `c`, the cursor is at
/// `(c + j) % 256`.
proof fn lemma_run_cursor<E: Executor>(
    ws: Seq<InnerWheel<E>>,
    mids: Seq<InnerWheel<E>>,
    wrapped: Seq<bool>,
    j: int,
)
    requires
        execute_run(ws, mids, wrapped),
        ws[0].cursor() < WHEEL_SLOTS_NUMBER,
        0 <= j < ws.len(),
    ensures
        ws[j].cursor() == (ws[0].cursor() + j) % 256,
        j < wrapped.len() ==> mids[j].cursor() == ws[j].cursor(),
    decreases j,
{
    if j > 0 {
        lemma_run_cursor(ws, mids, wrapped, j - 1);
        assert(run_step(ws[j - 1], mids[j - 1], ws[j], wrapped[j - 1]));
    }
    if j < wrapped.len() {
        assert(run_step(ws[j], mids[j], ws[j + 1], wrapped[j]));
    }
}

/// On a new wheel, the `k`-th call of `execute` reports a wrap exactly when
/// `k` is a multiple of 256, whatever tasks are inserted between the calls.
pub proof fn law_kth_execute_wraps<E: Executor>(
    ws: Seq<InnerWheel<E>>,
    mids: Seq<InnerWheel<E>>,
    wrapped: Seq<bool>,
)
    requires
        execute_run(ws, mids, wrapped),
        ws[0].cursor() == 0,
    ensures
        forall|k: int| 1 <= k <= wrapped.len() ==> (#[trigger] wrapped[k - 1] <==> k % 256 == 0),
{
    assert forall|k: int| 1 <= k <= wrapped.len() implies (#[trigger] wrapped[k - 1] <==> k % 256
        == 0) by {
        lemma_run_cursor(ws, mids, wrapped, k - 1);
        assert(run_step(ws[k - 1], mids[k - 1], ws[k], wrapped[k - 1]));
    }
}

/// The tasks in slot `i` when the cursor is at `c` stay there, in order at
/// the slot's front whatever is inserted, until the cursor reaches slot `i`,
/// which happens on call `d + 1` with `d = (i - c) mod 256` and on no other
/// call of the turn; that call runs every task of the slot, those inserted
/// meanwhile too, and leaves it empty. So each such task runs during call
/// `d + 1`, and in no other call of the turn.
pub proof fn law_inserted_task_runs_at_its_turn<E: Executor>(
    ws: Seq<InnerWheel<E>>,
    mids: Seq<InnerWheel<E>>,
    wrapped: Seq<bool>,
    i: int,
)
    requires
        execute_run(ws, mids, wrapped),
        ws[0].cursor() < WHEEL_SLOTS_NUMBER,
        0 <= i < WHEEL_SLOTS_NUMBER,
    ensures
        forall|j: int|
            0 <= j < ws.len() && j < 256 ==> (#[trigger] ws[j].cursor() == i <==> j == (i + 256
                - ws[0].cursor()) % 256),
        forall|j: int|
            0 <= j < wrapped.len() && j < 256 ==> (#[trigger] mids[j].cursor() == i <==> j == (i
                + 256 - ws[0].cursor()) % 256),
        forall|j: int|
            0 <= j < ws.len() && j <= (i + 256 - ws[0].cursor()) % 256 ==> (#[trigger] ws[j].slots()[i]).len()
                >= ws[0].slots()[i].len() && ws[j].slots()[i].take(ws[0].slots()[i].len() as int)
                == ws[0].slots()[i],
        (i + 256 - ws[0].cursor()) % 256 < wrapped.len() ==> ws[(i + 256 - ws[0].cursor()) % 256
            + 1].slots()[i] == Seq::<E>::empty(),
        (i + 256 - ws[0].cursor()) % 256 < wrapped.len() ==> all_ran(
            mids[(i + 256 - ws[0].cursor()) % 256].slots()[i],
        ),
        (i + 256 - ws[0].cursor()) % 256 < wrapped.len() ==> all_ran(ws[0].slots()[i]),
{
    let c = ws[0].cursor();
    let d = (i + 256 - c) % 256;
    assert forall|j: int| 0 <= j < ws.len() && j < 256 implies (#[trigger] ws[j].cursor() == i
        <==> j == d) by {
        lemma_run_cursor(ws, mids, wrapped, j);
    }
    assert forall|j: int| 0 <= j < wrapped.len() && j < 256 implies (#[trigger] mids[j].cursor()
        == i <==> j == d) by {
        lemma_run_cursor(ws, mids, wrapped, j);
    }
    assert forall|j: int| 0 <= j < ws.len() && j <= d implies (#[trigger] ws[j].slots()[i]).len()
        >= ws[0].slots()[i].len() && ws[j].slots()[i].take(ws[0].slots()[i].len() as int)
        == ws[0].slots()[i] by {
        lemma_slot_kept(ws, mids, wrapped, i, j);
    }
    if d < wrapped.len() {
        lemma_run_cursor(ws, mids, wrapped, d);
        lemma_slot_kept(ws, mids, wrapped, i, d);
        assert(run_step(ws[d], mids[d], ws[d + 1], wrapped[d]));
        let s0 = ws[0].slots()[i];
        let sd = ws[d].slots()[i];
        let sm = mids[d].slots()[i];
        assert(sm.len() >= sd.len() && sm.take(sd.len() as int) == sd);
        lemma_prefix_of_prefix(s0, sd, sm);
        lemma_all_ran_prefix(sm, s0.len());
    }
}

/// The tasks at the front of a slot whose tasks all ran have run too.
proof fn lemma_all_ran_prefix<E: Executor>(s: Seq<E>, n: nat)
    requires
        all_ran(s),
        n <= s.len(),
    ensures
        all_ran(s.take(n as int)),
{
    let results = choose|results: Seq<usize>|
        #![trigger results.len()]
        results.len() == s.len() && forall|i: int|
            #![trigger results[i]]
            0 <= i < results.len() ==> s[i].yields(results[i]);
    let r = results.take(n as int);
    assert(r.len() == s.take(n as int).len());
    assert forall|i: int| #![trigger r[i]] 0 <= i < r.len() implies s.take(n as int)[i].yields(r[i]) by {
        assert(r[i] == results[i]);
    }
}

/// Before the cursor first reaches slot `i`, the slot keeps its tasks, in
/// order, at its front.
proof fn lemma_slot_kept<E: Executor>(
    ws: Seq<InnerWheel<E>>,
    mids: Seq<InnerWheel<E>>,
    wrapped: Seq<bool>,
    i: int,
    j: int,
)
    requires
        execute_run(ws, mids, wrapped),
        ws[0].cursor() < WHEEL_SLOTS_NUMBER,
        0 <= i < WHEEL_SLOTS_NUMBER,
        0 <= j < ws.len(),
        j <= (i + 256 - ws[0].cursor()) % 256,
    ensures
        ws[j].slots()[i].len() >= ws[0].slots()[i].len(),
        ws[j].slots()[i].take(ws[0].slots()[i].len() as int) == ws[0].slots()[i],
    decreases j,
{
    if j == 0 {
        assert(ws[0].slots()[i].take(ws[0].slots()[i].len() as int) =~= ws[0].slots()[i]);
    } else {
        lemma_slot_kept(ws, mids, wrapped, i, j - 1);
        lemma_run_cursor(ws, mids, wrapped, j - 1);
        assert(run_step(ws[j - 1], mids[j - 1], ws[j], wrapped[j - 1]));
        assert(ws[j].slots()[i] == mids[j - 1].slots()[i]);
        lemma_prefix_of_prefix(ws[0].slots()[i], ws[j - 1].slots()[i], mids[j - 1].slots()[i]);
    }
}

/// After `k` calls the cursor is at `(c + k) % 256`, and `(c + k) / 256` of
/// the calls reported a wrap.
proof fn lemma_turn_closed_form(c: nat, k: nat)
    requires
        c < WHEEL_SLOTS_NUMBER,
    ensures
        cursor_after(c, k) == (c + k) % 256,
        wrap_count(c, k) == (c + k) / 256,
    decreases k,
{
    if k > 0 {
        lemma_turn_closed_form(c, (k - 1) as nat);
    }
}

} // verus!

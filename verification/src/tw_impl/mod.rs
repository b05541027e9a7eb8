//! A controller that schedules tasks on a hierarchical timing wheel by delay.
//!
//! The controller counts ticks. A wheel of layer `n` covers `limit = 256^n`
//! ticks. A task appended with delay `g` at tick `t` goes to position
//! `(t + g) % limit`, and the wheel's cursor always stands at position
//! `t % limit`, so the task runs during the `g + 1`-th tick after it was
//! appended (for `g < limit`). Each `execute` is one tick of the wheel;
//! pacing the ticks (one per second) is the caller's work.

pub mod tw;

use tw::{
    addr_path, all_zero, fits, next_cursor, place, reported_id, tick_count, valid_path,
    ExecutableWheel, TimingWheel, Wheel, DEFAULT_TW_LAYER, ELEMENT_COUNT_FOR_EACH_WHEEL,
};
use vstd::prelude::*;

pub use tw::WheelValue;

verus! {

/// The position that a task with delay `gap` takes at tick `crt` on a wheel
/// with `limit` positions.
pub open spec fn schedule_pos(crt: u64, gap: usize, limit: u64) -> int {
    (crt + gap) % (limit as int)
}

/// A timing wheel together with a tick counter.
#[verifier::reject_recursive_types(T)]
pub struct TimingWheelController<T> where T: Fn() -> u32 + 'static {
    _tw: Box<Wheel<T>>,
    _stop: bool,
    _start_time: u64,
    _crt_time: u64,
    _limit_gap: u64,
}

impl<T> TimingWheelController<T> where T: Fn() -> u32 + 'static {
    /// The wheel is well formed, `limit_gap` is the number of ticks it
    /// covers (and every position below it is a `usize`), and its cursor
    /// stands at the current tick modulo `limit_gap`.
    pub closed spec fn wf(self) -> bool {
        &&& self._tw.wf()
        &&& self._tw.depth() >= 1
        &&& self._limit_gap == place(self._tw.depth())
        &&& self._limit_gap <= usize::MAX
        &&& valid_path(self._tw.depth(), self._tw.cursor())
        &&& tick_count(self._tw.cursor()) == self._crt_time % self._limit_gap
    }

    /// The wheel the controller drives.
    pub closed spec fn wheel(self) -> Wheel<T> {
        *self._tw
    }

    /// The number of ticks so far.
    pub closed spec fn crt_time(self) -> u64 {
        self._crt_time
    }

    /// The number of positions that delays wrap around.
    pub closed spec fn limit_gap(self) -> u64 {
        self._limit_gap
    }

    /// A controller on an empty wheel of layer `DEFAULT_TW_LAYER`, at tick 0.
    pub fn new() -> (c: Box<TimingWheelController<T>>)
        ensures
            c.wf(),
            c.wheel().wf(),
            c.wheel().depth() == DEFAULT_TW_LAYER,
            all_zero(c.wheel().cursor()),
            valid_path(c.wheel().depth(), c.wheel().cursor()),
            forall|path: Seq<int>| #[trigger] c.wheel().at(path) is None,
            c.crt_time() == 0,
            c.limit_gap() == place(DEFAULT_TW_LAYER as nat),
    {
        proof {
            assert(place(3) == 0x100_0000) by {
                assert(place(0) == 1);
                assert(place(1) == 0x100);
                assert(place(2) == 0x1_0000);
            }
        }
        TimingWheelController::new_with_layer(DEFAULT_TW_LAYER)
    }

    /// A controller on an empty wheel of layer `layer`, at tick 0.
    pub fn new_with_layer(layer: u32) -> (c: Box<TimingWheelController<T>>)
        requires
            1 <= layer <= 7,
            place(layer as nat) <= usize::MAX,
        ensures
            c.wf(),
            c.wheel().wf(),
            c.wheel().depth() == layer,
            all_zero(c.wheel().cursor()),
            valid_path(c.wheel().depth(), c.wheel().cursor()),
            forall|path: Seq<int>| #[trigger] c.wheel().at(path) is None,
            c.crt_time() == 0,
            c.limit_gap() == place(layer as nat),
    {
        let tw = TimingWheel::new_with_layer(layer);
        let mut limit: u64 = 1;
        let mut k: u32 = 0;
        while k < layer
            invariant
                0 <= k <= layer <= 7,
                limit == place(k as nat),
            decreases layer - k,
        {
            proof {
                tw::lemma_place_small((k + 1) as nat);
                assert(place((k + 1) as nat) == 256 * place(k as nat));
            }
            limit = limit * ELEMENT_COUNT_FOR_EACH_WHEEL;
            k = k + 1;
        }
        proof {
            assert(valid_path(tw.depth(), tw.cursor()));
            tw::lemma_tick_count_zero(tw.cursor());
            tw::lemma_place_positive(layer as nat);
            assert(0int % (limit as int) == 0);
        }
        let ret = Box::new(
            TimingWheelController {
                _tw: tw,
                _stop: true,
                _start_time: 0,
                _crt_time: 0,
                _limit_gap: limit,
            },
        );
        ret
    }

    /// Puts the task at the position its delay reaches from the current
    /// tick, and returns the identifier the wheel reports for it.
    pub fn append(&mut self, _task: WheelValue<T>) -> (id: u64)
        requires
            old(self).wf(),
            old(self).crt_time() + _task.__gap_time <= u64::MAX,
            call_requires(_task.__callback, ()),
        ensures
            final(self).wf(),
            final(self).wheel().wf(),
            final(self).wheel().depth() == old(self).wheel().depth(),
            final(self).wheel().cursor() == old(self).wheel().cursor(),
            valid_path(final(self).wheel().depth(), final(self).wheel().cursor()),
            tick_count(final(self).wheel().cursor())
                == final(self).crt_time() % final(self).limit_gap(),
            final(self).crt_time() == old(self).crt_time(),
            final(self).limit_gap() == old(self).limit_gap(),
            final(self).limit_gap() == place(final(self).wheel().depth()),
            fits(
                old(self).wheel().depth(),
                schedule_pos(old(self).crt_time(), _task.__gap_time, old(self).limit_gap()),
            ),
            addr_path(
                old(self).wheel().depth(),
                schedule_pos(old(self).crt_time(), _task.__gap_time, old(self).limit_gap()),
            ) == tw::cursor_after_ticks(old(self).wheel().cursor(), _task.__gap_time as nat),
            id == reported_id(
                addr_path(
                    old(self).wheel().depth(),
                    schedule_pos(old(self).crt_time(), _task.__gap_time, old(self).limit_gap()),
                ),
            ),
            forall|path: Seq<int>|
                #[trigger] final(self).wheel().at(path) == if path == addr_path(
                    old(self).wheel().depth(),
                    schedule_pos(old(self).crt_time(), _task.__gap_time, old(self).limit_gap()),
                ) {
                    Some(_task)
                } else {
                    old(self).wheel().at(path)
                },
    {
        proof {
            tw::lemma_place_positive(self._tw.depth());
            law_append_slot_is_due_after_its_delay(*self, _task.__gap_time);
        }
        let pos = (self._crt_time + _task.__gap_time as u64) % self._limit_gap;
        proof {
            tw::law_fits_below_capacity(self._tw.depth(), pos as int);
        }
        self._tw.append_task(pos as usize, _task)
    }

    /// One tick of the wheel: the task due at the current tick, if any, is
    /// run and removed; the tick counter goes up by one.
    pub fn execute(&mut self)
        requires
            old(self).wf(),
            old(self).crt_time() < u64::MAX,
        ensures
            final(self).wf(),
            final(self).wheel().wf(),
            final(self).wheel().depth() == old(self).wheel().depth(),
            final(self).wheel().cursor() == next_cursor(old(self).wheel().cursor()),
            valid_path(final(self).wheel().depth(), final(self).wheel().cursor()),
            tick_count(final(self).wheel().cursor())
                == final(self).crt_time() % final(self).limit_gap(),
            old(self).wheel().at(old(self).wheel().cursor()) is Some ==> exists|r: u32|
                call_ensures(old(self).wheel().at(old(self).wheel().cursor())->0.__callback, (), r),
            forall|path: Seq<int>|
                #[trigger] final(self).wheel().at(path) == if path == old(self).wheel().cursor() {
                    None
                } else {
                    old(self).wheel().at(path)
                },
            final(self).crt_time() == old(self).crt_time() + 1,
            final(self).limit_gap() == old(self).limit_gap(),
            final(self).limit_gap() == place(final(self).wheel().depth()),
    {
        proof {
            let c = self._tw.cursor();
            let p = self._limit_gap as int;
            tw::law_tick_counts_up(c);
            tw::lemma_place_positive(self._tw.depth());
            assert(p >= 256) by {
                tw::lemma_place_at_least(self._tw.depth());
            }
            vstd::arithmetic::div_mod::lemma_small_mod(1, p as nat);
            vstd::arithmetic::div_mod::lemma_add_mod_noop(self._crt_time as int, 1, p);
        }
        self._tw.execute();
        self._crt_time += 1;
    }
}

/// A task appended with delay `gap` goes to the slot that the wheel's
/// cursor stands on after `gap` more ticks: the slot of tick `crt + gap`.
pub proof fn law_append_slot_is_due_after_its_delay<T>(c: TimingWheelController<T>, gap: usize)
    where T: Fn() -> u32 + 'static
    requires
        c.wf(),
    ensures
        addr_path(c.wheel().depth(), schedule_pos(c.crt_time(), gap, c.limit_gap()))
            == tw::cursor_after_ticks(c.wheel().cursor(), gap as nat),
        tick_count(tw::cursor_after_ticks(c.wheel().cursor(), gap as nat)) == (c.crt_time() + gap)
            % (c.limit_gap() as int),
{
    let d = c.wheel().depth();
    let c0 = c.wheel().cursor();
    let p = c.limit_gap() as int;
    let t = c.crt_time() as int;
    tw::lemma_place_positive(d);
    tw::law_ticks_advance(c0, gap as nat);
    vstd::arithmetic::div_mod::lemma_add_mod_noop(t, gap as int, p);
    vstd::arithmetic::div_mod::lemma_add_mod_noop(t % p, gap as int, p);
    vstd::arithmetic::div_mod::lemma_mod_twice(t, p);
    let after = tw::cursor_after_ticks(c0, gap as nat);
    let pos = (t + gap) % p;
    tw::law_position_is_tick(d, pos);
    tw::law_tick_count_injective(addr_path(d, pos), after);
}

/// What one call of `TimingWheelController::execute` does, as its contract
/// states it: one tick of the wheel, and the tick counter goes up by one.
pub open spec fn controller_ticked<T>(a: TimingWheelController<T>, b: TimingWheelController<T>) -> bool
    where T: Fn() -> u32 + 'static
{
    &&& tw::ticked(a.wheel(), b.wheel())
    &&& b.crt_time() == a.crt_time() + 1
    &&& b.limit_gap() == a.limit_gap()
}

/// Successive calls of `execute` on a controller.
pub open spec fn controller_run<T>(cs: Seq<TimingWheelController<T>>) -> bool
    where T: Fn() -> u32 + 'static
{
    forall|j: int| 0 <= j < cs.len() - 1 ==> controller_ticked(#[trigger] cs[j], cs[j + 1])
}

/// A task appended with delay `g` (below the controller's limit) stays in
/// the wheel until the `g + 1`-th call of `execute` after the append, runs
/// during that call, is gone afterwards, and the cursor reaches its slot on
/// no other call of the turn; the tick counter counts the calls.
pub proof fn law_task_runs_after_its_delay<T>(cs: Seq<TimingWheelController<T>>, g: nat, t: WheelValue<T>)
    where T: Fn() -> u32 + 'static
    requires
        controller_run(cs),
        cs.len() >= 1,
        cs[0].wheel().wf(),
        valid_path(cs[0].wheel().depth(), cs[0].wheel().cursor()),
        tick_count(cs[0].wheel().cursor()) == cs[0].crt_time() % cs[0].limit_gap(),
        cs[0].limit_gap() == place(cs[0].wheel().depth()),
        g < cs[0].limit_gap(),
        cs[0].wheel().at(
            addr_path(cs[0].wheel().depth(), (cs[0].crt_time() + g) % (cs[0].limit_gap() as int)),
        ) == Some(t),
    ensures
        forall|j: int| 0 <= j < cs.len() ==> #[trigger] cs[j].crt_time() == cs[0].crt_time() + j,
        forall|j: int|
            0 <= j < cs.len() && j < cs[0].limit_gap() ==> (#[trigger] cs[j].wheel().cursor()
                == addr_path(
                cs[0].wheel().depth(),
                (cs[0].crt_time() + g) % (cs[0].limit_gap() as int),
            ) <==> j == g),
        forall|j: int|
            0 <= j < cs.len() && j <= g ==> #[trigger] cs[j].wheel().at(
                addr_path(cs[0].wheel().depth(), (cs[0].crt_time() + g) % (cs[0].limit_gap() as int)),
            ) == Some(t),
        forall|j: int|
            g < j < cs.len() ==> #[trigger] cs[j].wheel().at(
                addr_path(cs[0].wheel().depth(), (cs[0].crt_time() + g) % (cs[0].limit_gap() as int)),
            ) is None,
        g + 1 < cs.len() ==> exists|status: u32| call_ensures(t.__callback, (), status),
{
    let ws = cs.map_values(|c: TimingWheelController<T>| c.wheel());
    let d = cs[0].wheel().depth();
    let p = place(d);
    assert forall|j: int| 0 <= j < ws.len() - 1 implies tw::ticked(#[trigger] ws[j], ws[j + 1]) by {
        assert(controller_ticked(cs[j], cs[j + 1]));
    }
    tw::lemma_place_positive(d);
    vstd::arithmetic::div_mod::lemma_small_mod(g, p as nat);
    vstd::arithmetic::div_mod::lemma_add_mod_noop(cs[0].crt_time() as int, g as int, p);
    assert((tick_count(ws[0].cursor()) + g) % p == (cs[0].crt_time() + g) % p);
    tw::law_task_runs_at_its_tick(ws, g, t);
    assert forall|j: int| 0 <= j < cs.len() implies #[trigger] cs[j].crt_time() == cs[0].crt_time()
        + j by {
        lemma_run_ticks(cs, j);
    }
    assert forall|j: int|
        0 <= j < cs.len() && j < cs[0].limit_gap() implies (#[trigger] cs[j].wheel().cursor()
            == addr_path(d, (cs[0].crt_time() + g) % (cs[0].limit_gap() as int)) <==> j == g) by {
        assert(ws[j] == cs[j].wheel());
    }
    assert forall|j: int|
        0 <= j < cs.len() && j <= g implies #[trigger] cs[j].wheel().at(
            addr_path(d, (cs[0].crt_time() + g) % (cs[0].limit_gap() as int)),
        ) == Some(t) by {
        assert(ws[j] == cs[j].wheel());
    }
    assert forall|j: int| g < j < cs.len() implies #[trigger] cs[j].wheel().at(
        addr_path(d, (cs[0].crt_time() + g) % (cs[0].limit_gap() as int)),
    ) is None by {
        assert(ws[j] == cs[j].wheel());
    }
}

/// What calls of `append` (none or more) keep, as their contract states
/// it: the tick counter, the limit, and the wheel's layer and cursor.
pub open spec fn controller_appended<T>(a: TimingWheelController<T>, b: TimingWheelController<T>) -> bool
    where T: Fn() -> u32 + 'static
{
    &&& b.crt_time() == a.crt_time()
    &&& b.limit_gap() == a.limit_gap()
    &&& b.wheel().depth() == a.wheel().depth()
    &&& b.wheel().cursor() == a.wheel().cursor()
}

/// Calls of `append` lead from `a` to `m`, then a call of `execute` on `m`
/// gives `b`.
pub open spec fn controller_step<T>(
    a: TimingWheelController<T>,
    m: TimingWheelController<T>,
    b: TimingWheelController<T>,
) -> bool
    where T: Fn() -> u32 + 'static
{
    controller_appended(a, m) && controller_ticked(m, b)
}

/// Successive calls of `execute` on a controller, with calls of `append`
/// between them: `mids[j]` is the controller just before call `j + 1`.
pub open spec fn controller_session<T>(
    cs: Seq<TimingWheelController<T>>,
    mids: Seq<TimingWheelController<T>>,
) -> bool
    where T: Fn() -> u32 + 'static
{
    &&& cs.len() == mids.len() + 1
    &&& forall|j: int| 0 <= j < mids.len() ==> controller_step(#[trigger] cs[j], mids[j], cs[j + 1])
}

/// Whatever tasks are appended between them, each call of `execute` is one
/// tick: after `j` calls the tick counter has gone up by `j`, the wheel's
/// cursor has advanced `j` steps and stands at the counter modulo the
/// limit, and it is back at zero (the wheel wrapped) exactly when the
/// counter is a multiple of the limit.
pub proof fn law_execute_counts_ticks<T>(
    cs: Seq<TimingWheelController<T>>,
    mids: Seq<TimingWheelController<T>>,
)
    where T: Fn() -> u32 + 'static
    requires
        controller_session(cs, mids),
        cs[0].wf(),
    ensures
        forall|j: int| 0 <= j < cs.len() ==> #[trigger] cs[j].crt_time() == cs[0].crt_time() + j,
        forall|j: int|
            0 <= j < cs.len() ==> #[trigger] cs[j].wheel().cursor() == tw::cursor_after_ticks(
                cs[0].wheel().cursor(),
                j as nat,
            ),
        forall|j: int|
            0 <= j < cs.len() ==> tick_count(#[trigger] cs[j].wheel().cursor()) == cs[j].crt_time()
                % cs[0].limit_gap(),
        forall|j: int|
            0 <= j < cs.len() ==> (all_zero(#[trigger] cs[j].wheel().cursor()) <==> cs[j].crt_time()
                % cs[0].limit_gap() == 0),
{
    let c0 = cs[0].wheel().cursor();
    let p = cs[0].limit_gap() as int;
    tw::lemma_place_positive(cs[0].wheel().depth());
    assert forall|j: int| 0 <= j < cs.len() implies #[trigger] cs[j].crt_time() == cs[0].crt_time()
        + j && cs[j].wheel().cursor() == tw::cursor_after_ticks(c0, j as nat) && cs[j].limit_gap()
        == p && cs[j].wheel().depth() == cs[0].wheel().depth() by {
        lemma_session_ticks(cs, mids, j);
    }
    assert forall|j: int| 0 <= j < cs.len() implies tick_count(#[trigger] cs[j].wheel().cursor())
        == cs[j].crt_time() % cs[0].limit_gap() && (all_zero(cs[j].wheel().cursor())
        <==> cs[j].crt_time() % cs[0].limit_gap() == 0) by {
        lemma_session_ticks(cs, mids, j);
        tw::law_ticks_advance(c0, j as nat);
        let t = cs[0].crt_time() as int;
        assert(valid_path(c0.len(), c0) && place(c0.len()) == p);
        assert(tick_count(c0) == t % p);
        vstd::arithmetic::div_mod::lemma_add_mod_noop(t, j, p);
        vstd::arithmetic::div_mod::lemma_add_mod_noop(t % p, j, p);
        vstd::arithmetic::div_mod::lemma_mod_twice(t, p);
        tw::lemma_tick_count_zero(cs[j].wheel().cursor());
    }
}

proof fn lemma_session_ticks<T>(
    cs: Seq<TimingWheelController<T>>,
    mids: Seq<TimingWheelController<T>>,
    j: int,
)
    where T: Fn() -> u32 + 'static
    requires
        controller_session(cs, mids),
        0 <= j < cs.len(),
    ensures
        cs[j].crt_time() == cs[0].crt_time() + j,
        cs[j].limit_gap() == cs[0].limit_gap(),
        cs[j].wheel().depth() == cs[0].wheel().depth(),
        cs[j].wheel().cursor() == tw::cursor_after_ticks(cs[0].wheel().cursor(), j as nat),
    decreases j,
{
    if j > 0 {
        lemma_session_ticks(cs, mids, j - 1);
        assert(controller_step(cs[j - 1], mids[j - 1], cs[j]));
    }
}

proof fn lemma_run_ticks<T>(cs: Seq<TimingWheelController<T>>, j: int)
    where T: Fn() -> u32 + 'static
    requires
        controller_run(cs),
        0 <= j < cs.len(),
    ensures
        cs[j].crt_time() == cs[0].crt_time() + j,
    decreases j,
{
    if j > 0 {
        lemma_run_ticks(cs, j - 1);
        assert(controller_ticked(cs[j - 1], cs[j]));
    }
}

} // verus!

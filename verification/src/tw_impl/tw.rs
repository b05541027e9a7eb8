//! Hierarchical timing wheels.
//!
//! A `SingleWheel` is a ring of 256 task slots with a cursor. A
//! `TimingWheel` of layer `n` is a ring of 256 wheels of layer `n - 1`, with
//! a cursor on one of them; a wheel of layer 1 is a `SingleWheel`. `Wheel`
//! holds a wheel of either kind.
//!
//! A wheel is modelled by its layer (`depth`), the path of slot indices from
//! the outer ring down to the slot under the cursor (`cursor`), and the task
//! held at the end of each such path (`at`). One tick (`execute`) runs and
//! clears the task under the cursor and advances the cursor like an odometer
//! whose last digit turns fastest.
//!
//! A wheel of layer `n` covers `256^n` ticks: a sub-wheel of a layer-`n`
//! wheel spans `256^(n-1)` ticks (1, 256, 256 * 256, ...). Position `p`
//! names the slot whose path spells `p` in base 256, so a task appended at
//! position `p` of a fresh wheel runs during tick `p + 1`
//! (`law_position_is_tick`, `law_slot_visited_once`).

use vstd::prelude::*;

verus! {

/// Status a task reports on success.
pub const TASK_SUCCESSED: u32 = 0;

/// Status a task reports on failure.
pub const TASK_FAILED: u32 = 1;

/// The number of slots in each ring of a wheel.
pub const ELEMENT_COUNT_FOR_EACH_WHEEL: u64 = 256;

/// The layer of a wheel made by `TimingWheel::new`.
pub const DEFAULT_TW_LAYER: u32 = 3;

// ---------------------------------------------------------------------------
// Paths, positions and identifiers
// ---------------------------------------------------------------------------

/// Whether every index of the path is 0.
pub open spec fn all_zero(c: Seq<int>) -> bool {
    forall|i: int| 0 <= i < c.len() ==> c[i] == 0
}

/// Whether `p` is a path to a slot of a wheel of layer `depth`.
pub open spec fn valid_path(depth: nat, p: Seq<int>) -> bool {
    p.len() == depth && forall|i: int| 0 <= i < p.len() ==> 0 <= #[trigger] p[i] < 256
}

/// The cursor one tick after `c`: the last index advances, and an index that
/// wraps from 255 to 0 carries into the index before it.
pub open spec fn next_cursor(c: Seq<int>) -> Seq<int>
    decreases c.len(),
{
    if c.len() <= 1 {
        seq![(c[0] + 1) % 256]
    } else {
        let t = next_cursor(c.drop_first());
        if all_zero(t) {
            seq![(c[0] + 1) % 256] + t
        } else {
            seq![c[0]] + t
        }
    }
}

/// What a tick of a wheel of layer `depth` returns once its cursor is `c`:
/// a single wheel gives its new slot, a layered wheel gives 0 when its
/// cursor wrapped to all zeros and 1 otherwise.
pub open spec fn tick_result(depth: nat, c: Seq<int>) -> int {
    if depth <= 1 {
        c[0]
    } else if all_zero(c) {
        0
    } else {
        1
    }
}

/// The number of positions (ticks) that one sub-wheel covers in a wheel of
/// layer `depth`: 1, 256, 256 * 256, ... for layers 1, 2, 3, ..., so that a
/// wheel of layer `depth` covers 256 to the power `depth` ticks.
pub open spec fn span(depth: nat) -> int {
    place((depth - 1) as nat)
}

/// Whether a wheel of layer `depth` can hold a task at position `pos`.
pub open spec fn fits(depth: nat, pos: int) -> bool
    decreases depth,
{
    if depth <= 1 {
        0 <= pos < 256
    } else {
        0 <= pos && pos / span(depth) < 256 && fits((depth - 1) as nat, pos % span(depth))
    }
}

/// The slot that position `pos` names in a wheel of layer `depth`.
pub open spec fn addr_path(depth: nat, pos: int) -> Seq<int>
    decreases depth,
{
    if depth <= 1 {
        seq![pos]
    } else {
        seq![pos / span(depth)] + addr_path((depth - 1) as nat, pos % span(depth))
    }
}

/// The identifier that `append_task` reports for a task placed at `path`:
/// the outer index in the low byte, the next index in the byte above, and so
/// on, with the innermost index plus one on top, kept to 64 bits; 0 once an
/// inner wheel has reported 0.
pub open spec fn reported_id(path: Seq<int>) -> int
    decreases path.len(),
{
    if path.len() <= 1 {
        path[0] + 1
    } else {
        let inner = reported_id(path.drop_first());
        if inner == 0 {
            0
        } else {
            (path[0] + 256 * inner) % 0x1_0000_0000_0000_0000
        }
    }
}

/// Whether `remove_task(id)` names a slot of a wheel of layer `depth`.
pub open spec fn id_valid(depth: nat, id: int) -> bool
    decreases depth,
{
    if depth <= 1 {
        0 <= id < 256
    } else {
        id_valid((depth - 1) as nat, id / 256)
    }
}

/// The slot that `remove_task(id)` clears in a wheel of layer `depth`: the
/// low byte picks the outer index, the next byte the index below, and so on.
pub open spec fn id_path(depth: nat, id: int) -> Seq<int>
    decreases depth,
{
    if depth <= 1 {
        seq![id]
    } else {
        seq![id % 256] + id_path((depth - 1) as nat, id / 256)
    }
}

// ---------------------------------------------------------------------------
// Tasks
// ---------------------------------------------------------------------------

/// A task that a wheel can hold.
pub trait WheelValueTrait {
    /// Whether the task can be run.
    spec fn ready(&self) -> bool;

    /// Runs the task and returns its status.
    fn execute(&self) -> u32
        requires
            self.ready(),
    ;

    /// The delay, in ticks, after which the task is due.
    fn gap_time(&self) -> usize;

    /// Whether the task is meant to repeat.
    fn loop_on(&self) -> bool;
}

/// A task: a closure, when it was made, its delay and whether it repeats.
#[derive(Clone)]
#[verifier::reject_recursive_types(T)]
pub struct WheelValue<T> where T: Fn() -> u32 {
    pub __callback: T,
    pub __start_time: usize,
    pub __gap_time: usize,
    pub __loop_on: bool,
}

impl<T> WheelValue<T> where T: Fn() -> u32 + 'static {
    /// A boxed task with start time 0.
    pub fn new(__gap_time: usize, __loop_on: bool, __callback: T) -> (v: Box<WheelValue<T>>)
        ensures
            *v == (WheelValue { __callback, __start_time: 0, __gap_time, __loop_on }),
    {
        Box::new(WheelValue { __callback, __start_time: 0, __gap_time, __loop_on })
    }

    /// A task with start time 0.
    pub fn new_debug(__gap_time: usize, __loop_on: bool, __callback: T) -> (v: WheelValue<T>)
        ensures
            v == (WheelValue { __callback, __start_time: 0, __gap_time, __loop_on }),
    {
        WheelValue { __callback, __start_time: 0, __gap_time, __loop_on }
    }
}

impl<T> WheelValueTrait for WheelValue<T> where T: Fn() -> u32 + 'static {
    open spec fn ready(&self) -> bool {
        call_requires(self.__callback, ())
    }

    /// Calls the closure.
    fn execute(&self) -> (r: u32)
        ensures
            call_ensures(self.__callback, (), r),
    {
        (self.__callback)()
    }

    fn gap_time(&self) -> (g: usize)
        ensures
            g == self.__gap_time,
    {
        self.__gap_time
    }

    fn loop_on(&self) -> (l: bool)
        ensures
            l == self.__loop_on,
    {
        self.__loop_on
    }
}

// ---------------------------------------------------------------------------
// Wheels
// ---------------------------------------------------------------------------

/// A wheel: rings of task slots, a cursor, and ticks that run the slot under
/// the cursor.
pub trait ExecutableWheel<T> where T: Fn() -> u32 {
    /// The wheel's shape holds together (see each implementation).
    spec fn wf(&self) -> bool;

    /// The wheel's layer.
    spec fn depth(&self) -> nat;

    /// The path to the slot under the cursor.
    spec fn cursor(&self) -> Seq<int>;

    /// The task held in the slot at the end of `path`, if any.
    spec fn at(&self, path: Seq<int>) -> Option<WheelValue<T>>;

    /// Whether `path` leads to a slot of the wheel.
    spec fn has_slot(&self, path: Seq<int>) -> bool;

    /// Whether `path` leads to a ring of 256 slots (a `SingleWheel`).
    spec fn has_ring(&self, path: Seq<int>) -> bool;

    /// Whether `path` leads to a ring of wheels (a `TimingWheel`).
    spec fn has_node(&self, path: Seq<int>) -> bool;

    /// One tick: runs and clears the task under the cursor and advances the
    /// cursor.
    fn execute(&mut self) -> (r: u32)
        requires
            old(self).wf(),
        ensures
            final(self).wf(),
            final(self).depth() == old(self).depth(),
            final(self).cursor() == next_cursor(old(self).cursor()),
            forall|path: Seq<int>|
                #[trigger] final(self).at(path) == if path == old(self).cursor() {
                    None
                } else {
                    old(self).at(path)
                },
            r == tick_result(old(self).depth(), final(self).cursor()),
            old(self).at(old(self).cursor()) is Some ==> exists|status: u32|
                call_ensures(old(self).at(old(self).cursor())->0.__callback, (), status),
    ;

    /// Puts `task` in the slot that position `pos` (a delay in ticks) names,
    /// replacing what was there, and returns an identifier for it; returns
    /// 0, changing nothing, when the wheel has no such position.
    fn append_task(&mut self, pos: usize, task: WheelValue<T>) -> (id: u64)
        requires
            old(self).wf(),
            call_requires(task.__callback, ()),
        ensures
            final(self).wf(),
            final(self).depth() == old(self).depth(),
            final(self).cursor() == old(self).cursor(),
            fits(old(self).depth(), pos as int) ==> id == reported_id(
                addr_path(old(self).depth(), pos as int),
            ),
            fits(old(self).depth(), pos as int) ==> forall|path: Seq<int>|
                #[trigger] final(self).at(path) == if path == addr_path(
                    old(self).depth(),
                    pos as int,
                ) {
                    Some(task)
                } else {
                    old(self).at(path)
                },
            !fits(old(self).depth(), pos as int) ==> id == 0,
            !fits(old(self).depth(), pos as int) ==> forall|path: Seq<int>|
                #[trigger] final(self).at(path) == old(self).at(path),
    ;

    /// Clears the slot that `id` names, if it names one.
    fn remove_task(&mut self, id: u64)
        requires
            old(self).wf(),
        ensures
            final(self).wf(),
            final(self).depth() == old(self).depth(),
            final(self).cursor() == old(self).cursor(),
            forall|path: Seq<int>|
                #[trigger] final(self).at(path) == if id_valid(old(self).depth(), id as int)
                    && path == id_path(old(self).depth(), id as int) {
                    None
                } else {
                    old(self).at(path)
                },
    ;
}

/// A ring of 256 task slots and a cursor.
#[derive(Clone)]
#[verifier::reject_recursive_types(T)]
pub struct SingleWheel<T> where T: Fn() -> u32 + 'static {
    __elems: Vec<Option<WheelValue<T>>>,
    __pos: usize,
}

/// A ring of 256 wheels, all of the layer below, and a cursor on one of them.
#[verifier::reject_recursive_types(T)]
pub struct TimingWheel<T> where T: Fn() -> u32 + 'static {
    subwheel: Vec<Wheel<T>>,
    pos: usize,
    duration: u64,
    layer: Ghost<nat>,
}

/// A wheel of any layer.
#[verifier::reject_recursive_types(T)]
pub enum Wheel<T> where T: Fn() -> u32 + 'static {
    Single(SingleWheel<T>),
    Layered(TimingWheel<T>),
}

/// A copy of the wheel: each sub-wheel cloned in turn.
impl<T> Clone for TimingWheel<T> where T: Fn() -> u32 + Clone + 'static {
    fn clone(&self) -> (c: Self)
        decreases self, 0nat,
    {
        let mut subwheel: Vec<Wheel<T>> = Vec::with_capacity(self.subwheel.len());
        let mut i: usize = 0;
        while i < self.subwheel.len()
            decreases self.subwheel.len() - i,
        {
            proof {
                assert(decreases_to!(self => self.subwheel@[i as int]));
            }
            subwheel.push(self.subwheel[i].clone());
            i = i + 1;
        }
        TimingWheel { subwheel, pos: self.pos, duration: self.duration, layer: Ghost(self.layer@) }
    }
}

/// A copy of the wheel, of the same kind.
impl<T> Clone for Wheel<T> where T: Fn() -> u32 + Clone + 'static {
    fn clone(&self) -> (c: Self)
        decreases self, 1nat,
    {
        match self {
            Wheel::Single(s) => Wheel::Single(s.clone()),
            Wheel::Layered(t) => Wheel::Layered(t.clone()),
        }
    }
}

impl<T> SingleWheel<T> where T: Fn() -> u32 + 'static {
    /// A wheel with every slot empty and the cursor on slot 0.
    fn new() -> (w: Self)
        ensures
            w.wf(),
            w.depth() == 1,
            all_zero(w.cursor()),
            forall|path: Seq<int>| #[trigger] w.at(path) is None,
    {
        let mut elems: Vec<Option<WheelValue<T>>> = Vec::with_capacity(256);
        let mut i: usize = 0;
        while i < 256
            invariant
                i <= 256,
                elems.len() == i,
                forall|j: int| 0 <= j < i ==> (#[trigger] elems@[j]) is None,
            decreases 256 - i,
        {
            elems.push(None);
            i = i + 1;
        }
        SingleWheel { __elems: elems, __pos: 0 }
    }
}

impl<T> ExecutableWheel<T> for SingleWheel<T> where T: Fn() -> u32 + 'static {
    /// 256 slots, the cursor on one of them, and every task ready to run.
    closed spec fn wf(&self) -> bool {
        &&& self.__elems.len() == 256
        &&& self.__pos < 256
        &&& forall|i: int|
            0 <= i < 256 && (#[trigger] self.__elems@[i]) is Some ==> self.__elems@[i]->0.ready()
    }

    closed spec fn depth(&self) -> nat {
        1
    }

    closed spec fn cursor(&self) -> Seq<int> {
        seq![self.__pos as int]
    }

    closed spec fn at(&self, path: Seq<int>) -> Option<WheelValue<T>> {
        if path.len() == 1 && 0 <= path[0] < self.__elems.len() {
            self.__elems@[path[0]]
        } else {
            None
        }
    }

    closed spec fn has_slot(&self, path: Seq<int>) -> bool {
        path.len() == 1 && 0 <= path[0] < self.__elems.len()
    }

    closed spec fn has_ring(&self, path: Seq<int>) -> bool {
        path.len() == 0
    }

    closed spec fn has_node(&self, path: Seq<int>) -> bool {
        false
    }

    /// Runs the task under the cursor, if any, clears its slot and returns
    /// the cursor's new slot.
    fn execute(&mut self) -> (r: u32) {
        let p = self.__pos;
        proof {
            assert(old(self).at(old(self).cursor()) == old(self).__elems@[p as int]);
        }
        if let Some(tasks) = &self.__elems[p] {
            let status = tasks.execute();
            assert(call_ensures(tasks.__callback, (), status));
        }
        self.__elems[p] = None;
        self.__pos = (p + 1) % 256;
        proof {
            assert forall|path: Seq<int>| #[trigger] self.at(path) == if path == old(self).cursor() {
                None
            } else {
                old(self).at(path)
            } by {
                if path.len() == 1 && path[0] == p {
                    assert(path =~= old(self).cursor());
                }
            }
        }
        self.__pos as u32
    }

    fn append_task(&mut self, pos: usize, task: WheelValue<T>) -> (id: u64) {
        if pos >= 256 {
            return 0;
        }
        self.__elems[pos] = Some(task);
        proof {
            assert forall|path: Seq<int>| #[trigger] self.at(path) == if path == addr_path(1, pos as int) {
                Some(task)
            } else {
                old(self).at(path)
            } by {
                if path.len() == 1 && path[0] == pos {
                    assert(path =~= addr_path(1, pos as int));
                }
            }
        }
        (pos + 1) as u64
    }

    fn remove_task(&mut self, id: u64) {
        if id >= 256 {
            return ;
        }
        self.__elems[id as usize] = None;
        proof {
            assert forall|path: Seq<int>| #[trigger] self.at(path) == if id_valid(1, id as int) && path
                == id_path(1, id as int) {
                None
            } else {
                old(self).at(path)
            } by {
                if path.len() == 1 && path[0] == id {
                    assert(path =~= id_path(1, id as int));
                }
            }
        }
    }
}

impl<T> ExecutableWheel<T> for TimingWheel<T> where T: Fn() -> u32 + 'static {
    /// 256 sub-wheels, each well formed and one layer below this one; the
    /// cursor on one of them; every other sub-wheel with its cursor at zero;
    /// the duration the span of one sub-wheel.
    closed spec fn wf(&self) -> bool
        decreases self,
    {
        &&& self.subwheel.len() == 256
        &&& self.pos < 256
        &&& self.layer@ >= 2
        &&& self.duration == span(self.layer@)
        &&& forall|i: int|
            0 <= i < 256 ==> {
                &&& (#[trigger] self.subwheel@[i]).wf()
                &&& self.subwheel@[i].depth() + 1 == self.layer@
                &&& self.subwheel@[i].cursor().len() == self.subwheel@[i].depth()
                &&& i != self.pos ==> all_zero(self.subwheel@[i].cursor())
            }
    }

    closed spec fn depth(&self) -> nat {
        self.layer@
    }

    closed spec fn cursor(&self) -> Seq<int>
        decreases self,
    {
        if self.pos < self.subwheel.len() {
            seq![self.pos as int] + self.subwheel@[self.pos as int].cursor()
        } else {
            seq![self.pos as int]
        }
    }

    closed spec fn at(&self, path: Seq<int>) -> Option<WheelValue<T>>
        decreases self,
    {
        if path.len() >= 1 && 0 <= path[0] < self.subwheel.len() {
            self.subwheel@[path[0]].at(path.drop_first())
        } else {
            None
        }
    }

    closed spec fn has_slot(&self, path: Seq<int>) -> bool
        decreases self,
    {
        path.len() >= 1 && 0 <= path[0] < self.subwheel.len() && self.subwheel@[path[0]].has_slot(
            path.drop_first(),
        )
    }

    closed spec fn has_ring(&self, path: Seq<int>) -> bool
        decreases self,
    {
        path.len() >= 1 && 0 <= path[0] < self.subwheel.len() && self.subwheel@[path[0]].has_ring(
            path.drop_first(),
        )
    }

    closed spec fn has_node(&self, path: Seq<int>) -> bool
        decreases self,
    {
        path.len() == 0 || (0 <= path[0] < self.subwheel.len() && self.subwheel@[path[0]].has_node(
            path.drop_first(),
        ))
    }

    /// Ticks the sub-wheel under the cursor; when that sub-wheel wraps, moves
    /// the cursor to the next sub-wheel. Returns 0 when this wheel wrapped,
    /// 1 otherwise.
    fn execute(&mut self) -> (r: u32)
        decreases old(self).depth(), 0nat,
    {
        let p = self.pos;
        let ghost c0 = self.subwheel@[p as int].cursor();
        proof {
            assert((seq![p as int] + c0).drop_first() =~= c0);
            assert(old(self).at(old(self).cursor()) == old(self).subwheel@[p as int].at(c0));
        }
        let ipos = self.subwheel[p].execute();
        let ghost c1 = self.subwheel@[p as int].cursor();
        proof {
            lemma_next_cursor_len(c0);
            lemma_tick_result_zero(self.subwheel@[p as int].depth(), c1);
            lemma_next_cursor_cons(p as int, c0);
        }
        if ipos == 0 {
            let q = (p + 1) % 256;
            self.pos = q;
            proof {
                lemma_all_zero_eq(c1, self.subwheel@[q as int].cursor());
                assert(self.cursor() =~= seq![q as int] + c1);
            }
            if q == 0 {
                proof {
                    lemma_all_zero_cons(q as int, c1);
                    self.lemma_at_after_tick(*old(self), p as int);
                }
                return 0;
            }
            proof {
                lemma_all_zero_cons(q as int, c1);
                self.lemma_at_after_tick(*old(self), p as int);
            }
        } else {
            proof {
                assert(self.cursor() =~= seq![p as int] + c1);
                lemma_all_zero_cons(p as int, c1);
                self.lemma_at_after_tick(*old(self), p as int);
            }
        }
        1
    }

    /// Passes the task to the sub-wheel that the position falls in, with the
    /// position within that sub-wheel; builds the identifier from the
    /// sub-wheel's identifier and the sub-wheel's index.
    fn append_task(&mut self, pos: usize, task: WheelValue<T>) -> (id: u64)
        decreases old(self).depth(), 0nat,
    {
        proof {
            lemma_place_positive((self.layer@ - 1) as nat);
        }
        let idx = pos as u64 / self.duration;
        if idx >= 256 {
            return 0;
        }
        let ipos = pos as u64 % self.duration;
        proof {
            vstd::arithmetic::div_mod::lemma_mod_decreases(pos as nat, self.duration as nat);
        }
        let ghost sub_depth = self.subwheel@[idx as int].depth();
        let ghost ap = addr_path(sub_depth, ipos as int);
        proof {
            let d = old(self).depth();
            assert(span(d) == self.duration);
            assert(sub_depth + 1 == d);
            lemma_addr_path_len(sub_depth, ipos as int);
            assert(fits(d, pos as int) == fits(sub_depth, ipos as int));
            assert(addr_path(d, pos as int) == seq![idx as int] + ap);
            assert((seq![idx as int] + ap).drop_first() =~= ap);
        }
        let id = self.subwheel[idx as usize].append_task(ipos as usize, task);
        proof {
            assert(self.cursor() =~= old(self).cursor());
            assert forall|path: Seq<int>| #[trigger] self.at(path) == if fits(self.depth(), pos as int)
                && path == addr_path(self.depth(), pos as int) {
                Some(task)
            } else {
                old(self).at(path)
            } by {
                if path.len() >= 1 && 0 <= path[0] < 256 {
                    assert(self.at(path) == self.subwheel@[path[0]].at(path.drop_first()));
                    assert(old(self).at(path) == old(self).subwheel@[path[0]].at(path.drop_first()));
                    if path[0] == idx {
                        assert(path =~= seq![idx as int] + path.drop_first());
                    }
                }
            }
        }
        if id == 0 {
            return 0;
        }
        proof {
            lemma_shift_or(id, idx);
            assert(reported_id(seq![idx as int] + ap) == if reported_id(ap) == 0 {
                0
            } else {
                (idx + 256 * reported_id(ap)) % 0x1_0000_0000_0000_0000
            });
        }
        (id << 8) | idx
    }

    /// Passes the identifier, without its low byte, to the sub-wheel that the
    /// low byte names.
    fn remove_task(&mut self, id: u64)
        decreases old(self).depth(), 0nat,
    {
        let idx = id & 0x00FF;
        proof {
            lemma_low_byte(id);
        }
        if idx >= 256 {
            return ;
        }
        let ghost sub_depth = self.subwheel@[idx as int].depth();
        let ghost ip = id_path(sub_depth, (id >> 8) as int);
        proof {
            let d = old(self).depth();
            assert(sub_depth + 1 == d);
            assert(id_valid(d, id as int) == id_valid(sub_depth, (id >> 8) as int));
            assert(id_path(d, id as int) == seq![idx as int] + ip);
            assert((seq![idx as int] + ip).drop_first() =~= ip);
        }
        self.subwheel[idx as usize].remove_task(id >> 8);
        proof {
            assert(self.cursor() =~= old(self).cursor());
            assert forall|path: Seq<int>| #[trigger] self.at(path) == if id_valid(
                self.depth(),
                id as int,
            ) && path == id_path(self.depth(), id as int) {
                None
            } else {
                old(self).at(path)
            } by {
                if path.len() >= 1 && 0 <= path[0] < 256 {
                    assert(self.at(path) == self.subwheel@[path[0]].at(path.drop_first()));
                    assert(old(self).at(path) == old(self).subwheel@[path[0]].at(path.drop_first()));
                    if path[0] == idx {
                        assert(path =~= seq![idx as int] + path.drop_first());
                    }
                }
            }
        }
    }
}

impl<T> TimingWheel<T> where T: Fn() -> u32 + 'static {
    /// After the sub-wheel at `p` ticked, the slots are those of `prev` with
    /// the slot under `prev`'s cursor cleared.
    proof fn lemma_at_after_tick(&self, prev: Self, p: int)
        requires
            prev.wf(),
            p == prev.pos,
            self.subwheel@ == prev.subwheel@.update(p, self.subwheel@[p]),
            self.subwheel.len() == 256,
            0 <= p < 256,
            forall|path: Seq<int>|
                #[trigger] self.subwheel@[p].at(path) == if path == prev.subwheel@[p].cursor() {
                    None
                } else {
                    prev.subwheel@[p].at(path)
                },
        ensures
            forall|path: Seq<int>|
                #[trigger] self.at(path) == if path == prev.cursor() {
                    None
                } else {
                    prev.at(path)
                },
    {
        assert forall|path: Seq<int>| #[trigger] self.at(path) == if path == prev.cursor() {
            None
        } else {
            prev.at(path)
        } by {
            if path.len() >= 1 && path[0] == p {
                assert(self.at(path) == self.subwheel@[p].at(path.drop_first()));
                assert(prev.at(path) == prev.subwheel@[p].at(path.drop_first()));
                assert(path =~= seq![p] + path.drop_first());
                assert((seq![p] + prev.subwheel@[p].cursor()).drop_first() =~= prev.subwheel@[p].cursor());
                assert(prev.cursor() == seq![p] + prev.subwheel@[p].cursor());
                assert(self.subwheel@[p].at(path.drop_first()) == if path.drop_first() == prev.subwheel@[p].cursor() {
                    None
                } else {
                    prev.subwheel@[p].at(path.drop_first())
                });
            }
        }
    }
}

impl<T> ExecutableWheel<T> for Wheel<T> where T: Fn() -> u32 + 'static {
    closed spec fn wf(&self) -> bool
        decreases self,
    {
        match self {
            Wheel::Single(s) => s.wf(),
            Wheel::Layered(t) => t.wf(),
        }
    }

    closed spec fn depth(&self) -> nat {
        match self {
            Wheel::Single(s) => s.depth(),
            Wheel::Layered(t) => t.depth(),
        }
    }

    closed spec fn cursor(&self) -> Seq<int>
        decreases self,
    {
        match self {
            Wheel::Single(s) => s.cursor(),
            Wheel::Layered(t) => t.cursor(),
        }
    }

    closed spec fn at(&self, path: Seq<int>) -> Option<WheelValue<T>>
        decreases self,
    {
        match self {
            Wheel::Single(s) => s.at(path),
            Wheel::Layered(t) => t.at(path),
        }
    }

    closed spec fn has_slot(&self, path: Seq<int>) -> bool
        decreases self,
    {
        match self {
            Wheel::Single(s) => s.has_slot(path),
            Wheel::Layered(t) => t.has_slot(path),
        }
    }

    closed spec fn has_ring(&self, path: Seq<int>) -> bool
        decreases self,
    {
        match self {
            Wheel::Single(s) => s.has_ring(path),
            Wheel::Layered(t) => t.has_ring(path),
        }
    }

    closed spec fn has_node(&self, path: Seq<int>) -> bool
        decreases self,
    {
        match self {
            Wheel::Single(s) => s.has_node(path),
            Wheel::Layered(t) => t.has_node(path),
        }
    }

    fn execute(&mut self) -> (r: u32)
        decreases old(self).depth(), 1nat,
    {
        let r = match self {
            Wheel::Single(s) => s.execute(),
            Wheel::Layered(t) => t.execute(),
        };
        proof {
            assert forall|path: Seq<int>| #[trigger] self.at(path) == if path == old(self).cursor() {
                None
            } else {
                old(self).at(path)
            } by {
                self.lemma_at_unfold(*old(self), path);
            }
            self.lemma_at_unfold(*old(self), old(self).cursor());
        }
        r
    }

    fn append_task(&mut self, pos: usize, task: WheelValue<T>) -> (id: u64)
        decreases old(self).depth(), 1nat,
    {
        let id = match self {
            Wheel::Single(s) => s.append_task(pos, task),
            Wheel::Layered(t) => t.append_task(pos, task),
        };
        proof {
            if fits(old(self).depth(), pos as int) {
                assert forall|path: Seq<int>| #[trigger] self.at(path) == if path == addr_path(
                    old(self).depth(),
                    pos as int,
                ) {
                    Some(task)
                } else {
                    old(self).at(path)
                } by {
                    self.lemma_at_unfold(*old(self), path);
                }
            } else {
                assert forall|path: Seq<int>| #[trigger] self.at(path) == old(self).at(path) by {
                    self.lemma_at_unfold(*old(self), path);
                }
            }
        }
        id
    }

    fn remove_task(&mut self, id: u64)
        decreases old(self).depth(), 1nat,
    {
        match self {
            Wheel::Single(s) => s.remove_task(id),
            Wheel::Layered(t) => t.remove_task(id),
        }
        proof {
            assert forall|path: Seq<int>| #[trigger] self.at(path) == if id_valid(
                old(self).depth(),
                id as int,
            ) && path == id_path(old(self).depth(), id as int) {
                None
            } else {
                old(self).at(path)
            } by {
                self.lemma_at_unfold(*old(self), path);
            }
        }
    }
}

impl<T> Wheel<T> where T: Fn() -> u32 + 'static {
    /// The slot lookups of two wheels of the same kind are those of the
    /// wheels they hold.
    proof fn lemma_at_unfold(&self, other: Self, path: Seq<int>)
        ensures
            match (*self, other) {
                (Wheel::Single(a), Wheel::Single(b)) => self.at(path) == a.at(path) && other.at(path)
                    == b.at(path),
                (Wheel::Layered(a), Wheel::Layered(b)) => self.at(path) == a.at(path) && other.at(path)
                    == b.at(path),
                _ => true,
            },
    {
    }
}

impl<T> TimingWheel<T> where T: Fn() -> u32 + 'static {
    /// An empty wheel of layer `DEFAULT_TW_LAYER`.
    pub fn new() -> (w: Box<Wheel<T>>)
        ensures
            w.wf(),
            w.depth() == DEFAULT_TW_LAYER,
            w.cursor().len() == DEFAULT_TW_LAYER,
            all_zero(w.cursor()),
            forall|path: Seq<int>| #[trigger] w.at(path) is None,
            forall|path: Seq<int>| #[trigger] w.has_slot(path) <==> valid_path(DEFAULT_TW_LAYER as nat, path),
            forall|path: Seq<int>| #[trigger] w.has_ring(path) <==> valid_path((DEFAULT_TW_LAYER - 1) as nat, path),
            forall|path: Seq<int>|
                #[trigger] w.has_node(path) <==> path.len() + 1 < DEFAULT_TW_LAYER && valid_path(path.len(), path),
            Set::new(|p: Seq<int>| w.has_slot(p)).finite(),
            Set::new(|p: Seq<int>| w.has_slot(p)).len() == place(DEFAULT_TW_LAYER as nat),
            Set::new(|p: Seq<int>| w.has_ring(p)).finite(),
            Set::new(|p: Seq<int>| w.has_ring(p)).len() == place((DEFAULT_TW_LAYER - 1) as nat),
            Set::new(|p: Seq<int>| w.has_node(p)).finite(),
            255 * Set::new(|p: Seq<int>| w.has_node(p)).len() == place((DEFAULT_TW_LAYER - 1) as nat) - 1,
    {
        TimingWheel::new_with_layer(DEFAULT_TW_LAYER)
    }

    /// An empty wheel of layer `layer`, its cursor at zero: a `SingleWheel`
    /// for layer 1, otherwise 256 wheels of layer `layer - 1`; in all
    /// `256^layer` slots, in `256^(layer-1)` single wheels held by
    /// `(256^(layer-1) - 1) / 255` layered wheels.
    pub fn new_with_layer(layer: u32) -> (w: Box<Wheel<T>>)
        requires
            1 <= layer <= 8,
        ensures
            w.wf(),
            w.depth() == layer,
            w.cursor().len() == layer,
            all_zero(w.cursor()),
            forall|path: Seq<int>| #[trigger] w.at(path) is None,
            forall|path: Seq<int>| #[trigger] w.has_slot(path) <==> valid_path(layer as nat, path),
            forall|path: Seq<int>| #[trigger] w.has_ring(path) <==> valid_path((layer - 1) as nat, path),
            forall|path: Seq<int>|
                #[trigger] w.has_node(path) <==> path.len() + 1 < layer && valid_path(path.len(), path),
            Set::new(|p: Seq<int>| w.has_slot(p)).finite(),
            Set::new(|p: Seq<int>| w.has_slot(p)).len() == place(layer as nat),
            Set::new(|p: Seq<int>| w.has_ring(p)).finite(),
            Set::new(|p: Seq<int>| w.has_ring(p)).len() == place((layer - 1) as nat),
            Set::new(|p: Seq<int>| w.has_node(p)).finite(),
            255 * Set::new(|p: Seq<int>| w.has_node(p)).len() == place((layer - 1) as nat) - 1,
        decreases layer,
    {
        if layer == 1 {
            let w = Box::new(Wheel::Single(SingleWheel::new()));
            proof {
                law_slots_are_valid_paths(*w);
                law_wheel_size(*w);
            }
            return w;
        }
        let mut duration: u64 = 1;
        let mut k: u32 = 1;
        while k < layer
            invariant
                1 <= k <= layer <= 8,
                duration == place((k - 1) as nat),
            decreases layer - k,
        {
            proof {
                lemma_place_small(k as nat);
                assert(place(k as nat) == 256 * place((k - 1) as nat));
            }
            duration = duration * ELEMENT_COUNT_FOR_EACH_WHEEL;
            k = k + 1;
        }
        let mut ret = TimingWheel {
            subwheel: Vec::with_capacity(ELEMENT_COUNT_FOR_EACH_WHEEL as usize),
            pos: 0,
            duration,
            layer: Ghost(layer as nat),
        };
        let mut i: u64 = 0;
        while i < ELEMENT_COUNT_FOR_EACH_WHEEL
            invariant
                i <= 256,
                ret.subwheel.len() == i,
                ret.pos == 0,
                ret.duration == span(layer as nat),
                ret.layer@ == layer,
                2 <= layer <= 8,
                forall|j: int|
                    0 <= j < i ==> {
                        &&& (#[trigger] ret.subwheel@[j]).wf()
                        &&& ret.subwheel@[j].depth() == layer - 1
                        &&& ret.subwheel@[j].cursor().len() == layer - 1
                        &&& all_zero(ret.subwheel@[j].cursor())
                        &&& forall|path: Seq<int>| #[trigger] ret.subwheel@[j].at(path) is None
                    },
            decreases 256 - i,
        {
            let sub = TimingWheel::new_with_layer(layer - 1);
            ret.subwheel.push(*sub);
            i = i + 1;
        }
        let w = Wheel::Layered(ret);
        proof {
            assert(w.cursor() =~= seq![0int] + ret.subwheel@[0].cursor());
            assert forall|path: Seq<int>| #[trigger] w.at(path) is None by {
                if path.len() >= 1 && 0 <= path[0] < 256 {
                    assert(ret.subwheel@[path[0]].at(path.drop_first()) is None);
                }
            }
            law_slots_are_valid_paths(w);
            law_wheel_size(w);
        }
        Box::new(w)
    }
}

// ---------------------------------------------------------------------------
// Laws
// ---------------------------------------------------------------------------

/// The slots of a well-formed wheel of layer `n` are exactly the paths of
/// `n` indices, each below 256; its rings of 256 slots are the paths of
/// `n - 1` such indices, and its rings of wheels the paths of fewer indices.
/// No task sits outside a slot.
pub proof fn law_slots_are_valid_paths<T>(w: Wheel<T>)
    where T: Fn() -> u32 + 'static
    requires
        w.wf(),
    ensures
        w.depth() >= 1,
        forall|path: Seq<int>| #[trigger] w.has_slot(path) <==> valid_path(w.depth(), path),
        forall|path: Seq<int>| #[trigger] w.has_ring(path) <==> valid_path((w.depth() - 1) as nat, path),
        forall|path: Seq<int>|
            #[trigger] w.has_node(path) <==> path.len() + 1 < w.depth() && valid_path(path.len(), path),
        forall|path: Seq<int>| !w.has_slot(path) ==> #[trigger] w.at(path) is None,
    decreases w,
{
    lemma_wheel_depth(w);
    assert forall|path: Seq<int>| #[trigger] w.has_slot(path) <==> valid_path(w.depth(), path) by {
        lemma_shape_at(w, path);
    }
    assert forall|path: Seq<int>| #[trigger] w.has_ring(path) <==> valid_path((w.depth() - 1) as nat, path) by {
        lemma_shape_at(w, path);
    }
    assert forall|path: Seq<int>|
        #[trigger] w.has_node(path) <==> path.len() + 1 < w.depth() && valid_path(path.len(), path) by {
        lemma_shape_at(w, path);
    }
    assert forall|path: Seq<int>| !w.has_slot(path) implies #[trigger] w.at(path) is None by {
        lemma_shape_at(w, path);
    }
}

/// A well-formed wheel has a layer of at least 1.
proof fn lemma_wheel_depth<T>(w: Wheel<T>)
    where T: Fn() -> u32 + 'static
    requires
        w.wf(),
    ensures
        w.depth() >= 1,
{
}

/// What `law_slots_are_valid_paths` states, at one path.
proof fn lemma_shape_at<T>(w: Wheel<T>, path: Seq<int>)
    where T: Fn() -> u32 + 'static
    requires
        w.wf(),
    ensures
        w.has_slot(path) <==> valid_path(w.depth(), path),
        w.has_ring(path) <==> valid_path((w.depth() - 1) as nat, path),
        w.has_node(path) <==> path.len() + 1 < w.depth() && valid_path(path.len(), path),
        !w.has_slot(path) ==> w.at(path) is None,
    decreases w,
{
    match w {
        Wheel::Single(s) => {
            if valid_path(1, path) {
                assert(0 <= path[0] < 256);
            }
        },
        Wheel::Layered(t) => {
            if path.len() >= 1 && 0 <= path[0] < 256 {
                let sub = t.subwheel@[path[0]];
                assert(decreases_to!(w => t));
                let rest = path.drop_first();
                lemma_shape_at(sub, rest);
                lemma_valid_path_cons(path);
                assert(w.has_slot(path) == sub.has_slot(rest));
                assert(w.has_ring(path) == sub.has_ring(rest));
                assert(w.has_node(path) == sub.has_node(rest));
                assert(w.at(path) == sub.at(rest));
            } else if path.len() >= 1 {
                assert(!valid_path(path.len(), path));
            }
        },
    }
}

/// A path of at least one index is a path of indices below 256 exactly when
/// its first index is below 256 and the rest is such a path.
proof fn lemma_valid_path_cons(path: Seq<int>)
    requires
        path.len() >= 1,
    ensures
        valid_path(path.len(), path) <==> 0 <= path[0] < 256 && valid_path(
            path.drop_first().len(),
            path.drop_first(),
        ),
{
    let rest = path.drop_first();
    if valid_path(path.len(), path) {
        assert forall|k: int| 0 <= k < rest.len() implies 0 <= #[trigger] rest[k] < 256 by {
            assert(rest[k] == path[k + 1]);
        }
    }
    if 0 <= path[0] < 256 && valid_path(rest.len(), rest) {
        assert forall|k: int| 0 <= k < path.len() implies 0 <= #[trigger] path[k] < 256 by {
            if k > 0 {
                assert(path[k] == rest[k - 1]);
            }
        }
    }
}

/// A wheel of layer `depth` holds exactly the positions 0 up to 256 to the
/// power `depth` (its whole span of ticks).
pub proof fn law_fits_below_capacity(depth: nat, pos: int)
    requires
        depth >= 1,
    ensures
        fits(depth, pos) <==> 0 <= pos < place(depth),
    decreases depth,
{
    assert(place(1) == 256 * place(0));
    if depth > 1 {
        let s = span(depth);
        lemma_place_positive((depth - 1) as nat);
        assert(place(depth) == 256 * s);
        assert(0 <= pos % s < s) by (nonlinear_arith)
            requires
                s > 0,
        ;
        law_fits_below_capacity((depth - 1) as nat, pos % s);
        assert(0 <= pos ==> (pos / s < 256 <==> pos < 256 * s)) by (nonlinear_arith)
            requires
                s > 0,
        ;
    }
}

/// Two different positions that fit in a wheel name two different slots:
/// tasks appended at different positions never overwrite each other.
pub proof fn law_distinct_positions_distinct_slots(depth: nat, p: int, q: int)
    requires
        depth >= 1,
        fits(depth, p),
        fits(depth, q),
        p != q,
    ensures
        addr_path(depth, p) != addr_path(depth, q),
    decreases depth,
{
    if depth <= 1 {
        assert(addr_path(depth, p)[0] != addr_path(depth, q)[0]);
    } else {
        let s = span(depth);
        lemma_place_positive((depth - 1) as nat);
        let ap = addr_path((depth - 1) as nat, p % s);
        let aq = addr_path((depth - 1) as nat, q % s);
        if addr_path(depth, p) == addr_path(depth, q) {
            assert((seq![p / s] + ap)[0] == p / s);
            assert((seq![q / s] + aq)[0] == q / s);
            assert((seq![p / s] + ap).drop_first() =~= ap);
            assert((seq![q / s] + aq).drop_first() =~= aq);
            if p % s != q % s {
                law_distinct_positions_distinct_slots((depth - 1) as nat, p % s, q % s);
            }
            assert(p == q) by (nonlinear_arith)
                requires
                    s > 0,
                    p / s == q / s,
                    p % s == q % s,
            ;
        }
    }
}

/// The number whose base-256 digits, lowest first, are the indices of
/// `path`: `path[0] + 256 * path[1] + 256^2 * path[2] + ...`.
pub open spec fn low_first_number(path: Seq<int>) -> int
    decreases path.len(),
{
    if path.len() == 0 {
        0
    } else {
        path[0] + 256 * low_first_number(path.drop_first())
    }
}

/// `remove_task` reads an identifier as base-256 digits, lowest first, one
/// per layer from the outer ring in: on a wheel of layer `depth` it accepts
/// exactly the identifiers 0 up to 256 to the power `depth`, and the slot it
/// clears for one of them is the slot path whose digits spell it.
pub proof fn law_remove_reads_ids_low_byte_first(depth: nat, id: int)
    requires
        depth >= 1,
    ensures
        id_valid(depth, id) <==> 0 <= id < place(depth),
        id_valid(depth, id) ==> valid_path(depth, id_path(depth, id)),
        id_valid(depth, id) ==> low_first_number(id_path(depth, id)) == id,
    decreases depth,
{
    if depth <= 1 {
        assert(place(1) == 256 * place(0));
        let p = id_path(depth, id);
        assert(p.drop_first() =~= Seq::<int>::empty());
        assert(low_first_number(Seq::<int>::empty()) == 0);
    } else {
        let q = id / 256;
        let r = id % 256;
        let pd = place((depth - 1) as nat);
        law_remove_reads_ids_low_byte_first((depth - 1) as nat, q);
        assert(place(depth) == 256 * pd);
        assert(id == 256 * q + r && 0 <= r < 256) by {
            vstd::arithmetic::div_mod::lemma_fundamental_div_mod(id, 256);
        }
        assert((0 <= q < pd) <==> (0 <= id < 256 * pd)) by (nonlinear_arith)
            requires
                id == 256 * q + r,
                0 <= r < 256,
        ;
        if id_valid(depth, id) {
            let rest = id_path((depth - 1) as nat, q);
            let p = id_path(depth, id);
            assert(p == seq![r] + rest);
            assert(p.drop_first() =~= rest);
            assert(low_first_number(p) == r + 256 * low_first_number(rest));
            assert forall|k: int| 0 <= k < p.len() implies 0 <= #[trigger] p[k] < 256 by {
                if k > 0 {
                    assert(p[k] == rest[k - 1]);
                }
            }
        }
    }
}

/// The identifier whose digits, lowest first, spell a slot path names that
/// slot: `remove_task` of `path[0] + 256 * path[1] + ...` clears `path`.
pub proof fn law_remove_id_of_path(path: Seq<int>)
    requires
        path.len() >= 1,
        valid_path(path.len(), path),
    ensures
        id_valid(path.len(), low_first_number(path)),
        id_path(path.len(), low_first_number(path)) == path,
    decreases path.len(),
{
    let n = low_first_number(path);
    let rest = path.drop_first();
    if path.len() == 1 {
        assert(low_first_number(rest) == 0);
        assert(id_path(1, n) =~= path);
    } else {
        assert(valid_path(rest.len(), rest)) by {
            assert forall|i: int| 0 <= i < rest.len() implies 0 <= #[trigger] rest[i] < 256 by {
                assert(rest[i] == path[i + 1]);
            }
        }
        law_remove_id_of_path(rest);
        let m = low_first_number(rest);
        law_remove_reads_ids_low_byte_first(rest.len(), m);
        assert(0 <= path[0] < 256);
        assert(n == path[0] + 256 * m);
        assert(n / 256 == m && n % 256 == path[0]) by {
            vstd::arithmetic::div_mod::lemma_fundamental_div_mod_converse(n, 256, m, path[0]);
        }
        assert(id_path(path.len(), n) == seq![path[0]] + id_path(rest.len(), m));
        assert(path =~= seq![path[0]] + rest);
    }
}

/// The base-256 number that a path spells, with the innermost index plus
/// one as its most significant digit.
pub open spec fn path_number(path: Seq<int>) -> int
    decreases path.len(),
{
    if path.len() <= 1 {
        path[0] + 1
    } else {
        path[0] + 256 * path_number(path.drop_first())
    }
}

/// The largest `path_number` of a path of `len` indices.
pub open spec fn id_bound(len: nat) -> int
    decreases len,
{
    if len <= 1 {
        256
    } else {
        255 + 256 * id_bound((len - 1) as nat)
    }
}

/// In a wheel of at most 7 layers the identifier reported for a placed task
/// is the exact number that its path spells, and is never 0.
pub proof fn law_ids_exact(path: Seq<int>)
    requires
        1 <= path.len() <= 7,
        valid_path(path.len(), path),
    ensures
        reported_id(path) == path_number(path),
        reported_id(path) > 0,
    decreases path.len(),
{
    lemma_path_number_bounds(path);
    if path.len() > 1 {
        let rest = path.drop_first();
        assert(valid_path(rest.len(), rest)) by {
            assert forall|i: int| 0 <= i < rest.len() implies 0 <= #[trigger] rest[i] < 256 by {
                assert(rest[i] == path[i + 1]);
            }
        }
        law_ids_exact(rest);
        lemma_path_number_bounds(rest);
        lemma_id_bound_small((rest.len()) as nat);
        assert(path[0] + 256 * path_number(rest) < 0x1_0000_0000_0000_0000);
    }
}

/// The number of ticks that a cursor stands for: its indices read as a
/// base-256 number, the first index most significant.
pub open spec fn tick_count(c: Seq<int>) -> int
    decreases c.len(),
{
    if c.len() == 0 {
        0
    } else {
        c[0] * place((c.len() - 1) as nat) + tick_count(c.drop_first())
    }
}

/// 256 to the power `k`.
pub open spec fn place(k: nat) -> int
    decreases k,
{
    if k == 0 {
        1
    } else {
        256 * place((k - 1) as nat)
    }
}

/// Each tick moves the cursor one step on a base-256 counter that wraps
/// after 256 to the power of the layer: a wheel visits each of its slots
/// once per full turn, in order.
pub proof fn law_tick_counts_up(c: Seq<int>)
    requires
        c.len() >= 1,
        valid_path(c.len(), c),
    ensures
        valid_path(c.len(), next_cursor(c)),
        tick_count(next_cursor(c)) == (tick_count(c) + 1) % place(c.len()),
    decreases c.len(),
{
    let n = next_cursor(c);
    if c.len() == 1 {
        assert(n.drop_first() =~= Seq::<int>::empty());
        assert(c.drop_first() =~= Seq::<int>::empty());
        assert(tick_count(Seq::<int>::empty()) == 0);
        assert(place(0) == 1);
        assert(place(1) == 256);
        assert(n[0] == (c[0] + 1) % 256);
        assert(tick_count(n) == n[0]);
        assert(tick_count(c) == c[0]);
        assert forall|i: int| 0 <= i < n.len() implies 0 <= #[trigger] n[i] < 256 by {}
    } else {
        let r = c.drop_first();
        let t = next_cursor(r);
        let k = r.len();
        let pk = place(k);
        assert(valid_path(k, r)) by {
            assert forall|i: int| 0 <= i < r.len() implies 0 <= #[trigger] r[i] < 256 by {
                assert(r[i] == c[i + 1]);
            }
        }
        law_tick_counts_up(r);
        lemma_tick_count_bounds(r);
        lemma_tick_count_bounds(t);
        lemma_tick_count_zero(t);
        lemma_place_positive(k);
        assert(place(c.len()) == 256 * pk);
        let c0 = c[0];
        assert(0 <= c0 < 256);
        if all_zero(t) {
            let head = (c0 + 1) % 256;
            assert(n == seq![head] + t);
            assert((seq![head] + t).drop_first() =~= t);
            assert(tick_count(n) == head * pk + tick_count(t));
            assert(tick_count(t) == 0);
            assert(tick_count(r) + 1 == pk) by (nonlinear_arith)
                requires
                    tick_count(t) == (tick_count(r) + 1) % pk,
                    tick_count(t) == 0,
                    0 <= tick_count(r) < pk,
            ;
            assert(tick_count(c) == c0 * pk + tick_count(r));
            assert(head * pk == (c0 * pk + tick_count(r) + 1) % (256 * pk)) by (nonlinear_arith)
                requires
                    0 <= c0 < 256,
                    head == (c0 + 1) % 256,
                    tick_count(r) + 1 == pk,
                    pk > 0,
            ;
            assert forall|i: int| 0 <= i < n.len() implies 0 <= #[trigger] n[i] < 256 by {
                if i > 0 {
                    assert(n[i] == t[i - 1]);
                }
            }
        } else {
            assert(n == seq![c0] + t);
            assert((seq![c0] + t).drop_first() =~= t);
            assert(tick_count(n) == c0 * pk + tick_count(t));
            assert(tick_count(t) == tick_count(r) + 1) by (nonlinear_arith)
                requires
                    tick_count(t) == (tick_count(r) + 1) % pk,
                    tick_count(t) != 0,
                    0 <= tick_count(r) < pk,
            ;
            assert(tick_count(c) == c0 * pk + tick_count(r));
            assert(c0 * pk + tick_count(t) == (c0 * pk + tick_count(r) + 1) % (256 * pk)) by (nonlinear_arith)
                requires
                    0 <= c0 < 256,
                    tick_count(t) == tick_count(r) + 1,
                    0 <= tick_count(t) < pk,
                    pk > 0,
            ;
            assert forall|i: int| 0 <= i < n.len() implies 0 <= #[trigger] n[i] < 256 by {
                if i > 0 {
                    assert(n[i] == t[i - 1]);
                }
            }
        }
    }
}

/// Position `pos` of a wheel names the slot that the cursor stands on at
/// tick `pos`: its path is a valid slot path whose tick count is `pos`.
pub proof fn law_position_is_tick(depth: nat, pos: int)
    requires
        depth >= 1,
        0 <= pos < place(depth),
    ensures
        valid_path(depth, addr_path(depth, pos)),
        tick_count(addr_path(depth, pos)) == pos,
    decreases depth,
{
    let a = addr_path(depth, pos);
    if depth <= 1 {
        assert(place(1) == 256 * place(0));
        assert(a.drop_first() =~= Seq::<int>::empty());
        assert(tick_count(Seq::<int>::empty()) == 0);
        assert(place(0) == 1);
    } else {
        let s = span(depth);
        lemma_place_positive((depth - 1) as nat);
        assert(place(depth) == 256 * s);
        let q = pos / s;
        let r = pos % s;
        assert(0 <= q < 256 && 0 <= r < s && pos == q * s + r) by (nonlinear_arith)
            requires
                s > 0,
                0 <= pos < 256 * s,
                q == pos / s,
                r == pos % s,
        ;
        law_position_is_tick((depth - 1) as nat, r);
        let t = addr_path((depth - 1) as nat, r);
        assert(a == seq![q] + t);
        assert(a.drop_first() =~= t);
        assert forall|i: int| 0 <= i < a.len() implies 0 <= #[trigger] a[i] < 256 by {
            if i > 0 {
                assert(a[i] == t[i - 1]);
            }
        }
    }
}

/// The paths of `n` indices, each below 256.
pub open spec fn paths_of_len(n: nat) -> Set<Seq<int>> {
    Set::new(|p: Seq<int>| valid_path(n, p))
}

/// The paths of fewer than `m` indices, each below 256.
pub open spec fn paths_shorter_than(m: nat) -> Set<Seq<int>> {
    Set::new(|p: Seq<int>| p.len() < m && valid_path(p.len(), p))
}

/// There are 256 to the power `n` paths of `n` indices below 256: the
/// positions below that bound name each of them once.
pub proof fn law_path_count(n: nat)
    ensures
        paths_of_len(n).finite(),
        paths_of_len(n).len() == place(n),
{
    if n == 0 {
        let e = Seq::<int>::empty();
        assert(paths_of_len(0) =~= Set::<Seq<int>>::empty().insert(e)) by {
            assert forall|p: Seq<int>| paths_of_len(0).contains(p) implies p == e by {
                assert(p =~= e);
            }
        }
    } else {
        let f = |x: int| addr_path(n, x);
        let r = vstd::set_lib::set_int_range(0, place(n));
        lemma_place_positive(n);
        vstd::set_lib::lemma_int_range(0, place(n));
        assert(vstd::relations::injective_on(f, r)) by {
            assert forall|x1: int, x2: int| r.contains(x1) && r.contains(x2) && #[trigger] f(x1) == #[trigger] f(
                x2,
            ) implies x1 == x2 by {
                law_position_is_tick(n, x1);
                law_position_is_tick(n, x2);
            }
        }
        assert(r.map(f) =~= paths_of_len(n)) by {
            assert forall|p: Seq<int>| paths_of_len(n).contains(p) implies r.map(f).contains(p) by {
                let x = tick_count(p);
                lemma_tick_count_bounds(p);
                law_position_is_tick(n, x);
                law_tick_count_injective(addr_path(n, x), p);
                assert(r.contains(x) && p == f(x));
            }
            assert forall|p: Seq<int>| r.map(f).contains(p) implies paths_of_len(n).contains(p) by {
                let x = choose|x: int| r.contains(x) && p == f(x);
                law_position_is_tick(n, x);
            }
        }
        vstd::set_lib::lemma_map_size(r, paths_of_len(n), f);
    }
}

/// There are 1 + 256 + ... + 256 to the power `m - 1` paths of fewer than
/// `m` indices below 256: 255 times their number is 256 to the power `m`,
/// less one.
pub proof fn law_short_path_count(m: nat)
    ensures
        paths_shorter_than(m).finite(),
        255 * paths_shorter_than(m).len() == place(m) - 1,
    decreases m,
{
    if m == 0 {
        assert(paths_shorter_than(0) =~= Set::<Seq<int>>::empty());
    } else {
        let k = (m - 1) as nat;
        law_short_path_count(k);
        law_path_count(k);
        assert(paths_shorter_than(m) =~= paths_shorter_than(k) + paths_of_len(k));
        assert(paths_shorter_than(k).disjoint(paths_of_len(k)));
        vstd::set_lib::lemma_set_disjoint_lens(paths_shorter_than(k), paths_of_len(k));
    }
}

/// A well-formed wheel of layer `n` has 256 to the power `n` slots, in 256
/// to the power `n - 1` rings of 256 slots (`SingleWheel`s), held by
/// `(256^(n-1) - 1) / 255` rings of wheels (`TimingWheel`s): none for layer
/// 1, 1 for layer 2, 257 for layer 3.
pub proof fn law_wheel_size<T>(w: Wheel<T>)
    where T: Fn() -> u32 + 'static
    requires
        w.wf(),
    ensures
        Set::new(|p: Seq<int>| w.has_slot(p)).finite(),
        Set::new(|p: Seq<int>| w.has_slot(p)).len() == place(w.depth()),
        Set::new(|p: Seq<int>| w.has_ring(p)).finite(),
        Set::new(|p: Seq<int>| w.has_ring(p)).len() == place((w.depth() - 1) as nat),
        Set::new(|p: Seq<int>| w.has_node(p)).finite(),
        255 * Set::new(|p: Seq<int>| w.has_node(p)).len() == place((w.depth() - 1) as nat) - 1,
{
    law_slots_are_valid_paths(w);
    let d = w.depth();
    law_path_count(d);
    law_path_count((d - 1) as nat);
    law_short_path_count((d - 1) as nat);
    assert(Set::new(|p: Seq<int>| w.has_slot(p)) =~= paths_of_len(d));
    assert(Set::new(|p: Seq<int>| w.has_ring(p)) =~= paths_of_len((d - 1) as nat));
    assert(Set::new(|p: Seq<int>| w.has_node(p)) =~= paths_shorter_than((d - 1) as nat));
}

/// Two slot paths of the same wheel with the same tick count are the same
/// path: each tick names one slot.
pub proof fn law_tick_count_injective(a: Seq<int>, b: Seq<int>)
    requires
        a.len() == b.len(),
        valid_path(a.len(), a),
        valid_path(b.len(), b),
        tick_count(a) == tick_count(b),
    ensures
        a == b,
    decreases a.len(),
{
    if a.len() > 0 {
        let ra = a.drop_first();
        let rb = b.drop_first();
        assert(valid_path(ra.len(), ra)) by {
            assert forall|i: int| 0 <= i < ra.len() implies 0 <= #[trigger] ra[i] < 256 by {
                assert(ra[i] == a[i + 1]);
            }
        }
        assert(valid_path(rb.len(), rb)) by {
            assert forall|i: int| 0 <= i < rb.len() implies 0 <= #[trigger] rb[i] < 256 by {
                assert(rb[i] == b[i + 1]);
            }
        }
        lemma_tick_count_bounds(ra);
        lemma_tick_count_bounds(rb);
        let pk = place(ra.len());
        lemma_place_positive(ra.len());
        let x = tick_count(ra);
        let y = tick_count(rb);
        assert(a[0] == b[0] && x == y) by (nonlinear_arith)
            requires
                a[0] * pk + x == b[0] * pk + y,
                0 <= x < pk,
                0 <= y < pk,
                pk > 0,
        ;
        law_tick_count_injective(ra, rb);
        assert(a =~= seq![a[0]] + ra);
        assert(b =~= seq![b[0]] + rb);
    }
}

/// The cursor after `k` ticks from cursor `c`.
pub open spec fn cursor_after_ticks(c: Seq<int>, k: nat) -> Seq<int>
    decreases k,
{
    if k == 0 {
        c
    } else {
        next_cursor(cursor_after_ticks(c, (k - 1) as nat))
    }
}

/// After `k` ticks the cursor's tick count has gone up by `k`, modulo the
/// wheel's span.
pub proof fn law_ticks_advance(c: Seq<int>, k: nat)
    requires
        c.len() >= 1,
        valid_path(c.len(), c),
    ensures
        valid_path(c.len(), cursor_after_ticks(c, k)),
        tick_count(cursor_after_ticks(c, k)) == (tick_count(c) + k) % place(c.len()),
    decreases k,
{
    let p = place(c.len());
    lemma_place_at_least(c.len());
    lemma_tick_count_bounds(c);
    if k == 0 {
        vstd::arithmetic::div_mod::lemma_small_mod(tick_count(c) as nat, p as nat);
    } else {
        let prev = cursor_after_ticks(c, (k - 1) as nat);
        law_ticks_advance(c, (k - 1) as nat);
        law_tick_counts_up(prev);
        vstd::arithmetic::div_mod::lemma_small_mod(1, p as nat);
        vstd::arithmetic::div_mod::lemma_add_mod_noop(tick_count(c) + k - 1, 1, p);
    }
}

/// From any cursor `c`, within one full turn of `256^depth` ticks, the
/// cursor stands on the slot of position `(tick_count(c) + g) % 256^depth`
/// after exactly `g` ticks and after no other number: a task placed there
/// runs during tick `g + 1`, once.
pub proof fn law_slot_visited_once(depth: nat, c: Seq<int>, g: nat, j: nat)
    requires
        depth >= 1,
        valid_path(depth, c),
        g < place(depth),
        j < place(depth),
    ensures
        fits(depth, (tick_count(c) + g) % place(depth)),
        (cursor_after_ticks(c, j) == addr_path(depth, (tick_count(c) + g) % place(depth))) <==> j == g,
{
    let p = place(depth);
    let t0 = tick_count(c);
    let pos = (t0 + g) % p;
    lemma_place_at_least(depth);
    lemma_tick_count_bounds(c);
    assert(0 <= pos < p) by (nonlinear_arith)
        requires
            p > 0,
            pos == (t0 + g) % p,
    ;
    law_fits_below_capacity(depth, pos);
    law_position_is_tick(depth, pos);
    law_ticks_advance(c, j);
    let cj = cursor_after_ticks(c, j);
    lemma_shift_mod_injective(t0, j as int, g as int, p);
    if cj == addr_path(depth, pos) {
        assert(tick_count(cj) == pos);
    }
    if j == g {
        law_tick_count_injective(cj, addr_path(depth, pos));
    }
}

/// A controller-style schedule: when the cursor stands at tick `crt`
/// modulo the span, a task placed at position `(crt + g) % span` is reached
/// after exactly `g` ticks, and after no other number within a full turn.
pub proof fn law_delay_runs_at_tick(depth: nat, c: Seq<int>, crt: int, g: nat, j: nat)
    requires
        depth >= 1,
        crt >= 0,
        valid_path(depth, c),
        tick_count(c) == (crt as int) % place(depth),
        g < place(depth),
        j < place(depth),
    ensures
        fits(depth, (crt + g as int) % place(depth)),
        (cursor_after_ticks(c, j) == addr_path(depth, (crt + g as int) % place(depth))) <==> j == g,
{
    let p = place(depth);
    lemma_place_at_least(depth);
    vstd::arithmetic::div_mod::lemma_small_mod(g, p as nat);
    vstd::arithmetic::div_mod::lemma_add_mod_noop(crt, g as int, p);
    law_slot_visited_once(depth, c, g, j);
}

/// What one tick (`ExecutableWheel::execute`) of a wheel does, as its
/// contract states it: the task under the cursor, if any, has run, its slot
/// is cleared, and the cursor has moved one step.
pub open spec fn ticked<T>(a: Wheel<T>, b: Wheel<T>) -> bool where T: Fn() -> u32 + 'static {
    &&& b.wf()
    &&& b.depth() == a.depth()
    &&& b.cursor() == next_cursor(a.cursor())
    &&& forall|path: Seq<int>|
        #[trigger] b.at(path) == if path == a.cursor() {
            None
        } else {
            a.at(path)
        }
    &&& a.at(a.cursor()) is Some ==> exists|status: u32|
        call_ensures(a.at(a.cursor())->0.__callback, (), status)
}

/// Successive ticks: `ws[j + 1]` comes from one call of `execute` on `ws[j]`.
pub open spec fn wheel_run<T>(ws: Seq<Wheel<T>>) -> bool where T: Fn() -> u32 + 'static {
    forall|j: int| 0 <= j < ws.len() - 1 ==> ticked(#[trigger] ws[j], ws[j + 1])
}

/// Along successive ticks the layer stays and the cursor advances one step
/// per tick.
proof fn lemma_run_cursor<T>(ws: Seq<Wheel<T>>, j: int)
    where T: Fn() -> u32 + 'static
    requires
        wheel_run(ws),
        0 <= j < ws.len(),
    ensures
        ws[j].depth() == ws[0].depth(),
        ws[j].cursor() == cursor_after_ticks(ws[0].cursor(), j as nat),
    decreases j,
{
    if j > 0 {
        lemma_run_cursor(ws, j - 1);
        assert(ticked(ws[j - 1], ws[j]));
    }
}

/// On a new wheel of layer `n >= 2`, the `k`-th tick returns 0 exactly when
/// `k` is a multiple of `256^n` (the wheel has made a full turn) and 1
/// otherwise; on a single wheel it returns `k % 256`, the new slot.
pub proof fn law_tick_results<T>(ws: Seq<Wheel<T>>, rs: Seq<u32>)
    where T: Fn() -> u32 + 'static
    requires
        wheel_run(ws),
        rs.len() == ws.len() - 1,
        forall|j: int|
            0 <= j < rs.len() ==> #[trigger] rs[j] == tick_result(ws[j].depth(), ws[j + 1].cursor()),
        ws[0].depth() >= 1,
        valid_path(ws[0].depth(), ws[0].cursor()),
        all_zero(ws[0].cursor()),
    ensures
        forall|k: int|
            1 <= k <= rs.len() ==> (#[trigger] rs[k - 1]) == if ws[0].depth() <= 1 {
                k % 256
            } else if k % place(ws[0].depth()) == 0 {
                0
            } else {
                1
            },
{
    assert forall|k: int| 1 <= k <= rs.len() implies (#[trigger] rs[k - 1]) == if ws[0].depth()
        <= 1 {
        k % 256
    } else if k % place(ws[0].depth()) == 0 {
        0
    } else {
        1
    } by {
        lemma_run_cursor(ws, k);
        lemma_tick_result_after(ws[0].depth(), ws[0].cursor(), k as nat);
    }
}

/// The value a tick returns once `k` ticks have been made from cursor 0.
proof fn lemma_tick_result_after(d: nat, c0: Seq<int>, k: nat)
    requires
        d >= 1,
        valid_path(d, c0),
        all_zero(c0),
    ensures
        tick_result(d, cursor_after_ticks(c0, k)) == if d <= 1 {
            (k as int) % 256
        } else if (k as int) % place(d) == 0 {
            0
        } else {
            1
        },
{
    lemma_tick_count_zero(c0);
    let c = cursor_after_ticks(c0, k);
    law_ticks_advance(c0, k);
    lemma_tick_count_zero(c);
    if d <= 1 {
        assert(place(1) == 256 * place(0));
        assert(place(0) == 1);
        assert(c.drop_first() =~= Seq::<int>::empty());
        assert(tick_count(Seq::<int>::empty()) == 0);
        assert(tick_count(c) == c[0]);
    }
}

/// A task waiting at the slot that lies `g` ticks ahead of the cursor
/// (`g` below the wheel's span) stays there until tick `g + 1`, runs during
/// that tick, is gone afterwards, and the cursor reaches its slot on no other
/// tick of the turn. On a new wheel (cursor at tick 0) the slot `g` ticks
/// ahead is that of position `g`.
pub proof fn law_task_runs_at_its_tick<T>(ws: Seq<Wheel<T>>, g: nat, t: WheelValue<T>)
    where T: Fn() -> u32 + 'static
    requires
        wheel_run(ws),
        ws.len() >= 1,
        ws[0].wf(),
        valid_path(ws[0].depth(), ws[0].cursor()),
        g < place(ws[0].depth()),
        ws[0].at(
            addr_path(ws[0].depth(), (tick_count(ws[0].cursor()) + g) % place(ws[0].depth())),
        ) == Some(t),
    ensures
        forall|j: int|
            0 <= j < ws.len() && j < place(ws[0].depth()) ==> (#[trigger] ws[j].cursor() == addr_path(
                ws[0].depth(),
                (tick_count(ws[0].cursor()) + g) % place(ws[0].depth()),
            ) <==> j == g),
        forall|j: int|
            0 <= j < ws.len() && j <= g ==> #[trigger] ws[j].at(
                addr_path(ws[0].depth(), (tick_count(ws[0].cursor()) + g) % place(ws[0].depth())),
            ) == Some(t),
        forall|j: int|
            g < j < ws.len() ==> #[trigger] ws[j].at(
                addr_path(ws[0].depth(), (tick_count(ws[0].cursor()) + g) % place(ws[0].depth())),
            ) is None,
        g + 1 < ws.len() ==> exists|status: u32| call_ensures(t.__callback, (), status),
{
    let d = ws[0].depth();
    let c0 = ws[0].cursor();
    let a = addr_path(d, (tick_count(c0) + g) % place(d));
    law_slots_are_valid_paths(ws[0]);
    assert forall|j: int| 0 <= j < ws.len() && j < place(d) implies (#[trigger] ws[j].cursor() == a
        <==> j == g) by {
        lemma_run_cursor(ws, j);
        law_slot_visited_once(d, c0, g, j as nat);
    }
    assert forall|j: int| 0 <= j < ws.len() && j <= g implies #[trigger] ws[j].at(a) == Some(t) by {
        lemma_slot_waits(ws, g, t, j);
    }
    assert forall|j: int| g < j < ws.len() implies #[trigger] ws[j].at(a) is None by {
        lemma_slot_cleared(ws, g, t, j);
    }
    if g + 1 < ws.len() {
        lemma_run_cursor(ws, g as int);
        law_slot_visited_once(d, c0, g, g);
        lemma_slot_waits(ws, g, t, g as int);
        assert(ticked(ws[g as int], ws[g as int + 1]));
    }
}

proof fn lemma_slot_waits<T>(ws: Seq<Wheel<T>>, g: nat, t: WheelValue<T>, j: int)
    where T: Fn() -> u32 + 'static
    requires
        wheel_run(ws),
        ws[0].wf(),
        valid_path(ws[0].depth(), ws[0].cursor()),
        g < place(ws[0].depth()),
        ws[0].at(
            addr_path(ws[0].depth(), (tick_count(ws[0].cursor()) + g) % place(ws[0].depth())),
        ) == Some(t),
        0 <= j < ws.len(),
        j <= g,
    ensures
        ws[j].at(addr_path(ws[0].depth(), (tick_count(ws[0].cursor()) + g) % place(ws[0].depth())))
            == Some(t),
    decreases j,
{
    if j > 0 {
        let d = ws[0].depth();
        lemma_slot_waits(ws, g, t, j - 1);
        lemma_run_cursor(ws, j - 1);
        law_slots_are_valid_paths(ws[0]);
        law_slot_visited_once(d, ws[0].cursor(), g, (j - 1) as nat);
        assert(ticked(ws[j - 1], ws[j]));
    }
}

proof fn lemma_slot_cleared<T>(ws: Seq<Wheel<T>>, g: nat, t: WheelValue<T>, j: int)
    where T: Fn() -> u32 + 'static
    requires
        wheel_run(ws),
        ws[0].wf(),
        valid_path(ws[0].depth(), ws[0].cursor()),
        g < place(ws[0].depth()),
        ws[0].at(
            addr_path(ws[0].depth(), (tick_count(ws[0].cursor()) + g) % place(ws[0].depth())),
        ) == Some(t),
        g < j < ws.len(),
    ensures
        ws[j].at(addr_path(ws[0].depth(), (tick_count(ws[0].cursor()) + g) % place(ws[0].depth())))
            is None,
    decreases j,
{
    let d = ws[0].depth();
    assert(ticked(ws[j - 1], ws[j]));
    if j - 1 > g {
        lemma_slot_cleared(ws, g, t, j - 1);
    } else {
        lemma_run_cursor(ws, j - 1);
        law_slots_are_valid_paths(ws[0]);
        law_slot_visited_once(d, ws[0].cursor(), g, g);
    }
}

// ---------------------------------------------------------------------------
// Lemmas
// ---------------------------------------------------------------------------

/// 256 to the power `k` fits in 57 bits for `k` up to 7.
pub proof fn lemma_place_small(k: nat)
    requires
        k <= 7,
    ensures
        place(k) <= 0x100_0000_0000_0000,
{
    assert(place(0) == 1);
    assert(place(1) == 0x100);
    assert(place(2) == 0x1_0000);
    assert(place(3) == 0x100_0000);
    assert(place(4) == 0x1_0000_0000);
    assert(place(5) == 0x100_0000_0000);
    assert(place(6) == 0x1_0000_0000_0000);
    assert(place(7) == 0x100_0000_0000_0000);
}

/// 256 to a positive power is at least 256.
pub proof fn lemma_place_at_least(k: nat)
    requires
        k >= 1,
    ensures
        place(k) >= 256,
    decreases k,
{
    assert(place(0) == 1);
    if k > 1 {
        lemma_place_at_least((k - 1) as nat);
    }
}

/// 256 to any power is positive.
pub proof fn lemma_place_positive(k: nat)
    ensures
        place(k) > 0,
    decreases k,
{
    if k > 0 {
        lemma_place_positive((k - 1) as nat);
    }
}

/// Adding a fixed offset modulo `p` is one-to-one on `0..p`.
proof fn lemma_shift_mod_injective(t0: int, a: int, b: int, p: int)
    requires
        0 <= t0 < p,
        0 <= a < p,
        0 <= b < p,
    ensures
        ((t0 + a) % p == (t0 + b) % p) <==> a == b,
{
    lemma_mod_once(t0 + a, p);
    lemma_mod_once(t0 + b, p);
}

/// The remainder of a number below `2p`.
proof fn lemma_mod_once(x: int, p: int)
    requires
        0 <= x < 2 * p,
        p > 0,
    ensures
        x % p == if x < p { x } else { x - p },
{
    if x < p {
        vstd::arithmetic::div_mod::lemma_small_mod(x as nat, p as nat);
    } else {
        vstd::arithmetic::div_mod::lemma_mod_add_multiples_vanish(x - p, p);
        vstd::arithmetic::div_mod::lemma_small_mod((x - p) as nat, p as nat);
    }
}

proof fn lemma_tick_count_bounds(c: Seq<int>)
    requires
        valid_path(c.len(), c),
    ensures
        0 <= tick_count(c) < place(c.len()),
    decreases c.len(),
{
    if c.len() > 0 {
        let r = c.drop_first();
        assert(valid_path(r.len(), r)) by {
            assert forall|i: int| 0 <= i < r.len() implies 0 <= #[trigger] r[i] < 256 by {
                assert(r[i] == c[i + 1]);
            }
        }
        lemma_tick_count_bounds(r);
        lemma_place_positive(r.len());
        let pk = place(r.len());
        assert(0 <= c[0] < 256);
        assert(0 <= c[0] * pk + tick_count(r) < 256 * pk) by (nonlinear_arith)
            requires
                0 <= c[0] < 256,
                0 <= tick_count(r) < pk,
        ;
    }
}

/// A cursor stands for tick 0 exactly when all its indices are 0.
pub proof fn lemma_tick_count_zero(c: Seq<int>)
    requires
        valid_path(c.len(), c),
    ensures
        tick_count(c) == 0 <==> all_zero(c),
    decreases c.len(),
{
    if c.len() > 0 {
        let r = c.drop_first();
        assert(valid_path(r.len(), r)) by {
            assert forall|i: int| 0 <= i < r.len() implies 0 <= #[trigger] r[i] < 256 by {
                assert(r[i] == c[i + 1]);
            }
        }
        lemma_tick_count_zero(r);
        lemma_tick_count_bounds(r);
        lemma_place_positive(r.len());
        let pk = place(r.len());
        assert(0 <= c[0]);
        assert(c[0] * pk + tick_count(r) == 0 <==> (c[0] == 0 && tick_count(r) == 0)) by (nonlinear_arith)
            requires
                0 <= c[0],
                0 <= tick_count(r),
                pk > 0,
        ;
        assert(c =~= seq![c[0]] + r);
        lemma_all_zero_cons(c[0], r);
    }
}

proof fn lemma_path_number_bounds(path: Seq<int>)
    requires
        path.len() >= 1,
        valid_path(path.len(), path),
    ensures
        1 <= path_number(path) <= id_bound(path.len()),
    decreases path.len(),
{
    if path.len() > 1 {
        let rest = path.drop_first();
        assert(valid_path(rest.len(), rest)) by {
            assert forall|i: int| 0 <= i < rest.len() implies 0 <= #[trigger] rest[i] < 256 by {
                assert(rest[i] == path[i + 1]);
            }
        }
        lemma_path_number_bounds(rest);
        assert(0 <= path[0] < 256);
    }
}

proof fn lemma_id_bound_small(len: nat)
    requires
        len <= 6,
    ensures
        255 + 256 * id_bound(len) < 0x1_0000_0000_0000_0000,
        id_bound(len) >= 1,
{
    assert(id_bound(0) == 256);
    assert(id_bound(1) == 256);
    assert(id_bound(2) == 65791);
    assert(id_bound(3) == 16842751);
    assert(id_bound(4) == 4311744511);
    assert(id_bound(5) == 1103806595071);
    assert(id_bound(6) == 282574488338431);
}
proof fn lemma_next_cursor_len(c: Seq<int>)
    requires
        c.len() >= 1,
    ensures
        next_cursor(c).len() == c.len(),
    decreases c.len(),
{
    if c.len() > 1 {
        lemma_next_cursor_len(c.drop_first());
    }
}

/// Ticking a layered cursor ticks the inner part and carries when it wraps.
proof fn lemma_next_cursor_cons(p: int, c: Seq<int>)
    requires
        c.len() >= 1,
    ensures
        next_cursor(seq![p] + c) == if all_zero(next_cursor(c)) {
            seq![(p + 1) % 256] + next_cursor(c)
        } else {
            seq![p] + next_cursor(c)
        },
{
    assert((seq![p] + c).drop_first() =~= c);
}

proof fn lemma_tick_result_zero(depth: nat, c: Seq<int>)
    requires
        depth >= 1,
        c.len() == depth,
    ensures
        tick_result(depth, c) == 0 <==> all_zero(c),
{
}

proof fn lemma_all_zero_eq(a: Seq<int>, b: Seq<int>)
    requires
        all_zero(a),
        all_zero(b),
        a.len() == b.len(),
    ensures
        a == b,
{
    assert(a =~= b);
}

proof fn lemma_all_zero_cons(p: int, c: Seq<int>)
    ensures
        all_zero(seq![p] + c) <==> (p == 0 && all_zero(c)),
{
    let s = seq![p] + c;
    if p == 0 && all_zero(c) {
        assert forall|i: int| 0 <= i < s.len() implies s[i] == 0 by {
            if i > 0 {
                assert(s[i] == c[i - 1]);
            }
        }
    }
    if all_zero(s) {
        assert(s[0] == p);
        assert forall|i: int| 0 <= i < c.len() implies c[i] == 0 by {
            assert(s[i + 1] == c[i]);
        }
    }
}

proof fn lemma_addr_path_len(depth: nat, pos: int)
    ensures
        addr_path(depth, pos).len() == if depth <= 1 { 1 } else { depth },
    decreases depth,
{
    if depth > 1 {
        lemma_addr_path_len((depth - 1) as nat, pos % span(depth));
    }
}

proof fn lemma_shift_or(id: u64, idx: u64)
    requires
        idx < 256,
    ensures
        (id << 8) | idx == ((idx + 256 * id) % 0x1_0000_0000_0000_0000) as u64,
{
    assert((id << 8) | idx == ((idx + 256 * id) % 0x1_0000_0000_0000_0000) as u64) by (bit_vector)
        requires
            idx < 256,
    ;
}

proof fn lemma_low_byte(id: u64)
    ensures
        id & 0x00FF == id % 256,
        id >> 8 == id / 256,
        id & 0x00FF < 256,
{
    assert(id & 0x00FF == id % 256) by (bit_vector);
    assert(id >> 8 == id / 256) by (bit_vector);
}

} // verus!

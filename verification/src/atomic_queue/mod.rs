//! A first-in first-out queue.
//!
//! Producers add values at the back with `emplace`; consumers take the front
//! value with `pop`, or drain every value in arrival order with `consume_all`.
//! Every operation takes the queue by `&mut`, so callers that share a queue
//! between threads hold it behind their own lock.

use std::collections::VecDeque;
use vstd::prelude::*;

verus! {

/// What `pop` gives back on a queue holding `s`: the front value, if any,
/// and the contents left behind.
pub open spec fn pop_result<T>(s: Seq<T>) -> (Option<T>, Seq<T>) {
    if s.len() == 0 {
        (None, s)
    } else {
        (Some(s[0]), s.drop_first())
    }
}

/// A first-in first-out queue of values of type `T`.
pub struct Queue<T> {
    items: VecDeque<T>,
}

impl<T> View for Queue<T> {
    type V = Seq<T>;

    /// The values in the queue, front first.
    closed spec fn view(&self) -> Seq<T> {
        self.items@
    }
}

impl<T> Queue<T> {
    /// An empty queue.
    pub fn new() -> (q: Self)
        ensures
            q@ == Seq::<T>::empty(),
    {
        Queue { items: VecDeque::new() }
    }

    /// Adds `val` at the back of the queue.
    pub fn emplace(&mut self, val: T)
        ensures
            final(self)@ == old(self)@.push(val),
    {
        self.items.push_back(val);
    }

    /// Hands every value of the queue to `callback`, front first, and leaves
    /// the queue empty. Returns how many values were handed over.
    pub fn consume_all(&mut self, callback: impl Fn(T)) -> (count: usize)
        requires
            forall|i: int|
                #![trigger old(self)@[i]]
                0 <= i < old(self)@.len() ==> call_requires(callback, (old(self)@[i],)),
        ensures
            count == old(self)@.len(),
            final(self)@ == Seq::<T>::empty(),
            forall|i: int|
                #![trigger old(self)@[i]]
                0 <= i < old(self)@.len() ==> call_ensures(callback, (old(self)@[i],), ()),
    {
        let ghost s = self@;
        let n = self.items.len();
        let mut ret: usize = 0;
        loop
            invariant
                ret <= s.len(),
                s.len() == n,
                self@ == s.subrange(ret as int, s.len() as int),
                forall|i: int| #![trigger s[i]] 0 <= i < s.len() ==> call_requires(callback, (s[i],)),
                forall|i: int| #![trigger s[i]] 0 <= i < ret ==> call_ensures(callback, (s[i],), ()),
            ensures
                ret == s.len(),
                self@ == Seq::<T>::empty(),
                forall|i: int| #![trigger s[i]] 0 <= i < s.len() ==> call_ensures(callback, (s[i],), ()),
            decreases s.len() - ret,
        {
            match self.items.pop_front() {
                Some(val) => {
                    assert(val == s[ret as int]);
                    callback(val);
                    ret = ret + 1;
                },
                None => {
                    break ;
                },
            }
        }
        ret
    }

    /// Removes and returns the front value, or returns `None` when the queue
    /// is empty.
    pub fn pop(&mut self) -> (r: Option<T>)
        ensures
            (r, final(self)@) == pop_result(old(self)@),
    {
        let r = self.items.pop_front();
        proof {
            if old(self)@.len() > 0 {
                assert(self@ =~= old(self)@.drop_first());
            }
        }
        r
    }
}

/// Emplacing and popping commute on a non-empty queue, and a value emplaced
/// into an empty queue is the next one popped: the queue is first in, first out.
pub proof fn law_emplace_then_pop<T>(s: Seq<T>, v: T)
    ensures
        pop_result(s.push(v)) == (if s.len() == 0 {
            (Some(v), s)
        } else {
            (pop_result(s).0, pop_result(s).1.push(v))
        }),
{
    if s.len() == 0 {
        assert(s.push(v).drop_first() =~= s);
    } else {
        assert(s.push(v).drop_first() =~= s.drop_first().push(v));
    }
}

/// The contents after emplacing the values of `vs`, in order, onto a queue
/// holding `s`.
pub open spec fn emplace_all<T>(s: Seq<T>, vs: Seq<T>) -> Seq<T>
    decreases vs.len(),
{
    if vs.len() == 0 {
        s
    } else {
        emplace_all(s.push(vs[0]), vs.drop_first())
    }
}

/// What `n` successive calls of `pop` return on a queue holding `s`.
pub open spec fn pop_n<T>(s: Seq<T>, n: nat) -> Seq<Option<T>>
    decreases n,
{
    if n == 0 {
        Seq::empty()
    } else {
        seq![pop_result(s).0] + pop_n(pop_result(s).1, (n - 1) as nat)
    }
}

/// Emplacing `v1, ..., vn` into an empty queue and then popping `n + 1`
/// times returns `Some(v1), ..., Some(vn)` in that order, then `None`.
pub proof fn law_pops_in_emplace_order<T>(vs: Seq<T>)
    ensures
        emplace_all(Seq::<T>::empty(), vs) == vs,
        pop_n(vs, vs.len() + 1) == vs.map_values(|v: T| Some(v)).push(None),
    decreases vs.len(),
{
    lemma_emplace_all(Seq::<T>::empty(), vs);
    assert(Seq::<T>::empty() + vs =~= vs);
    if vs.len() == 0 {
        assert(pop_n(vs, 0) =~= Seq::<Option<T>>::empty());
        assert(pop_n(vs, 1) =~= seq![None::<T>]);
        assert(vs.map_values(|v: T| Some(v)).push(None) =~= seq![None::<T>]);
    } else {
        let rest = vs.drop_first();
        law_pops_in_emplace_order(rest);
        assert(pop_result(vs) == (Some(vs[0]), rest));
        assert(pop_n(vs, vs.len() + 1) == seq![Some(vs[0])] + pop_n(rest, rest.len() + 1));
        assert(vs.map_values(|v: T| Some(v)).push(None) =~= seq![Some(vs[0])] + rest.map_values(
            |v: T| Some(v),
        ).push(None));
    }
}

proof fn lemma_emplace_all<T>(s: Seq<T>, vs: Seq<T>)
    ensures
        emplace_all(s, vs) == s + vs,
    decreases vs.len(),
{
    if vs.len() > 0 {
        lemma_emplace_all(s.push(vs[0]), vs.drop_first());
        assert(s.push(vs[0]) + vs.drop_first() =~= s + vs);
    }
}

} // verus!

//! Fixed-capacity rolling buffers used by the model's rolling statistics.
//!
//! `Ring<T>` keeps the last `cap` pushed values; `TimedRing<T>` keeps the last
//! `cap` pushed `(timestamp, value)` pairs. Both are modelled by the sequence
//! of retained items, oldest first.
use vstd::prelude::*;

verus! {

/// The items a capacity-`cap` window retains after pushing `x` onto `held`.
pub open spec fn window_after_push<A>(held: Seq<A>, cap: nat, x: A) -> Seq<A> {
    if held.len() < cap {
        held.push(x)
    } else {
        held.drop_first().push(x)
    }
}

/// The last `n` items of `held` (all of them when `n` exceeds its length).
pub open spec fn last_n<A>(held: Seq<A>, n: nat) -> Seq<A> {
    if n >= held.len() {
        held
    } else {
        held.subrange(held.len() - n, held.len() as int)
    }
}

/// The items retained after pushing `items`, in order, onto an empty
/// window of capacity `cap`.
pub open spec fn window_after_pushes<A>(cap: nat, items: Seq<A>) -> Seq<A>
    decreases items.len(),
{
    if items.len() == 0 {
        Seq::empty()
    } else {
        window_after_push(window_after_pushes(cap, items.drop_last()), cap, items.last())
    }
}

/// A window of positive capacity `cap` that starts empty holds, after any
/// sequence of pushes, exactly the last `cap` pushed items, oldest first.
pub proof fn window_keeps_last_pushed<A>(cap: nat, items: Seq<A>)
    requires
        cap > 0,
    ensures
        window_after_pushes(cap, items) == last_n(items, cap),
    decreases items.len(),
{
    if items.len() > 0 {
        let p = items.drop_last();
        window_keeps_last_pushed(cap, p);
        let x = items.last();
        if p.len() < cap {
            assert(items =~= p.push(x));
        } else {
            assert(last_n(p, cap).drop_first().push(x) =~= items.subrange(
                items.len() - cap,
                items.len() as int,
            ));
        }
    }
}

/// Rolling fixed-capacity ring buffer.
pub struct Ring<T> {
    buf: Vec<T>,
    cap: usize,
    head: usize,
    len: usize,
}

impl<T: Copy> Ring<T> {
    /// The retained items, oldest first.
    pub closed spec fn view(&self) -> Seq<T> {
        if self.len < self.cap {
            self.buf@
        } else {
            self.buf@.subrange(self.head as int, self.cap as int) + self.buf@.subrange(
                0,
                self.head as int,
            )
        }
    }

    pub closed spec fn capacity(&self) -> nat {
        self.cap as nat
    }

    /// Internal consistency of the storage.
    pub closed spec fn well_formed(&self) -> bool {
        &&& self.cap > 0
        &&& self.len <= self.cap
        &&& self.head < self.cap
        &&& if self.len < self.cap {
            self.buf@.len() == self.len && self.head == self.len
        } else {
            self.buf@.len() == self.cap
        }
    }

    /// Physical slot of the `i`-th oldest item.
    spec fn slot(&self, i: int) -> int {
        if self.len < self.cap {
            i
        } else if i < self.cap - self.head {
            self.head + i
        } else {
            i - (self.cap - self.head)
        }
    }

    proof fn lemma_slot(&self, i: int)
        requires
            self.well_formed(),
            0 <= i < self.len,
        ensures
            0 <= self.slot(i) < self.buf@.len(),
            self.buf@[self.slot(i)] == self.view()[i],
    {
    }

    fn slot_exec(&self, i: usize) -> (r: usize)
        requires
            self.well_formed(),
            i < self.len,
        ensures
            r == self.slot(i as int),
    {
        if self.len < self.cap {
            i
        } else if i < self.cap - self.head {
            self.head + i
        } else {
            i - (self.cap - self.head)
        }
    }

    /// Creates an empty ring holding at most `cap` items.
    pub fn new(cap: usize) -> (r: Self)
        requires
            cap > 0,
        ensures
            r.well_formed(),
            r.view() == Seq::<T>::empty(),
            r.capacity() == cap,
    {
        Ring { buf: Vec::new(), cap, head: 0, len: 0 }
    }

    /// Appends `x`, evicting the oldest item when the ring is full.
    pub fn push(&mut self, x: T)
        requires
            old(self).well_formed(),
        ensures
            final(self).well_formed(),
            final(self).capacity() == old(self).capacity(),
            final(self).view() == window_after_push(old(self).view(), old(self).capacity(), x),
    {
        if self.len < self.cap {
            self.buf.push(x);
            self.len = self.len + 1;
            self.head = if self.len == self.cap { 0 } else { self.len };
            proof {
                let v = self.buf@;
                if self.len == self.cap {
                    assert(v.subrange(0, self.cap as int) =~= v);
                    assert(v.subrange(0, 0) =~= Seq::<T>::empty());
                    assert(v.subrange(0, self.cap as int) + v.subrange(0, 0) =~= v);
                }
            }
        } else {
            let ghost before = self.view();
            let h = self.head;
            self.buf.set(h, x);
            self.head = if h + 1 == self.cap { 0 } else { h + 1 };
            proof {
                let c = self.cap as int;
                let b = self.buf@;
                let nh = self.head as int;
                assert(before.drop_first().push(x) =~= b.subrange(nh, c) + b.subrange(0, nh)) by {
                    assert forall|k: int| 0 <= k < c implies #[trigger] (b.subrange(nh, c) + b.subrange(
                        0,
                        nh,
                    ))[k] == before.drop_first().push(x)[k] by {
                        if k < c - 1 {
                            if h + 1 + k < c {
                                assert(before[k + 1] == old(self).buf@[h + 1 + k]);
                            } else {
                                assert(before[k + 1] == old(self).buf@[h + 1 + k - c]);
                            }
                        }
                    }
                }
            }
        }
    }

    /// Number of retained items.
    pub fn len(&self) -> (r: usize)
        requires
            self.well_formed(),
        ensures
            r == self.view().len(),
    {
        self.len
    }

    /// True once `capacity()` items are retained.
    pub fn is_full(&self) -> (r: bool)
        requires
            self.well_formed(),
        ensures
            r == (self.view().len() == self.capacity()),
    {
        self.len == self.cap
    }

    /// Forgets every retained item.
    pub fn clear(&mut self)
        requires
            old(self).well_formed(),
        ensures
            final(self).well_formed(),
            final(self).capacity() == old(self).capacity(),
            final(self).view() == Seq::<T>::empty(),
    {
        self.buf.clear();
        self.head = 0;
        self.len = 0;
    }

    /// The oldest retained item.
    pub fn oldest(&self) -> (r: Option<T>)
        requires
            self.well_formed(),
        ensures
            r == (if self.view().len() == 0 {
                None
            } else {
                Some(self.view()[0])
            }),
    {
        if self.len == 0 {
            return None;
        }
        proof {
            self.lemma_slot(0);
        }
        let idx = self.slot_exec(0);
        Some(self.buf[idx])
    }

    /// The most recently pushed item.
    pub fn newest(&self) -> (r: Option<T>)
        requires
            self.well_formed(),
        ensures
            r == (if self.view().len() == 0 {
                None
            } else {
                Some(self.view().last())
            }),
    {
        if self.len == 0 {
            return None;
        }
        proof {
            self.lemma_slot(self.len - 1);
        }
        let idx = self.slot_exec(self.len - 1);
        Some(self.buf[idx])
    }

    /// The `i`-th oldest retained item.
    pub fn get(&self, i: usize) -> (r: T)
        requires
            self.well_formed(),
            i < self.view().len(),
        ensures
            r == self.view()[i as int],
    {
        proof {
            self.lemma_slot(i as int);
        }
        let idx = self.slot_exec(i);
        self.buf[idx]
    }

    /// The last `n` retained items, oldest first.
    pub fn last_n(&self, n: usize) -> (r: Vec<T>)
        requires
            self.well_formed(),
        ensures
            r@ == last_n(self.view(), n as nat),
    {
        let n = if n < self.len { n } else { self.len };
        let start = self.len - n;
        let mut out: Vec<T> = Vec::new();
        let mut i = start;
        while i < self.len
            invariant
                self.well_formed(),
                start <= i <= self.len,
                start == self.len - n,
                n <= self.len,
                out@ =~= self.view().subrange(start as int, i as int),
            decreases self.len - i,
        {
            let v = self.get(i);
            out.push(v);
            i = i + 1;
        }
        proof {
            if n == self.len {
                assert(self.view().subrange(0, self.len as int) =~= self.view());
            }
        }
        out
    }
}

/// Rolling fixed-capacity buffer of timestamped values.
pub struct TimedRing<T> {
    ts_ns: Vec<i64>,
    values: Vec<T>,
    cap: usize,
    head: usize,
    len: usize,
}

impl<T: Copy> TimedRing<T> {
    /// The retained `(timestamp, value)` pairs, oldest first.
    pub closed spec fn view(&self) -> Seq<(i64, T)> {
        let pairs = Seq::new(self.ts_ns@.len(), |k: int| (self.ts_ns@[k], self.values@[k]));
        if self.len < self.cap {
            pairs
        } else {
            pairs.subrange(self.head as int, self.cap as int) + pairs.subrange(0, self.head as int)
        }
    }

    pub closed spec fn capacity(&self) -> nat {
        self.cap as nat
    }

    pub closed spec fn well_formed(&self) -> bool {
        &&& self.cap > 0
        &&& self.len <= self.cap
        &&& self.head < self.cap
        &&& self.ts_ns@.len() == self.values@.len()
        &&& if self.len < self.cap {
            self.ts_ns@.len() == self.len && self.head == self.len
        } else {
            self.ts_ns@.len() == self.cap
        }
    }

    spec fn pair_at(&self, k: int) -> (i64, T) {
        (self.ts_ns@[k], self.values@[k])
    }

    spec fn slot(&self, i: int) -> int {
        if self.len < self.cap {
            i
        } else if i < self.cap - self.head {
            self.head + i
        } else {
            i - (self.cap - self.head)
        }
    }

    proof fn lemma_slot(&self, i: int)
        requires
            self.well_formed(),
            0 <= i < self.len,
        ensures
            self.view().len() == self.len,
            0 <= self.slot(i) < self.ts_ns@.len(),
            self.pair_at(self.slot(i)) == self.view()[i],
    {
    }

    fn slot_exec(&self, i: usize) -> (r: usize)
        requires
            self.well_formed(),
            i < self.len,
        ensures
            r == self.slot(i as int),
    {
        if self.len < self.cap {
            i
        } else if i < self.cap - self.head {
            self.head + i
        } else {
            i - (self.cap - self.head)
        }
    }

    /// Creates an empty ring holding at most `cap` pairs.
    pub fn new(cap: usize) -> (r: Self)
        requires
            cap > 0,
        ensures
            r.well_formed(),
            r.view() == Seq::<(i64, T)>::empty(),
            r.capacity() == cap,
    {
        let r = TimedRing { ts_ns: Vec::new(), values: Vec::new(), cap, head: 0, len: 0 };
        assert(r.view() =~= Seq::<(i64, T)>::empty());
        r
    }

    /// Appends `(ts_ns, value)`, evicting the oldest pair when full.
    pub fn push(&mut self, ts_ns: i64, value: T)
        requires
            old(self).well_formed(),
        ensures
            final(self).well_formed(),
            final(self).capacity() == old(self).capacity(),
            final(self).view() == window_after_push(
                old(self).view(),
                old(self).capacity(),
                (ts_ns, value),
            ),
    {
        let ghost before = self.view();
        if self.len < self.cap {
            self.ts_ns.push(ts_ns);
            self.values.push(value);
            self.len = self.len + 1;
            self.head = if self.len == self.cap { 0 } else { self.len };
            proof {
                let pairs = Seq::new(
                    self.ts_ns@.len(),
                    |k: int| (self.ts_ns@[k], self.values@[k]),
                );
                assert(pairs =~= before.push((ts_ns, value)));
                if self.len == self.cap {
                    assert(pairs.subrange(0, self.cap as int) + pairs.subrange(0, 0) =~= pairs);
                }
            }
        } else {
            let h = self.head;
            self.ts_ns.set(h, ts_ns);
            self.values.set(h, value);
            self.head = if h + 1 == self.cap { 0 } else { h + 1 };
            proof {
                let c = self.cap as int;
                let nh = self.head as int;
                let pairs = Seq::new(
                    self.ts_ns@.len(),
                    |k: int| (self.ts_ns@[k], self.values@[k]),
                );
                let old_pairs = Seq::new(
                    old(self).ts_ns@.len(),
                    |k: int| (old(self).ts_ns@[k], old(self).values@[k]),
                );
                assert(before.drop_first().push((ts_ns, value)) =~= pairs.subrange(nh, c)
                    + pairs.subrange(0, nh)) by {
                    assert forall|k: int| 0 <= k < c implies #[trigger] (pairs.subrange(nh, c)
                        + pairs.subrange(0, nh))[k] == before.drop_first().push(
                        (ts_ns, value),
                    )[k] by {
                        if k < c - 1 {
                            if h + 1 + k < c {
                                assert(before[k + 1] == old_pairs[h + 1 + k]);
                            } else {
                                assert(before[k + 1] == old_pairs[h + 1 + k - c]);
                            }
                        }
                    }
                }
            }
        }
    }

    /// Forgets every retained pair.
    pub fn clear(&mut self)
        requires
            old(self).well_formed(),
        ensures
            final(self).well_formed(),
            final(self).capacity() == old(self).capacity(),
            final(self).view() == Seq::<(i64, T)>::empty(),
    {
        self.ts_ns.clear();
        self.values.clear();
        self.head = 0;
        self.len = 0;
        assert(self.view() =~= Seq::<(i64, T)>::empty());
    }

    /// Number of retained pairs.
    pub fn len(&self) -> (r: usize)
        requires
            self.well_formed(),
        ensures
            r == self.view().len(),
    {
        proof {
            if self.len > 0 {
                self.lemma_slot(0);
            } else {
                assert(self.view().len() == 0);
            }
        }
        self.len
    }

    /// The `i`-th oldest retained pair.
    pub fn get(&self, i: usize) -> (r: (i64, T))
        requires
            self.well_formed(),
            i < self.view().len(),
        ensures
            r == self.view()[i as int],
    {
        proof {
            if self.len == 0 {
                assert(self.view().len() == 0);
            }
            self.lemma_slot(i as int);
        }
        let idx = self.slot_exec(i);
        (self.ts_ns[idx], self.values[idx])
    }

    /// The most recently pushed pair.
    pub fn newest(&self) -> (r: Option<(i64, T)>)
        requires
            self.well_formed(),
        ensures
            r == (if self.view().len() == 0 {
                None
            } else {
                Some(self.view().last())
            }),
    {
        let n = self.len();
        if n == 0 {
            return None;
        }
        Some(self.get(n - 1))
    }

    /// Scans the retained pairs from the oldest towards the newest and returns
    /// the first one whose timestamp is at or before `target_ts_ns`.
    pub fn value_at_or_before(&self, target_ts_ns: i64) -> (r: Option<(i64, T)>)
        requires
            self.well_formed(),
        ensures
            match r {
                None => forall|k: int|
                    0 <= k < self.view().len() ==> #[trigger] self.view()[k].0 > target_ts_ns,
                Some(p) => exists|k: int|
                    0 <= k < self.view().len() && self.view()[k] == p && p.0 <= target_ts_ns
                        && forall|j: int| 0 <= j < k ==> #[trigger] self.view()[j].0 > target_ts_ns,
            },
    {
        let n = self.len();
        let mut i: usize = 0;
        while i < n
            invariant
                self.well_formed(),
                n == self.view().len(),
                i <= n,
                forall|j: int| 0 <= j < i ==> #[trigger] self.view()[j].0 > target_ts_ns,
            decreases n - i,
        {
            let p = self.get(i);
            if p.0 <= target_ts_ns {
                return Some(p);
            }
            i = i + 1;
        }
        None
    }
}

} // verus!

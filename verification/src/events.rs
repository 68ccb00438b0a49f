//! Batching of items, so that callers emit fewer, larger events instead of
//! one per item.

use vstd::prelude::*;

verus! {

/// Buffers items and hands back a full batch once `size` is reached.
/// Ghost records of every item pushed and of every batch handed back
/// (by `push` or `flush`) state what a run of calls has done.
pub struct Batcher<T> {
    buf: Vec<T>,
    size: usize,
    pushed: Ghost<Seq<T>>,
    handed: Ghost<Seq<Seq<T>>>,
}

/// What one push does to a buffer `buf` of a batcher of size `size`: the
/// item joins the buffer, and once the buffer holds `size` items (or more)
/// it is handed back whole as a batch and the buffer starts over empty.
pub open spec fn push_step<T>(size: nat, buf: Seq<T>, item: T) -> (Option<Seq<T>>, Seq<T>) {
    let all = buf.push(item);
    if all.len() >= size {
        (Some(all), seq![])
    } else {
        (None, all)
    }
}

/// The batches that pushing `items` one at a time hands back, in order,
/// and what is left buffered afterwards.
pub open spec fn run_pushes<T>(size: nat, buf: Seq<T>, items: Seq<T>) -> (Seq<Seq<T>>, Seq<T>)
    decreases items.len(),
{
    if items.len() == 0 {
        (seq![], buf)
    } else {
        let step = push_step(size, buf, items[0]);
        let rest = run_pushes(size, step.1, items.drop_first());
        match step.0 {
            Some(batch) => (seq![batch] + rest.0, rest.1),
            None => (rest.0, rest.1),
        }
    }
}

/// Whether a buffer is one that a batcher of size `size` can hold between
/// calls: empty, or short of a full batch.
pub open spec fn buffer_ok<T>(size: nat, buf: Seq<T>) -> bool {
    buf.len() == 0 || buf.len() < size
}

/// How many items a full batch holds.
pub open spec fn full_batch_len(size: nat) -> nat {
    if size == 0 {
        1
    } else {
        size
    }
}

impl<T> View for Batcher<T> {
    /// The items buffered, and the batch size.
    type V = (Seq<T>, nat);

    closed spec fn view(&self) -> (Seq<T>, nat) {
        (self.buf@, self.size as nat)
    }
}

impl<T> Batcher<T> {
    /// The batcher's invariant: the buffer is empty or short of a batch,
    /// and the batches handed back so far, followed by the buffer, are the
    /// items pushed so far, in order.
    pub closed spec fn wf(&self) -> bool {
        &&& buffer_ok(self.size as nat, self.buf@)
        &&& self.handed@.flatten() + self.buf@ == self.pushed@
    }

    /// Every item pushed so far, in the order of the calls.
    pub closed spec fn pushed(&self) -> Seq<T> {
        self.pushed@
    }

    /// Every batch handed back so far, by `push` or `flush`, in the order
    /// of the calls.
    pub closed spec fn handed_out(&self) -> Seq<Seq<T>> {
        self.handed@
    }

    /// An empty batcher that hands back batches of `size` items.
    pub fn new(size: usize) -> (r: Self)
        ensures
            r.wf(),
            r@ == (Seq::<T>::empty(), size as nat),
            r.pushed() == Seq::<T>::empty(),
            r.handed_out() == Seq::<Seq<T>>::empty(),
    {
        let r = Self { buf: Vec::new(), size, pushed: Ghost(Seq::empty()), handed: Ghost(Seq::empty()) };
        assert(r.handed@.flatten() =~= Seq::<T>::empty());
        assert(r.handed@.flatten() + r.buf@ =~= r.pushed@);
        r
    }

    /// Adds `item`; returns a full batch if the buffer just reached
    /// capacity, otherwise `None`.
    pub fn push(&mut self, item: T) -> (r: Option<Vec<T>>)
        requires
            old(self).wf(),
        ensures
            final(self).wf(),
            final(self)@.1 == old(self)@.1,
            (match r {
                Some(b) => Some(b@),
                None => None,
            }, final(self)@.0) == push_step(old(self)@.1, old(self)@.0, item),
            r matches Some(b) ==> b@.len() == full_batch_len(old(self)@.1),
            final(self).pushed() == old(self).pushed().push(item),
            final(self).handed_out() == (match r {
                Some(b) => old(self).handed_out().push(b@),
                None => old(self).handed_out(),
            }),
    {
        let ghost it = item;
        self.buf.push(item);
        self.pushed = Ghost(self.pushed@.push(it));
        assert(self.handed@.flatten() + self.buf@ =~= self.pushed@);
        if self.buf.len() >= self.size {
            let mut batch: Vec<T> = Vec::new();
            std::mem::swap(&mut batch, &mut self.buf);
            let ghost before = self.handed@;
            self.handed = Ghost(self.handed@.push(batch@));
            proof {
                before.lemma_flatten_push(batch@);
            }
            assert(self.handed@.flatten() + self.buf@ =~= self.pushed@);
            Some(batch)
        } else {
            None
        }
    }

    /// Drains and returns whatever's left (fewer than `size` items).
    pub fn flush(&mut self) -> (r: Vec<T>)
        requires
            old(self).wf(),
        ensures
            final(self).wf(),
            r@ == old(self)@.0,
            final(self)@ == (Seq::<T>::empty(), old(self)@.1),
            r@.len() == 0 || r@.len() < old(self)@.1,
            final(self).pushed() == old(self).pushed(),
            final(self).handed_out() == old(self).handed_out().push(r@),
    {
        let mut rest: Vec<T> = Vec::new();
        std::mem::swap(&mut rest, &mut self.buf);
        let ghost before = self.handed@;
        self.handed = Ghost(self.handed@.push(rest@));
        proof {
            before.lemma_flatten_push(rest@);
        }
        assert(self.handed@.flatten() + self.buf@ =~= self.pushed@);
        rest
    }
}

/// Whatever calls a batcher has seen, the batches it handed back, in the
/// order it handed them, followed by what it still buffers, are exactly
/// the items pushed, in the order they were pushed: nothing is lost and
/// nothing is duplicated. After a `flush` nothing is buffered, so the
/// batches alone are the pushed items.
pub proof fn law_batcher_keeps_every_pushed_item<T>(b: &Batcher<T>)
    requires
        b.wf(),
    ensures
        b.handed_out().flatten() + b@.0 == b.pushed(),
{
}

/// Pushing items and then flushing loses nothing and duplicates nothing:
/// the batches handed back, followed by what is left buffered, are the
/// buffered items followed by the pushed ones, in order.
pub proof fn law_batches_keep_every_item<T>(size: nat, buf: Seq<T>, items: Seq<T>)
    ensures
        run_pushes(size, buf, items).0.flatten() + run_pushes(size, buf, items).1 == buf + items,
    decreases items.len(),
{
    if items.len() > 0 {
        let step = push_step(size, buf, items[0]);
        law_batches_keep_every_item(size, step.1, items.drop_first());
        let rest = run_pushes(size, step.1, items.drop_first());
        assert(buf + items =~= buf.push(items[0]) + items.drop_first());
        match step.0 {
            Some(batch) => {
                assert((seq![batch] + rest.0).flatten() =~= batch + rest.0.flatten()) by {
                    assert((seq![batch] + rest.0).first() == batch);
                    assert((seq![batch] + rest.0).drop_first() =~= rest.0);
                }
                assert(step.1 =~= Seq::<T>::empty());
            },
            None => {},
        }
    }
}

/// Every batch that pushes hand back is full: it holds `size` items (one
/// when `size` is zero), provided the buffer started as a batcher keeps
/// it.
pub proof fn law_batches_are_full<T>(size: nat, buf: Seq<T>, items: Seq<T>)
    requires
        buffer_ok(size, buf),
    ensures
        buffer_ok(size, run_pushes(size, buf, items).1),
        forall|k: int| 0 <= k < run_pushes(size, buf, items).0.len()
            ==> (#[trigger] run_pushes(size, buf, items).0[k]).len() == full_batch_len(size),
    decreases items.len(),
{
    if items.len() > 0 {
        let step = push_step(size, buf, items[0]);
        law_batches_are_full(size, step.1, items.drop_first());
        let rest = run_pushes(size, step.1, items.drop_first());
        match step.0 {
            Some(batch) => {
                assert forall|k: int| 0 <= k < run_pushes(size, buf, items).0.len() implies
                    (#[trigger] run_pushes(size, buf, items).0[k]).len() == full_batch_len(size) by {
                    if k > 0 {
                        assert(run_pushes(size, buf, items).0[k] == rest.0[k - 1]);
                    }
                }
            },
            None => {},
        }
    }
}

} // verus!

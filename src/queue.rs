//! Bounded single-reader event channel.
//!
//! `Ring` is the fixed-capacity buffer: a send on a full ring overwrites the
//! oldest unread value. `ChannelState` adds the parked reader's waker. The
//! receiving handle owns the state; sending handles hold a weak reference, so
//! sends after the receiver is gone are silent no-ops, and the receiver sees
//! the channel closed once every sender is dropped.
use std::cell::RefCell;
use std::rc::{Rc, Weak};
use std::task::{Context, Waker};
use vstd::prelude::*;

verus! {

/// Fixed-capacity ring of values waiting to be read.
pub struct Ring<T, const S: usize> {
    data: Vec<Option<T>>,
    read: usize,
    len: usize,
}

impl<T, const S: usize> Ring<T, S> {
    /// Index in `data` of the `i`-th unread value.
    spec fn slot(&self, i: int) -> int {
        (self.read + i) % (S as int)
    }

    /// The buffer has `S` slots and every unread position holds a value.
    pub closed spec fn wf(&self) -> bool {
        &&& S > 0
        &&& self.data@.len() == S
        &&& self.read < S
        &&& self.len <= S
        &&& forall|i: int| 0 <= i < self.len ==> (#[trigger] self.data@[self.slot(i)]) is Some
    }
}

impl<T, const S: usize> View for Ring<T, S> {
    type V = Seq<T>;

    /// The unread values, oldest first.
    closed spec fn view(&self) -> Seq<T> {
        Seq::new(self.len as nat, |i: int| self.data@[self.slot(i)]->Some_0)
    }
}

impl<T, const S: usize> Ring<T, S> {
    /// An empty ring with room for `S` values.
    pub fn new() -> (r: Self)
        requires
            S > 0,
        ensures
            r.wf(),
            r@ == Seq::<T>::empty(),
    {
        let mut data: Vec<Option<T>> = Vec::new();
        let mut k: usize = 0;
        while k < S
            invariant
                k <= S,
                data@.len() == k,
            decreases S - k,
        {
            data.push(None);
            k = k + 1;
        }
        let r = Ring { data, read: 0, len: 0 };
        assert(r@ =~= Seq::<T>::empty());
        r
    }

    pub fn len(&self) -> (r: usize)
        requires
            self.wf(),
        ensures
            r == self@.len(),
            r <= S,
    {
        self.len
    }

    /// Appends `v`. When the ring is full the oldest unread value is dropped
    /// to make room.
    pub fn push(&mut self, v: T)
        requires
            old(self).wf(),
        ensures
            final(self).wf(),
            old(self)@.len() < S ==> final(self)@ == old(self)@.push(v),
            old(self)@.len() >= S ==> final(self)@ == old(self)@.drop_first().push(v),
    {
        let ghost prev = self@;
        if self.len < S {
            let w: usize = ((self.read as u128 + self.len as u128) % (S as u128)) as usize;
            self.data.set(w, Some(v));
            self.len = self.len + 1;
            proof {
                assert forall|i: int| 0 <= i < self.len - 1 implies self.slot(i) != w as int by {
                    lemma_distinct_slots(self.read as int, i, (self.len - 1) as int, S as int);
                }
                assert(self.slot(self.len - 1) == w as int);
                assert forall|i: int| 0 <= i < self.len implies (#[trigger] self.data@[self.slot(i)]) is Some by {
                    if i < self.len - 1 {
                        assert(old(self).data@[old(self).slot(i)] is Some);
                    }
                }
            }
            assert(self@ =~= prev.push(v));
        } else {
            let w: usize = self.read;
            self.data.set(w, Some(v));
            self.read = if self.read + 1 == S { 0 } else { self.read + 1 };
            proof {
                assert forall|i: int| 0 <= i < S - 1 implies
                    #[trigger] self.slot(i) == (old(self).read + i + 1) % (S as int)
                    && self.slot(i) != w as int by {
                    lemma_shift_slot(old(self).read as int, i, S as int);
                }
                assert(self.slot((S - 1) as int) == w as int) by {
                    lemma_last_slot(old(self).read as int, S as int);
                }
                assert forall|i: int| 0 <= i < self.len implies (#[trigger] self.data@[self.slot(i)]) is Some by {
                    if i < S - 1 {
                        assert(old(self).data@[old(self).slot(i + 1)] is Some);
                    }
                }
            }
            assert(self@ =~= prev.drop_first().push(v));
        }
    }

    /// Removes and returns the oldest unread value, if any.
    pub fn pop(&mut self) -> (r: Option<T>)
        requires
            old(self).wf(),
        ensures
            final(self).wf(),
            old(self)@.len() == 0 ==> r is None && final(self)@ == old(self)@,
            old(self)@.len() > 0 ==> r == Some(old(self)@[0]) && final(self)@ == old(self)@.drop_first(),
    {
        if self.len == 0 {
            return None;
        }
        let ghost prev = self@;
        let r_idx: usize = self.read;
        let mut taken: Option<T> = None;
        self.data.set_and_swap(r_idx, &mut taken);
        self.read = if self.read + 1 == S { 0 } else { self.read + 1 };
        self.len = self.len - 1;
        proof {
            assert(old(self).slot(0) == r_idx as int) by {
                lemma_mod_window(r_idx as int, S as int);
            }
            assert forall|i: int| 0 <= i < self.len implies
                #[trigger] self.slot(i) == old(self).slot(i + 1) && self.slot(i) != r_idx as int by {
                lemma_shift_slot(old(self).read as int, i, S as int);
            }
        }
        assert(self@ =~= prev.drop_first());
        taken
    }
}

/// `RefCell`, carried through as an opaque value.
#[verifier::external_type_specification]
#[verifier::external_body]
#[verifier::reject_recursive_types(T)]
pub struct ExRefCell<T: ?Sized>(RefCell<T>);

/// A task's `Waker`, carried through as an opaque value.
#[verifier::external_type_specification]
#[verifier::external_body]
pub struct ExWaker(Waker);

/// The polling `Context`, carried through as an opaque value.
#[verifier::external_type_specification]
#[verifier::external_body]
pub struct ExContext<'a>(Context<'a>);

/// Outcome of one receive attempt.
pub enum Received<T> {
    /// The oldest unread value.
    Value(T),
    /// Every sender is gone; values still queued are not delivered.
    Closed,
    /// Nothing to read yet; the receiving task is parked until a send.
    Pending,
}

/// Relies on `RefCell::new`.
pub assume_specification<T>[ RefCell::<T>::new ](value: T) -> RefCell<T>;

/// Relies on `RefCell::replace`: stores the new value and hands back the old
/// one. No borrow of the channel's cell is ever held across a call, so the
/// call does not find the cell borrowed.
pub assume_specification<T>[ RefCell::<T>::replace ](cell: &RefCell<T>, t: T) -> T;

/// Relies on `Context::waker`: the waker of the task being polled.
pub assume_specification<'a>[ Context::<'a>::waker ](cx: &Context<'a>) -> &'a Waker;

/// Relies on `Waker::clone`.
pub assume_specification[ <Waker as Clone>::clone ](w: &Waker) -> Waker;

/// Relies on `Waker::wake`: schedules the parked task.
pub assume_specification[ Waker::wake ](w: Waker);

/// What the channel's handles share: the unread values and the waker of a
/// parked receive.
pub struct ChannelState<T, const S: usize> {
    ring: Ring<T, S>,
    waker: Option<Waker>,
}

impl<T, const S: usize> ChannelState<T, S> {
    #[verifier::type_invariant]
    spec fn inv(&self) -> bool {
        self.ring.wf()
    }

    /// The waker of the parked receive, if one is parked.
    pub closed spec fn parked_waker(&self) -> Option<Waker> {
        self.waker
    }
}

impl<T, const S: usize> View for ChannelState<T, S> {
    type V = Seq<T>;

    /// The unread values, oldest first.
    closed spec fn view(&self) -> Seq<T> {
        self.ring@
    }
}

impl<T, const S: usize> ChannelState<T, S> {
    /// Empty state, with no receive parked.
    pub fn new() -> (r: Self)
        requires
            S > 0,
        ensures
            r@ == Seq::<T>::empty(),
            r.parked_waker() is None,
    {
        ChannelState { ring: Ring::new(), waker: None }
    }

    /// Enqueues `value`, dropping the oldest unread value when `S` are already
    /// waiting. Hands back the parked receive's waker, to be woken once, and
    /// leaves none parked.
    pub fn send(self, value: T) -> (r: (Self, Option<Waker>))
        ensures
            self@.len() < S ==> r.0@ == self@.push(value),
            self@.len() >= S ==> r.0@ == self@.drop_first().push(value),
            r.1 == self.parked_waker(),
            r.0.parked_waker() is None,
    {
        proof {
            use_type_invariant(&self);
        }
        let ChannelState { mut ring, waker } = self;
        ring.push(value);
        (ChannelState { ring, waker: None }, waker)
    }

    /// One receive step. `Closed` when `closed` (no sender is left), whatever
    /// is still queued; else the oldest unread value, when there is one; else
    /// `Pending`, with `waker` parked to be woken by the next send.
    pub fn receive(self, closed: bool, waker: Waker) -> (r: (Self, Received<T>))
        ensures
            closed ==> r.1 is Closed && r.0@ == self@ && r.0.parked_waker() == self.parked_waker(),
            !closed && self@.len() > 0 ==> r.1 == Received::Value(self@[0]) && r.0@ == self@.drop_first()
                && r.0.parked_waker() == self.parked_waker(),
            !closed && self@.len() == 0 ==> r.1 is Pending && r.0@ == self@
                && r.0.parked_waker() == Some(waker),
    {
        proof {
            use_type_invariant(&self);
        }
        let ChannelState { mut ring, waker: parked } = self;
        if closed {
            return (ChannelState { ring, waker: parked }, Received::Closed);
        }
        match ring.pop() {
            Some(v) => (ChannelState { ring, waker: parked }, Received::Value(v)),
            None => (ChannelState { ring, waker: Some(waker) }, Received::Pending),
        }
    }
}

/// The channel's shared state, as the handles reach it.
pub type SharedState<T, const S: usize> = RefCell<Option<ChannelState<T, S>>>;

/// Non-owning reference from a sender to the shared state. `Weak` carries an
/// allocator parameter that cannot be declared to Verus, so it is held in a
/// field that Verus does not read, reached only through the methods below.
#[verifier::external_body]
#[verifier::reject_recursive_types(T)]
#[verifier::reject_recursive_types(S)]
pub struct BackRef<T, const S: usize> {
    weak: Weak<SharedState<T, S>>,
}

impl<T, const S: usize> BackRef<T, S> {
    /// Relies on `Rc::downgrade`.
    #[verifier::external_body]
    fn to(state: &Rc<SharedState<T, S>>) -> BackRef<T, S> {
        BackRef { weak: Rc::downgrade(state) }
    }

    /// Relies on `Weak::upgrade`: the state while the receiver holds it.
    #[verifier::external_body]
    fn upgrade(&self) -> Option<Rc<SharedState<T, S>>> {
        self.weak.upgrade()
    }

    /// Relies on `Weak::clone`: another reference to the same state.
    #[verifier::external_body]
    fn duplicate(&self) -> BackRef<T, S> {
        BackRef { weak: self.weak.clone() }
    }
}

/// Relies on `Rc::weak_count`: each sender holds one weak reference to the
/// state, so this is how many senders are left.
#[verifier::external_body]
fn sender_count<T, const S: usize>(state: &Rc<SharedState<T, S>>) -> usize {
    Rc::weak_count(state)
}

/// Receiving handle: the sole owner of the channel's state.
#[verifier::reject_recursive_types(T)]
#[verifier::reject_recursive_types(S)]
pub struct Receiver<T, const S: usize> {
    state: Rc<SharedState<T, S>>,
}

impl<T, const S: usize> Receiver<T, S> {
    /// One poll of a receive: `Closed` once every sender is gone, else a value
    /// when one is waiting, else `Pending` with the task's waker parked.
    pub fn poll_next_inner(&self, cx: &mut Context<'_>) -> Received<T> {
        let taken = self.state.replace(None);
        match taken {
            None => Received::Closed,
            Some(st) => {
                let closed = sender_count(&self.state) == 0;
                let waker = cx.waker().clone();
                let (st, r) = st.receive(closed, waker);
                self.state.replace(Some(st));
                r
            },
        }
    }
}

/// Sending handle. Clones share the same back-reference.
#[verifier::reject_recursive_types(T)]
#[verifier::reject_recursive_types(S)]
pub struct Sender<T, const S: usize> {
    state: BackRef<T, S>,
}

impl<T, const S: usize> Clone for Sender<T, S> {
    fn clone(&self) -> Self {
        Sender { state: self.state.duplicate() }
    }
}

impl<T, const S: usize> Sender<T, S> {
    /// Enqueues `value` without blocking; a silent no-op once the receiver is
    /// gone. Wakes a parked receive.
    pub fn send(&self, value: T) {
        match self.state.upgrade() {
            None => {},
            Some(shared) => {
                let taken = shared.replace(None);
                if let Some(st) = taken {
                    let (st, waker) = st.send(value);
                    shared.replace(Some(st));
                    if let Some(w) = waker {
                        w.wake();
                    }
                }
            },
        }
    }
}

/// A connected pair of handles over an empty channel of capacity `S`.
pub fn channel<T, const S: usize>() -> (r: (Sender<T, S>, Receiver<T, S>))
    requires
        S > 0,
{
    let state = Rc::new(RefCell::new(Some(ChannelState::new())));
    let back = BackRef::to(&state);
    (Sender { state: back }, Receiver { state })
}

/// Distinct offsets below `n < s` from one start land on distinct slots.
proof fn lemma_distinct_slots(read: int, i: int, n: int, s: int)
    requires
        0 <= read < s,
        0 <= i < n,
        n < s,
    ensures
        (read + i) % s != (read + n) % s,
{
    lemma_mod_window(read + i, s);
    lemma_mod_window(read + n, s);
}

/// Advancing the start by one slot shifts every offset by one.
proof fn lemma_shift_slot(read: int, i: int, s: int)
    requires
        0 <= read < s,
        0 <= i < s - 1,
    ensures
        ((if read + 1 == s { 0 } else { read + 1 }) + i) % s == (read + i + 1) % s,
        (read + i + 1) % s != read,
        read % s == read,
{
    lemma_mod_window(read + i + 1, s);
    lemma_mod_window(i, s);
    lemma_mod_window(read, s);
}

/// After advancing the start by one slot, the last offset is the old start.
proof fn lemma_last_slot(read: int, s: int)
    requires
        0 <= read < s,
    ensures
        ((if read + 1 == s { 0 } else { read + 1 }) + s - 1) % s == read,
{
    lemma_mod_window(s - 1, s);
    lemma_mod_window(read + s, s);
}

/// `x % s` for `x` in `[0, 2s)`.
proof fn lemma_mod_window(x: int, s: int)
    requires
        0 < s,
        0 <= x < 2 * s,
    ensures
        x < s ==> x % s == x,
        x >= s ==> x % s == x - s,
{
    if x < s {
        vstd::arithmetic::div_mod::lemma_small_mod(x as nat, s as nat);
    } else {
        vstd::arithmetic::div_mod::lemma_mod_add_multiples_vanish(x - s, s);
        vstd::arithmetic::div_mod::lemma_small_mod((x - s) as nat, s as nat);
    }
}

} // verus!

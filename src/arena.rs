//! The arena: a byte budget, a bump cursor and a drop log.

use vstd::layout::size_of;
use vstd::prelude::*;

use crate::bump::fits;
use crate::init::Init;

verus! {

/// Where a value of an arena lives: its byte offset in the store and its
/// position in the drop log.
///
/// Two values of a zero-sized type may share an offset; their log positions
/// still tell them apart.
#[derive(Clone, Copy, Debug, PartialEq, Eq, Structural)]
pub struct Handle {
    place: usize,
    slot: usize,
}

impl View for Handle {
    /// (byte offset, position in the drop log)
    type V = (nat, nat);

    closed spec fn view(&self) -> (nat, nat) {
        (self.place as nat, self.slot as nat)
    }
}

impl Handle {
    /// The byte offset at which the value starts.
    pub fn offset(&self) -> (r: usize)
        ensures
            r == self@.0,
    {
        self.place
    }

    /// The position of the value in the drop log: the number of values that
    /// the arena held before it.
    pub fn index(&self) -> (r: usize)
        ensures
            r == self@.1,
    {
        self.slot
    }
}

/// One record of the drop log: a value and the offset it was placed at.
struct Entry<T> {
    place: usize,
    value: T,
}

/// A fixed-capacity arena of `SIZE` bytes holding values of type `T`.
///
/// Each acquisition bumps the cursor by `size_of::<T>()` bytes, whether it
/// succeeds or not; it succeeds when the reserved range ends within `SIZE`.
/// Once the cursor has passed `SIZE`, every later acquisition fails.
/// Successful acquisitions are appended to the drop log; when the arena is
/// dropped the values are dropped in log order, oldest first. A handle is
/// plain data, so a value's destructor cannot reach other values of the
/// arena through the handles it keeps.
pub struct Arena<T, const SIZE: usize> {
    /// The cursor, exact as long as it has not passed `SIZE`.
    cursor: usize,
    /// Whether the cursor has passed `SIZE`.
    spent: bool,
    /// The cursor as an unbounded number.
    total: Ghost<nat>,
    /// The drop log, in order of construction.
    log: Vec<Entry<T>>,
}

impl<T, const SIZE: usize> Arena<T, SIZE> {
    /// The bump cursor: the sum of the sizes of all requests so far.
    pub closed spec fn cursor(&self) -> nat {
        self.total@
    }

    /// The drop log: each value with its byte offset, in order of
    /// construction.
    pub closed spec fn log(&self) -> Seq<(nat, T)> {
        self.log@.map_values(|e: Entry<T>| (e.place as nat, e.value))
    }

    /// The arena's capacity in bytes.
    pub open spec fn capacity() -> nat {
        SIZE as nat
    }

    /// The number of bytes one value takes.
    pub open spec fn unit() -> nat {
        size_of::<T>()
    }

    /// `h` names a value of this arena.
    pub open spec fn holds(&self, h: Handle) -> bool {
        &&& h@.1 < self.log().len()
        &&& self.log()[h@.1 as int].0 == h@.0
    }

    /// The value that `h` names.
    pub open spec fn value_of(&self, h: Handle) -> T {
        self.log()[h@.1 as int].1
    }

    /// The internal invariant.
    pub closed spec fn wf(&self) -> bool {
        &&& self.spent == (self.total@ > SIZE)
        &&& !self.spent ==> self.cursor as nat == self.total@
        &&& forall|i: int|
            0 <= i < self.log@.len() ==> {
                &&& #[trigger] self.log@[i].place + Self::unit() <= SIZE
                &&& self.log@[i].place + Self::unit() <= self.total@
            }
        &&& forall|i: int, j: int|
            0 <= i < j < self.log@.len() ==> #[trigger] self.log@[i].place + Self::unit()
                <= #[trigger] self.log@[j].place
    }

    /// No two values of a well-formed arena overlap, and each lies within
    /// the capacity.
    pub proof fn lemma_handles_disjoint(&self, h1: Handle, h2: Handle)
        requires
            self.wf(),
            self.holds(h1),
            self.holds(h2),
            h1 != h2,
        ensures
            h1@.0 + Self::unit() <= Self::capacity(),
            h1@.0 + Self::unit() <= h2@.0 || h2@.0 + Self::unit() <= h1@.0,
    {
        let i = h1.slot as int;
        let j = h2.slot as int;
        assert(self.log()[i].0 == self.log@[i].place);
        assert(self.log()[j].0 == self.log@[j].place);
        if i > j {
            assert(self.log@[j].place + Self::unit() <= self.log@[i].place);
        }
    }

    /// What every acquisition does to the cursor and to the drop log, apart
    /// from the value it stores: the cursor moves on by one value's size; the
    /// request succeeds exactly when the reserved range ends within the
    /// capacity, and then the log gains one entry at the old cursor, named by
    /// the returned handle; otherwise the log is unchanged.
    pub open spec fn bumped(pre: &Self, post: &Self, r: Option<Handle>) -> bool {
        &&& post.cursor() == pre.cursor() + Self::unit()
        &&& r is Some <==> fits(pre.cursor(), Self::unit(), Self::capacity())
        &&& match r {
            Some(h) => {
                &&& h@ == (pre.cursor(), pre.log().len())
                &&& post.log().len() == pre.log().len() + 1
                &&& post.log().drop_last() == pre.log()
                &&& post.log().last().0 == pre.cursor()
            },
            None => post.log() == pre.log(),
        }
    }

    /// `states[i + 1]` is what the `i`-th of a run of acquisitions made of
    /// `states[i]`, and `results[i]` is what it returned.
    pub open spec fn is_run(states: Seq<Self>, results: Seq<Option<Handle>>) -> bool {
        &&& states.len() == results.len() + 1
        &&& forall|i: int|
            0 <= i < results.len() ==> Self::bumped(&states[i], &states[i + 1], #[trigger] results[i])
    }

    /// Along a run, the `i`-th request starts at `i` units past the first
    /// cursor, and succeeds exactly when its range ends within the capacity.
    proof fn lemma_run_offsets(states: Seq<Self>, results: Seq<Option<Handle>>, k: int)
        requires
            Self::is_run(states, results),
            0 <= k <= results.len(),
        ensures
            states[k].cursor() == states[0].cursor() + k * Self::unit(),
            k < results.len() ==> (results[k] is Some <==> states[0].cursor() + (k + 1)
                * Self::unit() <= Self::capacity()),
            k < results.len() ==> (results[k] matches Some(h) ==> h@.0 == states[0].cursor() + k
                * Self::unit()),
        decreases k,
    {
        let u = Self::unit();
        if k > 0 {
            Self::lemma_run_offsets(states, results, k - 1);
            assert(Self::bumped(&states[k - 1], &states[k], results[k - 1]));
            assert((k - 1) * u + u == k * u) by (nonlinear_arith);
        }
        if k < results.len() {
            assert(Self::bumped(&states[k], &states[k + 1], results[k]));
            assert(k * u + u == (k + 1) * u) by (nonlinear_arith);
        }
    }

    /// When a run of acquisitions asks for no more bytes than are left, every
    /// request succeeds, the `i`-th at `i` units past the first cursor, and no
    /// two of the reserved ranges overlap.
    pub proof fn lemma_run_within_capacity(states: Seq<Self>, results: Seq<Option<Handle>>)
        requires
            Self::is_run(states, results),
            states[0].cursor() + results.len() * Self::unit() <= Self::capacity(),
        ensures
            forall|i: int| 0 <= i < results.len() ==> #[trigger] results[i] is Some,
            forall|i: int|
                0 <= i < results.len() ==> (#[trigger] results[i])->Some_0@.0 == states[0].cursor()
                    + i * Self::unit(),
            forall|i: int, j: int|
                0 <= i < j < results.len() ==> (#[trigger] results[i])->Some_0@.0 + Self::unit()
                    <= (#[trigger] results[j])->Some_0@.0,
    {
        let u = Self::unit();
        let n = results.len() as int;
        assert forall|i: int| 0 <= i < n implies #[trigger] results[i] is Some && results[i]->Some_0@.0
            == states[0].cursor() + i * u by {
            Self::lemma_run_offsets(states, results, i);
            assert((i + 1) * u <= n * u) by (nonlinear_arith)
                requires
                    i + 1 <= n,
            ;
        }
        assert forall|i: int, j: int| 0 <= i < j < n implies (#[trigger] results[i])->Some_0@.0 + u
            <= (#[trigger] results[j])->Some_0@.0 by {
            assert(i * u + u <= j * u) by (nonlinear_arith)
                requires
                    i < j,
            ;
        }
    }

    /// Along any run of acquisitions, requests succeed until the first one
    /// whose range would end past the capacity, and all later ones fail; no
    /// two successful requests overlap.
    pub proof fn lemma_run_exhaustion_is_final(states: Seq<Self>, results: Seq<Option<Handle>>)
        requires
            Self::is_run(states, results),
        ensures
            forall|i: int|
                0 <= i < results.len() ==> (#[trigger] results[i] is Some <==> states[0].cursor()
                    + (i + 1) * Self::unit() <= Self::capacity()),
            forall|i: int, j: int|
                0 <= i <= j < results.len() && #[trigger] results[i] is None ==> #[trigger] results[j] is None,
            forall|i: int, j: int|
                0 <= i < j < results.len() && #[trigger] results[i] is Some && #[trigger] results[j] is Some
                    ==> results[i]->Some_0@.0 + Self::unit() <= results[j]->Some_0@.0,
    {
        let u = Self::unit();
        let c = states[0].cursor();
        let n = results.len() as int;
        assert forall|i: int| 0 <= i < n implies (#[trigger] results[i] is Some <==> c + (i + 1) * u
            <= Self::capacity()) && (results[i] is Some ==> results[i]->Some_0@.0 == c + i * u) by {
            Self::lemma_run_offsets(states, results, i);
        }
        assert forall|i: int, j: int| 0 <= i <= j < n && #[trigger] results[i] is None implies #[trigger] results[j] is None by {
            assert((i + 1) * u <= (j + 1) * u) by (nonlinear_arith)
                requires
                    i <= j,
            ;
        }
        assert forall|i: int, j: int|
            0 <= i < j < n && #[trigger] results[i] is Some && #[trigger] results[j] is Some implies results[i]->Some_0@.0
                + u <= results[j]->Some_0@.0 by {
            assert(i * u + u <= j * u) by (nonlinear_arith)
                requires
                    i < j,
            ;
        }
    }

    /// An empty arena: cursor at 0, empty drop log.
    pub fn new() -> (r: Self)
        ensures
            r.wf(),
            r.cursor() == 0,
            r.log() == Seq::<(nat, T)>::empty(),
    {
        let r = Arena { cursor: 0, spent: false, total: Ghost(0), log: Vec::new() };
        proof {
            assert(r.log() =~= Seq::<(nat, T)>::empty());
        }
        r
    }

    /// Bumps the cursor by the size of one value and reports where the value
    /// goes, if the range fits.
    fn reserve(&mut self) -> (r: Option<Handle>)
        requires
            old(self).wf(),
        ensures
            final(self).wf(),
            final(self).cursor() == old(self).cursor() + Self::unit(),
            final(self).log() == old(self).log(),
            r is Some <==> fits(old(self).cursor(), Self::unit(), Self::capacity()),
            r matches Some(h) ==> h@ == (old(self).cursor(), old(self).log().len()),
            r matches Some(h) ==> forall|i: int|
                0 <= i < old(self).log().len() ==> #[trigger] old(self).log()[i].0 + Self::unit()
                    <= h@.0,
    {
        let size = core::mem::size_of::<T>();
        proof {
            self.total@ = self.total@ + size as nat;
        }
        if self.spent || size > SIZE - self.cursor {
            self.spent = true;
            None
        } else {
            let place = self.cursor;
            self.cursor = self.cursor + size;
            Some(Handle { place, slot: self.log.len() })
        }
    }

    /// Appends `value` to the drop log at the place that `reserve` just gave.
    fn record(&mut self, h: Handle, value: T)
        requires
            old(self).wf(),
            h@.1 == old(self).log().len(),
            h@.0 + Self::unit() == old(self).cursor(),
            fits(h@.0, Self::unit(), Self::capacity()),
            forall|i: int|
                0 <= i < old(self).log().len() ==> #[trigger] old(self).log()[i].0 + Self::unit()
                    <= h@.0,
        ensures
            final(self).wf(),
            final(self).cursor() == old(self).cursor(),
            final(self).log() == old(self).log().push((h@.0, value)),
            final(self).log().drop_last() == old(self).log(),
            final(self).log().last() == (h@.0, value),
    {
        self.log.push(Entry { place: h.place, value });
        proof {
            assert forall|i: int| 0 <= i < old(self).log@.len() implies #[trigger] self.log@[i].place
                + Self::unit() <= h.place by {
                assert(old(self).log()[i].0 == old(self).log@[i].place);
            }
            assert(self.log() =~= old(self).log().push((h@.0, value)));
            assert(self.log().drop_last() =~= old(self).log());
        }
    }

    /// Places `val` in the arena.
    pub fn acquire(&mut self, val: T) -> (r: Option<Handle>)
        requires
            old(self).wf(),
        ensures
            final(self).wf(),
            Self::bumped(&*old(self), &*final(self), r),
            r is Some ==> final(self).log() == old(self).log().push((old(self).cursor(), val)),
    {
        let h = self.reserve()?;
        self.record(h, val);
        Some(h)
    }

    /// Places `T`'s default value in the arena.
    pub fn acquire_default(&mut self) -> (r: Option<Handle>)
        where
            T: Default,
        requires
            old(self).wf(),
        ensures
            final(self).wf(),
            Self::bumped(&*old(self), &*final(self), r),
            r is Some ==> call_ensures(T::default, (), final(self).log().last().1),
    {
        let h = self.reserve()?;
        self.record(h, T::default());
        Some(h)
    }

    /// Places a value built by `T::init` from `arg` and the handle of its own
    /// slot; the handle returned is the one `init` was given.
    pub fn acquire_init(&mut self, arg: T::InitArg) -> (r: Option<Handle>)
        where
            T: Init,
        requires
            old(self).wf(),
        ensures
            final(self).wf(),
            Self::bumped(&*old(self), &*final(self), r),
            r matches Some(h) ==> call_ensures(T::init, (h, arg), final(self).log().last().1),
    {
        let h = self.reserve()?;
        let value = T::init(h, arg);
        self.record(h, value);
        Some(h)
    }

    /// Places a value built by `T::init` from the default argument and the
    /// handle of its own slot; the handle returned is the one `init` was given.
    pub fn acquire_init_default(&mut self) -> (r: Option<Handle>)
        where
            T: Init,
            T::InitArg: Default,
        requires
            old(self).wf(),
        ensures
            final(self).wf(),
            Self::bumped(&*old(self), &*final(self), r),
            r matches Some(h) ==> exists|arg: T::InitArg|
                call_ensures(T::InitArg::default, (), arg) && call_ensures(
                    T::init,
                    (h, arg),
                    final(self).log().last().1,
                ),
    {
        let h = self.reserve()?;
        let arg = T::InitArg::default();
        let ghost given = arg;
        let value = T::init(h, arg);
        self.record(h, value);
        assert(call_ensures(T::InitArg::default, (), given) && call_ensures(
            T::init,
            (h, given),
            self.log().last().1,
        ));
        Some(h)
    }

    /// The value that `h` names.
    pub fn get(&self, h: Handle) -> (r: &T)
        requires
            self.wf(),
            self.holds(h),
        ensures
            *r == self.value_of(h),
    {
        &self.log[h.slot].value
    }
}

impl<T, const SIZE: usize> Default for Arena<T, SIZE> {
    /// An empty arena, as [`Arena::new`] makes it.
    fn default() -> (r: Self)
        ensures
            r.wf(),
            r.cursor() == 0,
            r.log() == Seq::<(nat, T)>::empty(),
    {
        Self::new()
    }
}

} // verus!

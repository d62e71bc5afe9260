use vstd::multiset::Multiset;
use vstd::prelude::*;

use crate::init::{error_of, Init, PinInit, Zeroable};
use crate::layout::{accepts, field_outcome, FieldInit, PinData};
use crate::types::Opaque;

verus! {

/// Storage for one composite value, built in place field by field.
///
/// Each declared field has its own cell, which holds a live value or none. Every time a field is
/// built, its position is appended to the build log; every time a field's destructor runs, its
/// position is appended to the drop log; so what was built and destroyed, and in which order,
/// can be observed.
pub struct Slot<V> {
    cells: Vec<Opaque<V>>,
    built: Vec<usize>,
    log: Vec<usize>,
}

/// The order in which the destructor of a finished value runs its fields: declaration order.
pub open spec fn declaration_order(n: nat) -> Seq<usize> {
    Seq::new(n, |i: int| i as usize)
}

proof fn lemma_declaration_order_counts(n: nat)
    requires
        n <= usize::MAX,
    ensures
        forall|i: usize| #[trigger] declaration_order(n).to_multiset().count(i) == if i < n {
            1nat
        } else {
            0nat
        },
    decreases n,
{
    broadcast use vstd::multiset::group_multiset_axioms;

    if n == 0 {
        assert(declaration_order(0) =~= Seq::<usize>::empty());
        assert(declaration_order(0).to_multiset() =~= Multiset::empty()) by {
            broadcast use vstd::seq_lib::group_to_multiset_ensures;
        }
    } else {
        let m = (n - 1) as nat;
        lemma_declaration_order_counts(m);
        assert(declaration_order(n) =~= declaration_order(m).push(m as usize));
        vstd::seq_lib::to_multiset_build(declaration_order(m), m as usize);
    }
}

/// A finished value that was built without running any destructor, and then destroyed, has
/// had the destructor of each of its `n` fields run exactly once: `before` is the drop log
/// before construction, `built` after it, `after` after the destruction.
pub proof fn lemma_each_field_destroyed_once(
    before: Seq<usize>,
    built: Seq<usize>,
    after: Seq<usize>,
    n: nat,
)
    requires
        n <= usize::MAX,
        built == before,
        after == built + declaration_order(n),
    ensures
        forall|i: usize|
            #[trigger] after.subrange(before.len() as int, after.len() as int).to_multiset().count(i)
                == if i < n {
                1nat
            } else {
                0nat
            },
{
    assert(after.subrange(before.len() as int, after.len() as int) =~= declaration_order(n));
    lemma_declaration_order_counts(n);
}

impl<V> Slot<V> {
    /// What each field's cell holds, in declaration order.
    pub closed spec fn cells(self) -> Seq<Option<V>> {
        Seq::new(self.cells@.len(), |i: int| self.cells@[i]@)
    }

    /// The positions of the fields whose destructor has run, in the order they ran.
    pub closed spec fn log(self) -> Seq<usize> {
        self.log@
    }

    /// The positions of the fields that have been built, in the order they were built.
    pub closed spec fn built_log(self) -> Seq<usize> {
        self.built@
    }

    /// No field holds a value: the storage may be released as it is.
    pub open spec fn is_uninit(self) -> bool {
        forall|i: int| 0 <= i < self.cells().len() ==> (#[trigger] self.cells()[i]) is None
    }

    /// Every field holds a value: the storage holds a finished composite value.
    pub open spec fn is_init(self) -> bool {
        forall|i: int| 0 <= i < self.cells().len() ==> (#[trigger] self.cells()[i]) is Some
    }

    /// Reserves storage for a composite value of `n` fields, holding no value.
    pub fn new(n: usize) -> (r: Self)
        ensures
            r.cells().len() == n,
            r.is_uninit(),
            r.log() == Seq::<usize>::empty(),
            r.built_log() == Seq::<usize>::empty(),
    {
        let mut cells: Vec<Opaque<V>> = Vec::new();
        let mut i: usize = 0;
        while i < n
            invariant
                i <= n,
                cells@.len() == i,
                forall|a: int| 0 <= a < i ==> (#[trigger] cells@[a])@ is None,
            decreases n - i,
        {
            cells.push(Opaque::uninit());
            i += 1;
        }
        Slot { cells, built: Vec::new(), log: Vec::new() }
    }

    /// Number of fields.
    pub fn len(&self) -> (r: usize)
        ensures
            r == self.cells().len(),
    {
        self.cells.len()
    }

    /// The value of field `i`, if it holds one.
    pub fn get(&self, i: usize) -> (r: Option<&V>)
        requires
            i < self.cells().len(),
        ensures
            r is Some <==> self.cells()[i as int] is Some,
            r is Some ==> *r->Some_0 == self.cells()[i as int]->Some_0,
    {
        self.cells[i].get()
    }

    /// The positions of the fields whose destructor has run, in the order they ran.
    pub fn drop_log(&self) -> (r: &Vec<usize>)
        ensures
            r@ == self.log(),
    {
        &self.log
    }

    /// The positions of the fields that have been built, in the order they were built.
    pub fn build_log(&self) -> (r: &Vec<usize>)
        ensures
            r@ == self.built_log(),
    {
        &self.built
    }

    /// Destroys the finished value: runs each field's destructor once, in declaration order,
    /// leaving the storage without a value.
    pub fn destroy(&mut self)
        requires
            old(self).is_init(),
        ensures
            final(self).cells().len() == old(self).cells().len(),
            final(self).is_uninit(),
            final(self).log() == old(self).log() + declaration_order(old(self).cells().len()),
            final(self).built_log() == old(self).built_log(),
    {
        let n = self.cells.len();
        let mut i: usize = 0;
        while i < n
            invariant
                n == self.cells().len() == old(self).cells().len(),
                i <= n,
                forall|a: int| 0 <= a < i ==> (#[trigger] self.cells()[a]) is None,
                forall|a: int| i <= a < n ==> (#[trigger] self.cells()[a]) is Some,
                self.log() == old(self).log() + declaration_order(i as nat),
                self.built_log() == old(self).built_log(),
            decreases n - i,
        {
            self.drop_field(i);
            i += 1;
            assert(self.log() =~= old(self).log() + declaration_order(i as nat));
        }
    }

    /// Runs the destructor of field `i`: its value is dropped and the drop is logged.
    pub(crate) fn drop_field(&mut self, i: usize)
        requires
            i < old(self).cells().len(),
            old(self).cells()[i as int] is Some,
        ensures
            final(self).cells() == old(self).cells().update(i as int, None),
            final(self).log() == old(self).log().push(i),
            final(self).built_log() == old(self).built_log(),
    {
        let mut cell = Opaque::uninit();
        self.cells.set_and_swap(i, &mut cell);
        let _value = cell.take();
        self.log.push(i);
        assert(self.cells() =~= old(self).cells().update(i as int, None));
    }

    /// Fills field `i`, whose cell holds no value, with `init` through the dispatcher `data`,
    /// in the cell itself, and records it as built when that succeeds.
    pub(crate) fn build_field<E, P: PinInit<V, E>, M: Init<V, E>>(
        &mut self,
        data: &PinData,
        i: usize,
        init: FieldInit<V, P, M>,
    ) -> (r: Result<(), E>)
        requires
            i < old(self).cells().len(),
            i < data@.len(),
            accepts(data@[i as int], init),
            old(self).cells()[i as int] is None,
        ensures
            final(self).cells().len() == old(self).cells().len(),
            final(self).cells() == old(self).cells().update(i as int, final(self).cells()[i as int]),
            r is Ok <==> final(self).cells()[i as int] is Some,
            field_outcome(init, final(self).cells()[i as int], error_of(r)),
            final(self).log() == old(self).log(),
            final(self).built_log() == if r is Ok {
                old(self).built_log().push(i)
            } else {
                old(self).built_log()
            },
    {
        let r = data.init_field(i, init, &mut self.cells[i]);
        assert(self.cells() =~= old(self).cells().update(i as int, self.cells()[i as int]));
        if r.is_ok() {
            self.built.push(i);
        }
        r
    }

    /// Puts `cell` in place of the cell of field `i`, discarding the old one without running a
    /// destructor.
    pub(crate) fn put_cell(&mut self, i: usize, cell: Opaque<V>)
        requires
            i < old(self).cells().len(),
        ensures
            final(self).cells() == old(self).cells().update(i as int, cell@),
            final(self).log() == old(self).log(),
            final(self).built_log() == old(self).built_log(),
    {
        self.cells.set(i, cell);
        assert(self.cells() =~= old(self).cells().update(i as int, cell@));
    }

    /// Releases every cell without running a destructor, as for storage that holds only
    /// zeroed fields, whose zero values need no cleanup.
    pub(crate) fn release(&mut self)
        ensures
            final(self).cells().len() == old(self).cells().len(),
            final(self).is_uninit(),
            final(self).log() == old(self).log(),
            final(self).built_log() == old(self).built_log(),
    {
        let n = self.cells.len();
        let mut i: usize = 0;
        while i < n
            invariant
                n == self.cells().len() == old(self).cells().len(),
                i <= n,
                forall|a: int| 0 <= a < i ==> (#[trigger] self.cells()[a]) is None,
                self.log() == old(self).log(),
                self.built_log() == old(self).built_log(),
            decreases n - i,
        {
            self.put_cell(i, Opaque::uninit());
            i += 1;
        }
    }
}

impl<V: Zeroable> Slot<V> {
    /// Zeroes the whole storage: every field holds its zero value.
    pub(crate) fn zero_fill(&mut self)
        ensures
            final(self).cells().len() == old(self).cells().len(),
            forall|i: int|
                0 <= i < final(self).cells().len() ==> (#[trigger] final(self).cells()[i]) == Some(
                    V::zero(),
                ),
            final(self).log() == old(self).log(),
            final(self).built_log() == old(self).built_log(),
    {
        let n = self.cells.len();
        let mut i: usize = 0;
        while i < n
            invariant
                n == self.cells().len() == old(self).cells().len(),
                i <= n,
                forall|a: int| 0 <= a < i ==> (#[trigger] self.cells()[a]) == Some(V::zero()),
                self.log() == old(self).log(),
                self.built_log() == old(self).built_log(),
            decreases n - i,
        {
            self.put_cell(i, Opaque::new(V::zeroed()));
            i += 1;
        }
    }
}

} // verus!

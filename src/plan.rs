use vstd::prelude::*;

use crate::init::{Init, PinInit, Zeroable};
use crate::layout::field_outcome;
use crate::layout::{accepts, decl_index, declares, distinct_names, FieldDecl, FieldInit, PinData, StructLayout};
use crate::slot::{declaration_order, Slot};
use crate::types::Opaque;

verus! {

/// One item of the field list that a caller hands to a construction request.
pub struct FieldEntry<V, P, M> {
    pub name: u64,
    pub init: FieldInit<V, P, M>,
}

/// Whether every declared field must be listed, or the storage is zeroed first.
#[derive(Clone, Copy, Debug, PartialEq, Eq, Structural)]
pub enum InitKind {
    /// Every declared field is listed exactly once.
    Normal,
    /// The storage is zeroed first; each declared field is listed at most once.
    Zeroing,
}

/// Why a field list was refused.
#[derive(Clone, Copy, Debug, PartialEq, Eq, Structural)]
pub enum PlanError {
    /// The list names a field that the type does not declare.
    UnknownField(u64),
    /// The list names a field that it already named.
    DuplicateField(u64),
    /// The list fills a structurally pinned field with a relocatable initializer.
    PinnedField(u64),
    /// The list leaves out a declared field, and the storage is not zeroed.
    MissingField(u64),
}

/// Some entry before position `j` names `name`.
pub open spec fn named_before<V, P, M>(list: Seq<FieldEntry<V, P, M>>, j: int, name: u64) -> bool {
    exists|k: int| 0 <= k < j && list[k].name == name
}

/// The list names `name` somewhere.
pub open spec fn mentions<V, P, M>(list: Seq<FieldEntry<V, P, M>>, name: u64) -> bool {
    named_before(list, list.len() as int, name)
}

/// What is wrong with entry `j` taken by itself: an undeclared name, a name listed before, or a
/// relocatable initializer for a pinned field.
pub open spec fn entry_error<V, P, M>(
    fields: Seq<FieldDecl>,
    list: Seq<FieldEntry<V, P, M>>,
    j: int,
) -> Option<PlanError> {
    let e = list[j];
    if !declares(fields, e.name) {
        Some(PlanError::UnknownField(e.name))
    } else if named_before(list, j, e.name) {
        Some(PlanError::DuplicateField(e.name))
    } else if !accepts(fields[decl_index(fields, e.name)].pinned, e.init) {
        Some(PlanError::PinnedField(e.name))
    } else {
        None
    }
}

/// The error of the first faulty entry among the first `n`.
pub open spec fn list_error<V, P, M>(
    fields: Seq<FieldDecl>,
    list: Seq<FieldEntry<V, P, M>>,
    n: int,
) -> Option<PlanError>
    decreases n,
{
    if n <= 0 {
        None
    } else {
        match list_error(fields, list, n - 1) {
            Some(e) => Some(e),
            None => entry_error(fields, list, n - 1),
        }
    }
}

/// The first of the first `n` declared fields that the list leaves out.
pub open spec fn missing_error<V, P, M>(
    fields: Seq<FieldDecl>,
    list: Seq<FieldEntry<V, P, M>>,
    n: int,
) -> Option<PlanError>
    decreases n,
{
    if n <= 0 {
        None
    } else {
        match missing_error(fields, list, n - 1) {
            Some(e) => Some(e),
            None => if !mentions(list, fields[n - 1].name) {
                Some(PlanError::MissingField(fields[n - 1].name))
            } else {
                None
            },
        }
    }
}

/// Why the field list `list` is refused for a type declaring `fields`, if it is: the first
/// faulty entry in list order, else, without zeroing, the first declared field left out.
pub open spec fn plan_error<V, P, M>(
    fields: Seq<FieldDecl>,
    list: Seq<FieldEntry<V, P, M>>,
    kind: InitKind,
) -> Option<PlanError> {
    match list_error(fields, list, list.len() as int) {
        Some(e) => Some(e),
        None => if kind is Normal {
            missing_error(fields, list, fields.len() as int)
        } else {
            None
        },
    }
}

proof fn lemma_list_error_stays<V, P, M>(
    fields: Seq<FieldDecl>,
    list: Seq<FieldEntry<V, P, M>>,
    m: int,
    n: int,
)
    requires
        0 <= m <= n,
        list_error(fields, list, m) is Some,
    ensures
        list_error(fields, list, n) == list_error(fields, list, m),
    decreases n - m,
{
    if m < n {
        lemma_list_error_stays(fields, list, m, n - 1);
    }
}

proof fn lemma_missing_error_stays<V, P, M>(
    fields: Seq<FieldDecl>,
    list: Seq<FieldEntry<V, P, M>>,
    m: int,
    n: int,
)
    requires
        0 <= m <= n,
        missing_error(fields, list, m) is Some,
    ensures
        missing_error(fields, list, n) == missing_error(fields, list, m),
    decreases n - m,
{
    if m < n {
        lemma_missing_error_stays(fields, list, m, n - 1);
    }
}

proof fn lemma_no_entry_error<V, P, M>(
    fields: Seq<FieldDecl>,
    list: Seq<FieldEntry<V, P, M>>,
    n: int,
)
    requires
        0 <= n,
        list_error(fields, list, n) is None,
    ensures
        forall|j: int| 0 <= j < n ==> (#[trigger] entry_error(fields, list, j)) is None,
    decreases n,
{
    if n > 0 {
        lemma_no_entry_error(fields, list, n - 1);
    }
}

proof fn lemma_none_missing<V, P, M>(
    fields: Seq<FieldDecl>,
    list: Seq<FieldEntry<V, P, M>>,
    n: int,
)
    requires
        0 <= n,
        missing_error(fields, list, n) is None,
    ensures
        forall|i: int| 0 <= i < n ==> mentions(list, (#[trigger] fields[i]).name),
    decreases n,
{
    if n > 0 {
        lemma_none_missing(fields, list, n - 1);
    }
}

/// Every declared field is accounted for before anything is built: a field list that names a
/// field twice, or a field that the type does not declare, is refused whether or not the storage
/// is zeroed, and one that leaves out a declared field is refused unless it is.
pub proof fn lemma_incomplete_list_refused<V, P, M>(
    fields: Seq<FieldDecl>,
    list: Seq<FieldEntry<V, P, M>>,
    kind: InitKind,
)
    requires
        distinct_names(fields),
    ensures
        (exists|j: int, k: int|
            0 <= j < k < list.len() && (#[trigger] list[j]).name == (#[trigger] list[k]).name)
            ==> plan_error(fields, list, kind) is Some,
        (exists|j: int| 0 <= j < list.len() && !declares(fields, (#[trigger] list[j]).name))
            ==> plan_error(fields, list, kind) is Some,
        (kind is Normal && exists|i: int|
            0 <= i < fields.len() && !mentions(list, (#[trigger] fields[i]).name))
            ==> plan_error(fields, list, kind) is Some,
{
    if list_error(fields, list, list.len() as int) is None {
        lemma_no_entry_error(fields, list, list.len() as int);
        if exists|j: int, k: int|
            0 <= j < k < list.len() && (#[trigger] list[j]).name == (#[trigger] list[k]).name {
            let (j, k) = choose|j: int, k: int|
                0 <= j < k < list.len() && (#[trigger] list[j]).name == (#[trigger] list[k]).name;
            assert(named_before(list, k, list[k].name));
            assert(entry_error(fields, list, k) is None);
        }
        if exists|j: int| 0 <= j < list.len() && !declares(fields, (#[trigger] list[j]).name) {
            let j = choose|j: int| 0 <= j < list.len() && !declares(fields, (#[trigger] list[j]).name);
            assert(entry_error(fields, list, j) is None);
        }
        if kind is Normal && missing_error(fields, list, fields.len() as int) is None {
            lemma_none_missing(fields, list, fields.len() as int);
        }
    }
}

/// A checked construction request: for each declared field, in declaration order, how it is
/// filled, or nothing when the storage is zeroed and the field keeps its zero value.
pub struct Plan<V, P, M> {
    data: PinData,
    entries: Vec<Option<FieldInit<V, P, M>>>,
    kind: InitKind,
}

impl<V, P, M> Plan<V, P, M> {
    /// How each declared field is filled, in declaration order.
    pub closed spec fn entries(self) -> Seq<Option<FieldInit<V, P, M>>> {
        self.entries@
    }

    /// The pin classification of each declared field.
    pub closed spec fn pinned(self) -> Seq<bool> {
        self.data@
    }

    /// Whether the storage is zeroed first.
    pub closed spec fn kind(self) -> InitKind {
        self.kind
    }

    /// The plan's invariant: one entry per declared field, each of a kind that its field
    /// accepts, and none left out unless the storage is zeroed.
    pub open spec fn wf(self) -> bool {
        &&& self.entries().len() == self.pinned().len()
        &&& forall|i: int|
            0 <= i < self.entries().len() && (#[trigger] self.entries()[i]) is Some ==> accepts(
                self.pinned()[i],
                self.entries()[i]->Some_0,
            )
        &&& self.kind() is Normal ==> forall|i: int|
            0 <= i < self.entries().len() ==> (#[trigger] self.entries()[i]) is Some
    }

    /// Orders a field list that is known to account for every declared field into a plan: the
    /// check is discharged where the list is written, so no refusal can come at run time.
    pub fn from_list(layout: &StructLayout, list: Vec<FieldEntry<V, P, M>>, kind: InitKind) -> (r:
        Self)
        requires
            layout.wf(),
            plan_error(layout@, list@, kind) is None,
        ensures
            r.wf(),
            r.kind() == kind,
            r.pinned() == layout@.map_values(|f: FieldDecl| f.pinned),
            forall|i: int|
                0 <= i < layout@.len() ==> ((#[trigger] r.entries()[i]) is Some <==> mentions(
                    list@,
                    layout@[i].name,
                )),
            forall|j: int|
                0 <= j < list@.len() ==> r.entries()[decl_index(layout@, #[trigger] list@[j].name)]
                    == Some(list@[j].init),
    {
        Self::new(layout, list, kind).unwrap()
    }

    /// Checks the field list `list` against `layout` and, if every declared field is accounted
    /// for, orders it into a plan. Nothing is initialized here: a refused list has touched no
    /// storage.
    pub fn new(layout: &StructLayout, list: Vec<FieldEntry<V, P, M>>, kind: InitKind) -> (r: Result<
        Self,
        PlanError,
    >)
        requires
            layout.wf(),
        ensures
            r is Err <==> plan_error(layout@, list@, kind) is Some,
            r is Err ==> r->Err_0 == plan_error(layout@, list@, kind)->Some_0,
            r is Ok ==> {
                let p = r->Ok_0;
                &&& p.wf()
                &&& p.kind() == kind
                &&& p.pinned() == layout@.map_values(|f: FieldDecl| f.pinned)
                &&& forall|i: int|
                    0 <= i < layout@.len() ==> ((#[trigger] p.entries()[i]) is Some <==> mentions(
                        list@,
                        layout@[i].name,
                    ))
                &&& forall|j: int|
                    0 <= j < list@.len() ==> p.entries()[decl_index(layout@, #[trigger] list@[j].name)]
                        == Some(list@[j].init)
            },
    {
        let ghost fields = layout@;
        let ghost list0 = list@;
        let n = layout.len();
        let data = layout.pin_data();
        let mut entries: Vec<Option<FieldInit<V, P, M>>> = Vec::new();
        let mut i: usize = 0;
        while i < n
            invariant
                layout.wf(),
                fields == layout@,
                list0 == list@,
                data@ == fields.map_values(|f: FieldDecl| f.pinned),
                n == fields.len(),
                i <= n,
                entries@.len() == i,
                forall|a: int| 0 <= a < i ==> (#[trigger] entries@[a]) is None,
            decreases n - i,
        {
            entries.push(None);
            i += 1;
        }
        let mut rest = list;
        let ghost mut j: int = 0;
        while rest.len() > 0
            invariant
                layout.wf(),
                fields == layout@,
                list0 == list@,
                n == fields.len(),
                data@ == fields.map_values(|f: FieldDecl| f.pinned),
                0 <= j <= list0.len(),
                rest@ == list0.subrange(j, list0.len() as int),
                list_error(fields, list0, j) is None,
                entries@.len() == n,
                forall|a: int|
                    0 <= a < n ==> ((#[trigger] entries@[a]) is Some <==> named_before(
                        list0,
                        j,
                        fields[a].name,
                    )),
                forall|a: int|
                    0 <= a < n && (#[trigger] entries@[a]) is Some ==> accepts(
                        fields[a].pinned,
                        entries@[a]->Some_0,
                    ),
                forall|k: int|
                    0 <= k < j ==> declares(fields, #[trigger] list0[k].name) && entries@[decl_index(
                        fields,
                        list0[k].name,
                    )] == Some(list0[k].init),
            decreases rest@.len(),
        {
            let entry = rest.remove(0);
            assert(entry == list0[j]);
            let FieldEntry { name, init } = entry;
            match layout.find(name) {
                None => {
                    proof {
                        assert(entry_error(fields, list0, j) == Some(PlanError::UnknownField(name)));
                        assert(list_error(fields, list0, j + 1) == Some(PlanError::UnknownField(name)));
                        lemma_list_error_stays(fields, list0, j + 1, list0.len() as int);
                        assert(plan_error(fields, list0, kind) == Some(PlanError::UnknownField(name)));
                    }
                    return Err(PlanError::UnknownField(name));
                },
                Some(idx) => {
                    if entries[idx].is_some() {
                        proof {
                            assert(named_before(list0, j, fields[idx as int].name));
                            assert(entry_error(fields, list0, j) == Some(
                                PlanError::DuplicateField(name),
                            ));
                            lemma_list_error_stays(fields, list0, j + 1, list0.len() as int);
                        }
                        return Err(PlanError::DuplicateField(name));
                    }
                    if !data.admits(idx, &init) {
                        proof {
                            assert(entry_error(fields, list0, j) == Some(
                                PlanError::PinnedField(name),
                            ));
                            lemma_list_error_stays(fields, list0, j + 1, list0.len() as int);
                        }
                        return Err(PlanError::PinnedField(name));
                    }
                    let ghost before = entries@;
                    entries.set(idx, Some(init));
                    proof {
                        assert(entry_error(fields, list0, j) is None);
                        assert forall|a: int| 0 <= a < n implies ((#[trigger] entries@[a]) is Some
                            <==> named_before(list0, j + 1, fields[a].name)) by {
                            if named_before(list0, j, fields[a].name) {
                                let k = choose|k: int| 0 <= k < j && list0[k].name == fields[a].name;
                                assert(0 <= k < j + 1 && list0[k].name == fields[a].name);
                            }
                            if a == idx {
                                assert(list0[j].name == fields[a].name);
                            } else if named_before(list0, j + 1, fields[a].name) {
                                let k = choose|k: int|
                                    0 <= k < j + 1 && list0[k].name == fields[a].name;
                                if k == j {
                                    assert(fields[a].name == fields[idx as int].name);
                                    assert(distinct_names(fields));
                                    assert(false);
                                }
                                assert(0 <= k < j && list0[k].name == fields[a].name);
                                assert(named_before(list0, j, fields[a].name));
                            }
                        }
                        assert forall|k: int| 0 <= k < j + 1 implies declares(
                            fields,
                            #[trigger] list0[k].name,
                        ) && entries@[decl_index(fields, list0[k].name)] == Some(list0[k].init) by {
                            if k < j {
                                let d = decl_index(fields, list0[k].name);
                                assert(before[d] is Some);
                                if d == idx {
                                    assert(named_before(list0, j, fields[idx as int].name));
                                }
                            }
                        }
                        j = j + 1;
                    }
                },
            }
        }
        proof {
            assert(j == list0.len());
        }
        if matches!(kind, InitKind::Normal) {
            let mut i: usize = 0;
            while i < n
                invariant
                    fields == layout@,
                    list0 == list@,
                    data@ == fields.map_values(|f: FieldDecl| f.pinned),
                    n == fields.len(),
                    i <= n,
                    entries@.len() == n,
                    j == list0.len(),
                    list_error(fields, list0, j) is None,
                    kind is Normal,
                    forall|a: int|
                        0 <= a < n ==> ((#[trigger] entries@[a]) is Some <==> named_before(
                            list0,
                            j,
                            fields[a].name,
                        )),
                    missing_error(fields, list0, i as int) is None,
                    forall|a: int| 0 <= a < i ==> (#[trigger] entries@[a]) is Some,
                decreases n - i,
            {
                if entries[i].is_none() {
                    let name = layout.field_name(i);
                    proof {
                        assert(!mentions(list0, fields[i as int].name));
                        assert(missing_error(fields, list0, i + 1) == Some(
                            PlanError::MissingField(name),
                        ));
                        lemma_missing_error_stays(fields, list0, i + 1, n as int);
                    }
                    return Err(PlanError::MissingField(name));
                }
                i += 1;
            }
        }
        Ok(Plan { data, entries, kind })
    }
}

/// The fields that a construction following `entries` has built before it reaches field `k`,
/// in the order it built them: the listed fields before `k`, in declaration order.
pub open spec fn constructed_before<V, P, M>(
    entries: Seq<Option<FieldInit<V, P, M>>>,
    k: int,
) -> Seq<usize>
    decreases k,
{
    if k <= 0 {
        Seq::empty()
    } else {
        let s = constructed_before(entries, k - 1);
        if entries[k - 1] is Some {
            s.push((k - 1) as usize)
        } else {
            s
        }
    }
}

proof fn lemma_constructed_before<V, P, M>(entries: Seq<Option<FieldInit<V, P, M>>>, k: int)
    requires
        0 <= k <= entries.len() <= usize::MAX,
    ensures
        forall|a: int|
            0 <= a < constructed_before(entries, k).len() ==> (#[trigger] constructed_before(
                entries,
                k,
            )[a]) < k && entries[constructed_before(entries, k)[a] as int] is Some,
        forall|a: int, b: int|
            0 <= a < b < constructed_before(entries, k).len() ==> (#[trigger] constructed_before(
                entries,
                k,
            )[a]) < (#[trigger] constructed_before(entries, k)[b]),
        forall|j: int|
            0 <= j < k && (#[trigger] entries[j]) is Some ==> constructed_before(
                entries,
                k,
            ).contains(j as usize),
    decreases k,
{
    if k > 0 {
        lemma_constructed_before(entries, k - 1);
        let s = constructed_before(entries, k - 1);
        if entries[k - 1] is Some {
            assert(s.push((k - 1) as usize)[s.len() as int] == (k - 1) as usize);
        }
        assert forall|j: int| 0 <= j < k && (#[trigger] entries[j]) is Some implies constructed_before(
            entries,
            k,
        ).contains(j as usize) by {
            if j < k - 1 {
                assert(s.contains(j as usize));
                let a = choose|a: int| 0 <= a < s.len() && s[a] == j as usize;
                assert(constructed_before(entries, k)[a] == j as usize);
            } else {
                assert(constructed_before(entries, k)[s.len() as int] == j as usize);
            }
        }
    }
}

/// In a construction where every field is listed, the fields built before field `k` are
/// fields `0` to `k - 1`, in declaration order.
pub proof fn lemma_all_listed_constructed_before<V, P, M>(
    entries: Seq<Option<FieldInit<V, P, M>>>,
    k: int,
)
    requires
        0 <= k <= entries.len() <= usize::MAX,
        forall|i: int| 0 <= i < entries.len() ==> (#[trigger] entries[i]) is Some,
    ensures
        constructed_before(entries, k) == declaration_order(k as nat),
    decreases k,
{
    if k > 0 {
        lemma_all_listed_constructed_before(entries, k - 1);
        assert(constructed_before(entries, k) =~= declaration_order(k as nat));
    }
}

/// Fires the armed guards in reverse order of arming: the destructor of each guarded field runs,
/// last armed first.
fn unwind<V>(slot: &mut Slot<V>, guards: Vec<usize>)
    requires
        forall|a: int, b: int|
            0 <= a < b < guards@.len() ==> (#[trigger] guards@[a]) < (#[trigger] guards@[b]),
        forall|a: int|
            0 <= a < guards@.len() ==> (#[trigger] guards@[a]) < old(slot).cells().len()
                && old(slot).cells()[guards@[a] as int] is Some,
    ensures
        final(slot).cells().len() == old(slot).cells().len(),
        final(slot).log() == old(slot).log() + guards@.reverse(),
        final(slot).built_log() == old(slot).built_log(),
        forall|j: int|
            0 <= j < old(slot).cells().len() ==> (#[trigger] final(slot).cells()[j]) == if guards@.contains(
                j as usize,
            ) {
                None
            } else {
                old(slot).cells()[j]
            },
{
    let ghost g0 = guards@;
    let ghost len = g0.len() as int;
    let total = slot.len();
    let mut guards = guards;
    while guards.len() > 0
        invariant
            old(slot).cells().len() == total,
            slot.built_log() == old(slot).built_log(),
            forall|a: int, b: int| 0 <= a < b < len ==> (#[trigger] g0[a]) < (#[trigger] g0[b]),
            forall|a: int|
                0 <= a < len ==> (#[trigger] g0[a]) < old(slot).cells().len()
                    && old(slot).cells()[g0[a] as int] is Some,
            len == g0.len(),
            guards@.len() <= len,
            guards@ == g0.subrange(0, guards@.len() as int),
            slot.cells().len() == old(slot).cells().len(),
            slot.log() == old(slot).log() + g0.subrange(guards@.len() as int, len).reverse(),
            forall|j: int|
                0 <= j < old(slot).cells().len() ==> (#[trigger] slot.cells()[j]) == if g0.subrange(
                    guards@.len() as int,
                    len,
                ).contains(j as usize) {
                    None
                } else {
                    old(slot).cells()[j]
                },
        decreases guards@.len(),
    {
        let ghost m = guards@.len() as int;
        let ghost pre = guards@;
        let i = guards.pop().unwrap();
        assert(pre[m - 1] == g0[m - 1]);
        assert(i == g0[m - 1]);
        let ghost done = g0.subrange(m, len);
        let ghost now = g0.subrange(m - 1, len);
        assert(!done.contains(i)) by {
            if done.contains(i) {
                let a = choose|a: int| 0 <= a < done.len() && done[a] == i;
                assert(g0[m + a] == g0[m - 1]);
                assert(g0[m - 1] < g0[m + a]);
            }
        }
        slot.drop_field(i);
        proof {
            assert(now.reverse() =~= done.reverse().push(i));
            assert(slot.log() =~= old(slot).log() + now.reverse());
            assert forall|j: int| 0 <= j < old(slot).cells().len() implies (#[trigger] slot.cells()[j])
                == if now.contains(j as usize) {
                None
            } else {
                old(slot).cells()[j]
            } by {
                if now.contains(j as usize) && j != i {
                    let a = choose|a: int| 0 <= a < now.len() && now[a] == j as usize;
                    assert(done[a - 1] == j as usize);
                }
                if done.contains(j as usize) {
                    let a = choose|a: int| 0 <= a < done.len() && done[a] == j as usize;
                    assert(now[a + 1] == j as usize);
                }
                if j == i {
                    assert(now[0] == i);
                }
            }
        }
    }
    proof {
        assert(g0.subrange(0, len) =~= g0);
    }
}

/// A construction following `entries` stopped at field `k` with error `e`: field `k` is listed,
/// filling it is what failed with `e`, and every listed field before it was built.
pub open spec fn stopped_at<V, E, P: PinInit<V, E>, M: Init<V, E>>(
    entries: Seq<Option<FieldInit<V, P, M>>>,
    k: int,
    e: E,
) -> bool {
    &&& 0 <= k < entries.len()
    &&& entries[k] is Some
    &&& field_outcome(entries[k]->Some_0, None, Some(e))
    &&& forall|j: int|
        0 <= j < k && (#[trigger] entries[j]) is Some ==> exists|v: V|
            #[trigger] field_outcome(entries[j]->Some_0, Some(v), None)
}

/// `init` is a ready outcome that fails with `e`.
pub open spec fn fails_with<V, E>(init: FieldInit<V, Result<V, E>, Result<V, E>>, e: E) -> bool {
    match init {
        FieldInit::Value(_) => false,
        FieldInit::Pinned(x) => x == Err::<V, E>(e),
        FieldInit::Movable(x) => x == Err::<V, E>(e),
    }
}

/// When every field is filled by a value or a ready outcome, a construction stops only at the
/// first listed field whose outcome is an error, and only with that very error.
pub proof fn lemma_stops_at_first_failure<V, E>(
    entries: Seq<Option<FieldInit<V, Result<V, E>, Result<V, E>>>>,
    k: int,
    e: E,
)
    requires
        stopped_at(entries, k, e),
    ensures
        fails_with(entries[k]->Some_0, e),
        forall|j: int, x: E|
            0 <= j < k && entries[j] is Some ==> !(#[trigger] fails_with(entries[j]->Some_0, x)),
{
    assert forall|j: int, x: E|
        0 <= j < k && entries[j] is Some implies !(#[trigger] fails_with(
            entries[j]->Some_0,
            x,
        )) by {
        let v = choose|v: V| #[trigger] field_outcome(entries[j]->Some_0, Some(v), None);
        assert(field_outcome(entries[j]->Some_0, Some(v), None));
    }
}

impl<V, P, M> Plan<V, P, M> {
    /// Fills the listed fields in declaration order, each in its own storage, arming a guard
    /// after each one that succeeds; when one fails, fires the armed guards in reverse order and
    /// hands back its error. A listed field's old cell contents are discarded without running a
    /// destructor.
    fn fill<E>(self, slot: &mut Slot<V>) -> (r: Result<(), E>) where
        P: PinInit<V, E>,
        M: Init<V, E>,

        requires
            self.wf(),
            old(slot).cells().len() == self.entries().len(),
        ensures
            final(slot).cells().len() == old(slot).cells().len(),
            r is Ok ==> {
                &&& final(slot).log() == old(slot).log()
                &&& final(slot).built_log() == old(slot).built_log() + constructed_before(
                    self.entries(),
                    self.entries().len() as int,
                )
                &&& forall|j: int|
                    0 <= j < self.entries().len() ==> if (#[trigger] self.entries()[j]) is Some {
                        &&& final(slot).cells()[j] is Some
                        &&& field_outcome(self.entries()[j]->Some_0, final(slot).cells()[j], None)
                    } else {
                        final(slot).cells()[j] == old(slot).cells()[j]
                    }
            },
            r is Err ==> exists|k: int|
                {
                    &&& #[trigger] stopped_at(self.entries(), k, r->Err_0)
                    &&& final(slot).log() == old(slot).log() + constructed_before(
                        self.entries(),
                        k,
                    ).reverse()
                    &&& final(slot).built_log() == old(slot).built_log() + constructed_before(
                        self.entries(),
                        k,
                    )
                    &&& forall|j: int|
                        0 <= j < self.entries().len() ==> if j <= k && (
                        #[trigger] self.entries()[j]) is Some {
                            final(slot).cells()[j] is None
                        } else {
                            final(slot).cells()[j] == old(slot).cells()[j]
                        }
                },
    {
        let ghost orig = self.entries();
        let Plan { data, entries, kind: _ } = self;
        let mut entries = entries;
        let n = entries.len();
        let mut guards: Vec<usize> = Vec::new();
        let mut failure: Option<E> = None;
        let mut i: usize = 0;
        while i < n
            invariant_except_break
                failure is None,
                forall|j: int| i <= j < n ==> (#[trigger] entries@[j]) == orig[j],
                guards@ == constructed_before(orig, i as int),
                slot.built_log() == old(slot).built_log() + constructed_before(orig, i as int),
                forall|j: int|
                    0 <= j < n ==> if j < i && (#[trigger] orig[j]) is Some {
                        &&& slot.cells()[j] is Some
                        &&& field_outcome(orig[j]->Some_0, slot.cells()[j], None)
                    } else {
                        slot.cells()[j] == old(slot).cells()[j]
                    },
            invariant
                n == orig.len() == data@.len() == entries@.len(),
                forall|j: int|
                    0 <= j < n && (#[trigger] orig[j]) is Some ==> accepts(
                        data@[j],
                        orig[j]->Some_0,
                    ),
                i <= n,
                slot.cells().len() == n,
                slot.log() == old(slot).log(),
            ensures
                failure is None ==> {
                    &&& guards@ == constructed_before(orig, n as int)
                    &&& slot.built_log() == old(slot).built_log() + constructed_before(
                        orig,
                        n as int,
                    )
                    &&& forall|j: int|
                        0 <= j < n ==> if (#[trigger] orig[j]) is Some {
                            &&& slot.cells()[j] is Some
                            &&& field_outcome(orig[j]->Some_0, slot.cells()[j], None)
                        } else {
                            slot.cells()[j] == old(slot).cells()[j]
                        }
                },
                failure matches Some(e) ==> {
                    &&& i < n
                    &&& orig[i as int] is Some
                    &&& field_outcome(orig[i as int]->Some_0, None, Some(e))
                    &&& guards@ == constructed_before(orig, i as int)
                    &&& slot.built_log() == old(slot).built_log() + constructed_before(
                        orig,
                        i as int,
                    )
                    &&& forall|j: int|
                        0 <= j < n ==> if j < i && (#[trigger] orig[j]) is Some {
                            &&& slot.cells()[j] is Some
                            &&& field_outcome(orig[j]->Some_0, slot.cells()[j], None)
                        } else if j == i {
                            slot.cells()[j] is None
                        } else {
                            slot.cells()[j] == old(slot).cells()[j]
                        }
                },
            decreases n - i,
        {
            let mut entry: Option<FieldInit<V, P, M>> = None;
            entries.set_and_swap(i, &mut entry);
            match entry {
                None => {},
                Some(init) => {
                    let ghost given = init;
                    // A zero value left here by zeroing needs no destructor.
                    slot.put_cell(i, Opaque::uninit());
                    let res = slot.build_field(&data, i, init);
                    match res {
                        Ok(()) => {
                            guards.push(i);
                        },
                        Err(e) => {
                            proof {
                                assert(field_outcome(given, None, Some(e)));
                            }
                            failure = Some(e);
                            break;
                        },
                    }
                },
            }
            i += 1;
        }
        let ghost mut stop: int = 0;
        let r = match failure {
            None => Ok(()),
            Some(e) => {
                proof {
                    stop = i as int;
                    lemma_constructed_before(orig, i as int);
                    let k = i as int;
                    assert forall|j: int| 0 <= j < k && (#[trigger] orig[j]) is Some implies exists|
                        v: V,
                    | #[trigger] field_outcome(orig[j]->Some_0, Some(v), None) by {
                        assert(field_outcome(orig[j]->Some_0, Some(slot.cells()[j]->Some_0), None));
                    }
                    assert(stopped_at(orig, k, e));
                }
                unwind(&mut *slot, guards);
                proof {
                    let k = i as int;
                    let g = constructed_before(orig, k);
                    assert forall|j: int| 0 <= j < n implies if j <= k && (
                    #[trigger] orig[j]) is Some {
                        slot.cells()[j] is None
                    } else {
                        slot.cells()[j] == old(slot).cells()[j]
                    } by {
                        if g.contains(j as usize) {
                            let a = choose|a: int| 0 <= a < g.len() && g[a] == j as usize;
                            assert(g[a] < k);
                        }
                        if j < k && orig[j] is Some {
                            assert(g.contains(j as usize));
                        }
                    }
                    assert(stopped_at(orig, k, e));
                    assert(slot.log() == old(slot).log() + g.reverse());
                    assert(slot.built_log() == old(slot).built_log() + g);
                }
                Err(e)
            },
        };
        proof {
            if r is Err {
                assert(stopped_at(orig, stop, r->Err_0));
                assert(slot.log() == old(slot).log() + constructed_before(orig, stop).reverse());
                assert(slot.built_log() == old(slot).built_log() + constructed_before(orig, stop));
            }
        }
        r
    }
}

impl<V, P, M> Plan<V, P, M> {
    /// Builds the composite value in `slot`, every field being listed.
    ///
    /// Fields are filled in declaration order, each in its own storage. On success every field
    /// holds what filling it produced, fields `0` to `n - 1` were built once each and no
    /// destructor has run. When filling field `k` fails, its error is handed back unchanged:
    /// fields `0` to `k - 1` were built and are destroyed in reverse order, the fields after `k`
    /// are never built, and the storage is left without a value.
    pub fn pin_init<E>(self, slot: &mut Slot<V>) -> (r: Result<(), E>) where
        P: PinInit<V, E>,
        M: Init<V, E>,

        requires
            self.wf(),
            self.kind() is Normal,
            old(slot).cells().len() == self.entries().len(),
            old(slot).is_uninit(),
        ensures
            final(slot).cells().len() == old(slot).cells().len(),
            r is Ok ==> {
                &&& final(slot).is_init()
                &&& final(slot).log() == old(slot).log()
                &&& final(slot).built_log() == old(slot).built_log() + declaration_order(
                    self.entries().len(),
                )
                &&& forall|i: int|
                    0 <= i < self.entries().len() ==> field_outcome(
                        (#[trigger] self.entries()[i])->Some_0,
                        final(slot).cells()[i],
                        None,
                    )
            },
            r is Err ==> {
                &&& final(slot).is_uninit()
                &&& exists|k: int|
                    {
                        &&& #[trigger] stopped_at(self.entries(), k, r->Err_0)
                        &&& final(slot).log() == old(slot).log() + declaration_order(
                            k as nat,
                        ).reverse()
                        &&& final(slot).built_log() == old(slot).built_log() + declaration_order(
                            k as nat,
                        )
                    }
            },
    {
        let ghost entries = self.entries();
        let n = slot.len();
        let r = self.fill(slot);
        proof {
            assert(entries.len() == n);
            if r is Err {
                let k = choose|k: int|
                    {
                        &&& #[trigger] stopped_at(entries, k, r->Err_0)
                        &&& slot.log() == old(slot).log() + constructed_before(entries, k).reverse()
                        &&& slot.built_log() == old(slot).built_log() + constructed_before(
                            entries,
                            k,
                        )
                        &&& forall|j: int|
                            0 <= j < entries.len() ==> if j <= k && (#[trigger] entries[j]) is Some {
                                slot.cells()[j] is None
                            } else {
                                slot.cells()[j] == old(slot).cells()[j]
                            }
                    };
                lemma_all_listed_constructed_before(entries, k);
                assert forall|j: int| 0 <= j < slot.cells().len() implies (
                #[trigger] slot.cells()[j]) is None by {
                    assert(entries[j] is Some);
                    assert(old(slot).cells()[j] is None);
                }
                assert(stopped_at(entries, k, r->Err_0));
            } else {
                lemma_all_listed_constructed_before(entries, entries.len() as int);
                assert forall|j: int| 0 <= j < slot.cells().len() implies (
                #[trigger] slot.cells()[j]) is Some by {
                    assert(entries[j] is Some);
                }
            }
        }
        r
    }
}

impl<V: Zeroable, P, M> Plan<V, P, M> {
    /// Zeroes the whole of `slot`, then builds the listed fields over their zero values; the
    /// fields left out keep their zero value.
    ///
    /// Listed fields are filled in declaration order, each in its own storage. On success each
    /// listed field holds what filling it produced and no destructor has run. When filling a
    /// listed field fails, its error is handed back unchanged: the listed fields before it were
    /// built and are destroyed in reverse order, the listed fields after it are never built, and
    /// the storage is left without a value.
    pub fn pin_init_zeroed<E>(self, slot: &mut Slot<V>) -> (r: Result<(), E>) where
        P: PinInit<V, E>,
        M: Init<V, E>,

        requires
            self.wf(),
            old(slot).cells().len() == self.entries().len(),
            old(slot).is_uninit(),
        ensures
            final(slot).cells().len() == old(slot).cells().len(),
            r is Ok ==> {
                &&& final(slot).is_init()
                &&& final(slot).log() == old(slot).log()
                &&& final(slot).built_log() == old(slot).built_log() + constructed_before(
                    self.entries(),
                    self.entries().len() as int,
                )
                &&& forall|i: int|
                    0 <= i < self.entries().len() ==> if (#[trigger] self.entries()[i]) is Some {
                        field_outcome(self.entries()[i]->Some_0, final(slot).cells()[i], None)
                    } else {
                        final(slot).cells()[i] == Some(V::zero())
                    }
            },
            r is Err ==> {
                &&& final(slot).is_uninit()
                &&& exists|k: int|
                    {
                        &&& #[trigger] stopped_at(self.entries(), k, r->Err_0)
                        &&& final(slot).log() == old(slot).log() + constructed_before(
                            self.entries(),
                            k,
                        ).reverse()
                        &&& final(slot).built_log() == old(slot).built_log() + constructed_before(
                            self.entries(),
                            k,
                        )
                    }
            },
    {
        let ghost entries = self.entries();
        slot.zero_fill();
        let ghost zeroed = *slot;
        let r = self.fill(slot);
        let ghost mut stop: int = 0;
        proof {
            if r is Err {
                stop = choose|k: int|
                    {
                        &&& #[trigger] stopped_at(entries, k, r->Err_0)
                        &&& slot.log() == zeroed.log() + constructed_before(entries, k).reverse()
                        &&& slot.built_log() == zeroed.built_log() + constructed_before(entries, k)
                        &&& forall|j: int|
                            0 <= j < entries.len() ==> if j <= k && (#[trigger] entries[j]) is Some {
                                slot.cells()[j] is None
                            } else {
                                slot.cells()[j] == zeroed.cells()[j]
                            }
                    };
            } else {
                assert forall|i: int| 0 <= i < slot.cells().len() implies (
                #[trigger] slot.cells()[i]) is Some by {
                    if entries[i] is None {
                        assert(slot.cells()[i] == Some(V::zero()));
                    }
                }
            }
        }
        if r.is_err() {
            slot.release();
        }
        proof {
            if r is Err {
                assert(stopped_at(entries, stop, r->Err_0));
            }
        }
        r
    }
}

} // verus!

use vstd::prelude::*;

use crate::init::{error_of, Init, PinInit};
use crate::types::Opaque;

verus! {

/// One declared field of a composite type: its name and whether it is structurally pinned.
pub struct FieldDecl {
    pub name: u64,
    pub pinned: bool,
}

/// The declared fields of a composite type, in declaration order, with distinct names.
pub struct StructLayout {
    fields: Vec<FieldDecl>,
}

/// How the caller asks for one field to be filled.
pub enum FieldInit<V, P, M> {
    /// The field is moved in from a value (`field: value`).
    Value(V),
    /// The field is filled in place by a pin-respecting initializer (`field <- init`).
    Pinned(P),
    /// The field is filled in place by a relocatable initializer (`field <- init`).
    Movable(M),
}

/// Filling a field by `init` may leave `value` in its storage and fail with `error` (or succeed
/// when `error` is `None`): a value is moved in and never fails, an initializer has one of its
/// own outcomes.
pub open spec fn field_outcome<V, E, P: PinInit<V, E>, M: Init<V, E>>(
    init: FieldInit<V, P, M>,
    value: Option<V>,
    error: Option<E>,
) -> bool {
    match init {
        FieldInit::Value(v) => value == Some(v) && error is None,
        FieldInit::Pinned(p) => p.pinned_outcome(value, error),
        FieldInit::Movable(m) => m.outcome(value, error),
    }
}

/// No two declarations share a name.
pub open spec fn distinct_names(fields: Seq<FieldDecl>) -> bool {
    forall|i: int, j: int|
        0 <= i < fields.len() && 0 <= j < fields.len() && i != j ==> fields[i].name != fields[j].name
}

/// `name` is declared by one of `fields`.
pub open spec fn declares(fields: Seq<FieldDecl>, name: u64) -> bool {
    exists|i: int| 0 <= i < fields.len() && fields[i].name == name
}

/// The position of the declaration of `name`.
pub open spec fn decl_index(fields: Seq<FieldDecl>, name: u64) -> int {
    choose|i: int| 0 <= i < fields.len() && fields[i].name == name
}

/// A field with the given pin classification may be filled this way: a structurally pinned
/// field takes only a value or a pin-respecting initializer, a plain field takes any.
pub open spec fn accepts<V, P, M>(pinned: bool, init: FieldInit<V, P, M>) -> bool {
    !(pinned && init is Movable)
}

impl View for StructLayout {
    type V = Seq<FieldDecl>;

    closed spec fn view(&self) -> Seq<FieldDecl> {
        self.fields@
    }
}

impl StructLayout {
    /// The layout's invariant: field names are distinct.
    pub open spec fn wf(self) -> bool {
        distinct_names(self@)
    }

    /// Makes the layout of a type declaring `fields` in this order; `None` when two share a name.
    pub fn new(fields: Vec<FieldDecl>) -> (r: Option<StructLayout>)
        ensures
            r is Some <==> distinct_names(fields@),
            r is Some ==> r->Some_0@ == fields@ && r->Some_0.wf(),
    {
        let n = fields.len();
        let mut i: usize = 0;
        while i < n
            invariant
                n == fields@.len(),
                i <= n,
                forall|a: int, b: int|
                    0 <= a < i && 0 <= b < n && a != b ==> fields@[a].name != fields@[b].name,
            decreases n - i,
        {
            let mut j: usize = 0;
            while j < n
                invariant
                    n == fields@.len(),
                    i < n,
                    j <= n,
                    forall|b: int| 0 <= b < j && b != i ==> fields@[i as int].name != fields@[b].name,
                decreases n - j,
            {
                if j != i && fields[i].name == fields[j].name {
                    return None;
                }
                j += 1;
            }
            i += 1;
        }
        Some(StructLayout { fields })
    }

    /// Number of declared fields.
    pub fn len(&self) -> (r: usize)
        ensures
            r == self@.len(),
    {
        self.fields.len()
    }

    /// The name of the `i`-th declared field.
    pub fn field_name(&self, i: usize) -> (r: u64)
        requires
            i < self@.len(),
        ensures
            r == self@[i as int].name,
    {
        self.fields[i].name
    }

    /// The position of the declaration named `name`, if there is one.
    pub fn find(&self, name: u64) -> (r: Option<usize>)
        requires
            self.wf(),
        ensures
            r is Some <==> declares(self@, name),
            r is Some ==> r->Some_0 == decl_index(self@, name) && r->Some_0 < self@.len()
                && self@[r->Some_0 as int].name == name,
    {
        let mut i: usize = 0;
        while i < self.fields.len()
            invariant
                self.wf(),
                i <= self@.len(),
                forall|k: int| 0 <= k < i ==> self@[k].name != name,
            decreases self@.len() - i,
        {
            if self.fields[i].name == name {
                proof {
                    assert(self@[i as int].name == name);
                    assert(declares(self@, name));
                    let c = decl_index(self@, name);
                    assert(self@[c].name == name && 0 <= c < self@.len());
                    assert(c == i) by {
                        if c != i {
                            assert(self@[c].name != self@[i as int].name);
                        }
                    }
                }
                return Some(i);
            }
            i += 1;
        }
        None
    }

    /// The per-field dispatcher of this type.
    pub fn pin_data(&self) -> (r: PinData)
        ensures
            r@ == self@.map_values(|f: FieldDecl| f.pinned),
    {
        let mut pinned: Vec<bool> = Vec::new();
        let mut i: usize = 0;
        while i < self.fields.len()
            invariant
                i <= self@.len(),
                pinned@ == self@.subrange(0, i as int).map_values(|f: FieldDecl| f.pinned),
            decreases self@.len() - i,
        {
            pinned.push(self.fields[i].pinned);
            i += 1;
            assert(pinned@ =~= self@.subrange(0, i as int).map_values(|f: FieldDecl| f.pinned));
        }
        assert(self@.subrange(0, i as int) =~= self@);
        PinData { pinned }
    }
}

/// The per-type field dispatcher: one entry point per field, which fills that field only with
/// an initializer of the kind its pin classification allows.
pub struct PinData {
    pinned: Vec<bool>,
}

impl View for PinData {
    type V = Seq<bool>;

    closed spec fn view(&self) -> Seq<bool> {
        self.pinned@
    }
}

impl PinData {
    /// Number of fields.
    pub fn len(&self) -> (r: usize)
        ensures
            r == self@.len(),
    {
        self.pinned.len()
    }

    /// Whether field `i` is structurally pinned.
    pub fn is_pinned(&self, i: usize) -> (r: bool)
        requires
            i < self@.len(),
        ensures
            r == self@[i as int],
    {
        self.pinned[i]
    }

    /// Whether field `i` may be filled by `init`.
    pub fn admits<V, P, M>(&self, i: usize, init: &FieldInit<V, P, M>) -> (r: bool)
        requires
            i < self@.len(),
        ensures
            r == accepts(self@[i as int], *init),
    {
        !(self.pinned[i] && matches!(init, FieldInit::Movable(_)))
    }

    /// Fills field `i`, whose storage is `slot`, with `init`: a value is written as it is, an
    /// initializer is run on the slot.
    pub fn init_field<V, E, P: PinInit<V, E>, M: Init<V, E>>(
        &self,
        i: usize,
        init: FieldInit<V, P, M>,
        slot: &mut Opaque<V>,
    ) -> (r: Result<(), E>)
        requires
            i < self@.len(),
            accepts(self@[i as int], init),
            old(slot)@ is None,
        ensures
            r is Ok <==> final(slot)@ is Some,
            field_outcome(init, final(slot)@, error_of(r)),
    {
        match init {
            FieldInit::Value(v) => {
                slot.write(v);
                Ok(())
            },
            FieldInit::Pinned(p) => p.__pinned_init(slot),
            FieldInit::Movable(m) => m.__init(slot),
        }
    }
}

} // verus!

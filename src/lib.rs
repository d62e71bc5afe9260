//! In-place, fallible construction of composite values.
//!
//! A composite value is built field by field directly in its storage. Each field is either
//! moved in by value or filled by an initializer; after every field that succeeds a drop guard
//! is armed, and when a later field fails the armed guards fire in reverse order before the
//! error is handed back, so that storage never holds a partly built value.

mod heapsize;
mod init;
mod layout;
mod mentor;
mod plan;
mod slot;
mod types;

pub use heapsize::{testsyn, HeapSize, Nested};
pub use init::{
    built_by, element_failed, element_pinned_failed, elements_built, elements_pinned, error_of,
    init_array_from_fn, pin_init_array_from_fn, pinned_built_by, ready_outcome, ArrayInit,
    InPlaceInit, Init, PinInit, Zeroable,
};
pub use layout::{
    accepts, decl_index, declares, distinct_names, field_outcome, FieldDecl, FieldInit, PinData, StructLayout,
};
pub use mentor::{is_valid, TOTAL_WRITES_ADDR};
pub use plan::{
    constructed_before, entry_error, fails_with, lemma_stops_at_first_failure, lemma_all_listed_constructed_before, lemma_incomplete_list_refused,
    list_error, mentions, missing_error, named_before, plan_error, stopped_at, FieldEntry, InitKind, Plan, PlanError,
};
pub use slot::{declaration_order, lemma_each_field_destroyed_once, Slot};
pub use types::{Either, Opaque, ScopeGuard};

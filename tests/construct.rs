use inplace::{
    FieldDecl, FieldEntry, FieldInit, InitKind, Plan, PlanError, Slot, StructLayout,
};

#[derive(Debug, Clone, Copy, PartialEq, Eq)]
struct Failed(u32);

type Entry = FieldEntry<i64, Result<i64, Failed>, Result<i64, Failed>>;

fn layout(decls: &[(u64, bool)]) -> StructLayout {
    let fields = decls
        .iter()
        .map(|&(name, pinned)| FieldDecl { name, pinned })
        .collect();
    StructLayout::new(fields).expect("distinct field names")
}

fn value(name: u64, v: i64) -> Entry {
    FieldEntry { name, init: FieldInit::Value(v) }
}

fn pinned(name: u64, outcome: Result<i64, Failed>) -> Entry {
    FieldEntry { name, init: FieldInit::Pinned(outcome) }
}

fn movable(name: u64, outcome: Result<i64, Failed>) -> Entry {
    FieldEntry { name, init: FieldInit::Movable(outcome) }
}

fn cells(slot: &Slot<i64>) -> Vec<Option<i64>> {
    (0..slot.len()).map(|i| slot.get(i).copied()).collect()
}

#[test]
fn layout_refuses_repeated_names() {
    let fields = vec![
        FieldDecl { name: 1, pinned: false },
        FieldDecl { name: 1, pinned: true },
    ];
    assert!(StructLayout::new(fields).is_none());
}

#[test]
fn failing_field_unwinds_the_fields_before_it() {
    // Four fields; each position in turn is made to fail.
    for k in 0..4usize {
        let l = layout(&[(10, false), (11, true), (12, false), (13, true)]);
        let list: Vec<Entry> = (0..4usize)
            .map(|i| {
                let outcome = if i == k { Err(Failed(i as u32)) } else { Ok(i as i64 * 100) };
                pinned(10 + i as u64, outcome)
            })
            .collect();
        let plan = Plan::new(&l, list, InitKind::Normal).unwrap();
        let mut slot = Slot::new(4);
        let r = plan.pin_init::<Failed>(&mut slot);
        assert_eq!(r, Err(Failed(k as u32)));
        let expected: Vec<usize> = (0..k).rev().collect();
        assert_eq!(slot.drop_log(), &expected);
        let built: Vec<usize> = (0..k).collect();
        assert_eq!(slot.build_log(), &built);
        assert_eq!(cells(&slot), vec![None, None, None, None]);
    }
}

#[test]
fn guards_fire_in_reverse_order_of_construction() {
    let l = layout(&[(1, false), (2, false), (3, true), (4, false)]);
    let list = vec![
        value(1, 7),
        movable(2, Ok(8)),
        pinned(3, Ok(9)),
        movable(4, Err(Failed(4))),
    ];
    let plan = Plan::new(&l, list, InitKind::Normal).unwrap();
    let mut slot = Slot::new(4);
    assert_eq!(plan.pin_init(&mut slot), Err(Failed(4)));
    assert_eq!(slot.drop_log(), &vec![2, 1, 0]);
}

#[test]
fn fields_are_built_in_declaration_order_whatever_the_list_order() {
    let l = layout(&[(1, false), (2, false), (3, false)]);
    let list = vec![movable(3, Ok(30)), movable(2, Err(Failed(2))), value(1, 10)];
    let plan = Plan::new(&l, list, InitKind::Normal).unwrap();
    let mut slot = Slot::new(3);
    assert_eq!(plan.pin_init(&mut slot), Err(Failed(2)));
    // Only the first declared field was built before the second failed.
    assert_eq!(slot.drop_log(), &vec![0]);
}

#[test]
fn omitted_field_is_refused_before_any_write() {
    let l = layout(&[(1, false), (2, false), (3, false)]);
    let list = vec![value(1, 1), value(3, 3)];
    let r = Plan::new(&l, list, InitKind::Normal);
    assert_eq!(r.err(), Some(PlanError::MissingField(2)));
    let slot: Slot<i64> = Slot::new(3);
    assert!(slot.drop_log().is_empty());
    assert_eq!(cells(&slot), vec![None, None, None]);
}

#[test]
fn repeated_field_is_refused() {
    let l = layout(&[(1, false), (2, false)]);
    let list = vec![value(1, 1), value(2, 2), value(1, 3)];
    let r = Plan::new(&l, list, InitKind::Normal);
    assert_eq!(r.err(), Some(PlanError::DuplicateField(1)));
}

#[test]
fn repeated_field_is_refused_when_zeroing() {
    let l = layout(&[(1, false), (2, false)]);
    let list = vec![value(2, 1), value(2, 2)];
    let r = Plan::new(&l, list, InitKind::Zeroing);
    assert_eq!(r.err(), Some(PlanError::DuplicateField(2)));
}

#[test]
fn undeclared_field_is_refused() {
    let l = layout(&[(1, false), (2, false)]);
    let list = vec![value(1, 1), value(9, 2), value(2, 2)];
    let r = Plan::new(&l, list, InitKind::Normal);
    assert_eq!(r.err(), Some(PlanError::UnknownField(9)));
}

#[test]
fn pinned_field_refuses_a_relocatable_initializer() {
    let l = layout(&[(1, true), (2, false)]);
    let list = vec![movable(1, Ok(1)), value(2, 2)];
    let r = Plan::new(&l, list, InitKind::Normal);
    assert_eq!(r.err(), Some(PlanError::PinnedField(1)));
    // A plain field takes either kind.
    let list = vec![pinned(1, Ok(1)), pinned(2, Ok(2))];
    assert!(Plan::new(&l, list, InitKind::Normal).is_ok());
}

#[test]
fn first_faulty_entry_decides_the_error() {
    let l = layout(&[(1, false), (2, false), (3, false)]);
    let list = vec![value(1, 1), value(1, 1), value(7, 0)];
    let r = Plan::new(&l, list, InitKind::Normal);
    assert_eq!(r.err(), Some(PlanError::DuplicateField(1)));
}

#[test]
fn zero_fill_keeps_unlisted_fields_at_zero() {
    let l = layout(&[(1, false), (2, false), (3, true), (4, false)]);
    let list = vec![pinned(3, Ok(-12))];
    let plan = Plan::new(&l, list, InitKind::Zeroing).unwrap();
    let mut slot = Slot::new(4);
    assert_eq!(plan.pin_init_zeroed::<Failed>(&mut slot), Ok(()));
    assert_eq!(cells(&slot), vec![Some(0), Some(0), Some(-12), Some(0)]);
    assert!(slot.drop_log().is_empty());
}

#[test]
fn zero_fill_failure_unwinds_only_listed_fields() {
    let l = layout(&[(1, false), (2, false), (3, false), (4, false)]);
    let list = vec![value(2, 5), movable(4, Err(Failed(9)))];
    let plan = Plan::new(&l, list, InitKind::Zeroing).unwrap();
    let mut slot = Slot::new(4);
    assert_eq!(plan.pin_init_zeroed(&mut slot), Err(Failed(9)));
    assert_eq!(slot.drop_log(), &vec![1]);
    assert_eq!(slot.build_log(), &vec![1]);
    assert_eq!(cells(&slot), vec![None, None, None, None]);
}

#[test]
fn success_runs_no_destructor_and_destroy_runs_each_once() {
    let l = layout(&[(1, false), (2, true), (3, false)]);
    let list = vec![value(1, 1), pinned(2, Ok(2)), movable(3, Ok(3))];
    let plan = Plan::new(&l, list, InitKind::Normal).unwrap();
    let mut slot = Slot::new(3);
    assert_eq!(plan.pin_init::<Failed>(&mut slot), Ok(()));
    assert!(slot.drop_log().is_empty());
    assert_eq!(slot.build_log(), &vec![0, 1, 2]);
    assert_eq!(cells(&slot), vec![Some(1), Some(2), Some(3)]);
    slot.destroy();
    assert_eq!(slot.drop_log(), &vec![0, 1, 2]);
    assert_eq!(cells(&slot), vec![None, None, None]);
}

#[test]
fn value_and_failing_owned_field() {
    // `{a: int, b: Owned<int>}` with `a: 5, b <- fallible_init(fails)`.
    let l = layout(&[(0xa, false), (0xb, true)]);
    let list = vec![value(0xa, 5), pinned(0xb, Err(Failed(1)))];
    let plan = Plan::new(&l, list, InitKind::Normal).unwrap();
    let mut slot = Slot::new(2);
    assert_eq!(plan.pin_init(&mut slot), Err(Failed(1)));
    // `a`'s guard fired, `b` was never written, nothing is left in the storage.
    assert_eq!(slot.drop_log(), &vec![0]);
    assert_eq!(slot.build_log(), &vec![0]);
    assert_eq!(cells(&slot), vec![None, None]);
}

#[test]
fn zero_fill_with_one_field_given() {
    // `{a: int, b: int}` zero-filled with only `a: 7`.
    let l = layout(&[(0xa, false), (0xb, false)]);
    let list = vec![value(0xa, 7)];
    let plan = Plan::new(&l, list, InitKind::Zeroing).unwrap();
    let mut slot = Slot::new(2);
    assert_eq!(plan.pin_init_zeroed::<Failed>(&mut slot), Ok(()));
    assert_eq!(cells(&slot), vec![Some(7), Some(0)]);
}

#[test]
fn normal_plan_needs_every_field_but_zeroing_plan_does_not() {
    let l = layout(&[(1, false), (2, false)]);
    assert_eq!(
        Plan::new(&l, vec![value(2, 1)], InitKind::Normal).err(),
        Some(PlanError::MissingField(1))
    );
    assert!(Plan::new(&l, vec![value(2, 1)], InitKind::Zeroing).is_ok());
    assert!(Plan::new(&l, Vec::<Entry>::new(), InitKind::Zeroing).is_ok());
}

#[test]
fn empty_type_builds_from_an_empty_list() {
    let l = layout(&[]);
    let plan = Plan::new(&l, Vec::<Entry>::new(), InitKind::Normal).unwrap();
    let mut slot = Slot::new(0);
    assert_eq!(plan.pin_init::<Failed>(&mut slot), Ok(()));
    assert!(slot.drop_log().is_empty());
}

#[test]
fn pin_data_follows_the_layout() {
    let l = layout(&[(1, true), (2, false)]);
    let data = l.pin_data();
    assert_eq!(data.len(), 2);
    assert!(data.is_pinned(0));
    assert!(!data.is_pinned(1));
    let relocatable: FieldInit<i64, Result<i64, Failed>, Result<i64, Failed>> =
        FieldInit::Movable(Ok(1));
    assert!(!data.admits(0, &relocatable));
    assert!(data.admits(1, &relocatable));
    assert_eq!(l.find(2), Some(1));
    assert_eq!(l.find(3), None);
    assert_eq!(l.field_name(0), 1);
}

#[test]
fn two_values_then_a_failing_initializer() {
    let l = layout(&[(b'x' as u64, false), (b'y' as u64, false), (b'z' as u64, false)]);
    let list = vec![
        value(b'x' as u64, 1),
        value(b'y' as u64, 2),
        movable(b'z' as u64, Err(Failed(26))),
    ];
    let plan = Plan::from_list(&l, list, InitKind::Normal);
    let mut slot = Slot::new(3);
    assert_eq!(plan.pin_init(&mut slot), Err(Failed(26)));
    assert_eq!(slot.drop_log(), &vec![1, 0]);
    assert_eq!(slot.build_log(), &vec![0, 1]);
    assert_eq!(cells(&slot), vec![None, None, None]);
}

#[test]
fn checked_list_builds_a_plan() {
    let l = layout(&[(1, true), (2, false)]);
    let plan = Plan::from_list(&l, vec![value(2, 20), pinned(1, Ok(10))], InitKind::Normal);
    let mut slot = Slot::new(2);
    assert_eq!(plan.pin_init::<Failed>(&mut slot), Ok(()));
    assert_eq!(cells(&slot), vec![Some(10), Some(20)]);
    assert_eq!(slot.build_log(), &vec![0, 1]);
}

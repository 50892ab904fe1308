use std::collections::BTreeSet;

use hut_content_schema::answer::Answer;
use hut_content_schema::behavior::{sort_by_id, PuzzleBehavior};
use hut_content_schema::patch::{Patch, PatchDomain, PatchOp};

fn behavior(id: i32, title: &str) -> PuzzleBehavior {
    PuzzleBehavior { id, title: title.to_string(), base_resource: id * 100, init_grant: false, patch: vec![], answer: vec![] }
}

#[test]
fn patch_op_resource_ids() {
    assert_eq!(PatchOp::Hide(PatchDomain::Content, "a".into()).get_resource_id(), None);
    assert_eq!(PatchOp::Insert(PatchDomain::Data, "a".into(), 902).get_resource_id(), Some(902));
    assert_eq!(PatchOp::Replace(PatchDomain::Hint, "a".into(), 906, 908).get_resource_id(), Some(908));
}

#[test]
fn patch_op_renders_with_version() {
    let hide = PatchOp::Hide(PatchDomain::Content, "content-a".into());
    assert_eq!(hide.build_with_version(None), Some(("content", "content-a".to_string(), "hide".to_string())));
    assert_eq!(hide.build_with_version(Some(4)), Some(("content", "content-a".to_string(), "hide".to_string())));
    let insert = PatchOp::Insert(PatchDomain::Data, "data-b".into(), 902);
    assert_eq!(insert.build_with_version(Some(3)), Some(("data", "data-b".to_string(), "insert_902v3".to_string())));
    assert_eq!(insert.build_with_version(None), None);
    let replace = PatchOp::Replace(PatchDomain::Hint, "hint-a".into(), 906, 908);
    assert_eq!(
        replace.build_with_version(Some(-12)),
        Some(("hint", "hint-a".to_string(), "replace_906_908v-12".to_string()))
    );
    assert_eq!(replace.build_with_version(None), None);
    let negative = PatchOp::Insert(PatchDomain::Content, "x".into(), -5);
    assert_eq!(
        negative.build_with_version(Some(i64::MIN)),
        Some(("content", "x".to_string(), "insert_-5v-9223372036854775808".to_string()))
    );
}

#[test]
fn load_patches_collects_ops_of_selected_patches_in_order() {
    let mut b = behavior(1, "Puzzle A");
    b.patch = vec![
        Patch { patch_id: 902, cross_version: false, do_not_grant: false, op: vec![PatchOp::Insert(PatchDomain::Content, "content-b".into(), 902)] },
        Patch { patch_id: 908, cross_version: false, do_not_grant: true, op: vec![] },
        Patch {
            patch_id: 902,
            cross_version: true,
            do_not_grant: false,
            op: vec![
                PatchOp::Hide(PatchDomain::Content, "content-a".into()),
                PatchOp::Replace(PatchDomain::Content, "hint-a".into(), 906, 908),
            ],
        },
    ];
    let selected: BTreeSet<i32> = [902].into_iter().collect();
    let ops = b.load_patches(&selected);
    assert_eq!(ops.len(), 3);
    assert_eq!(*ops[0], PatchOp::Insert(PatchDomain::Content, "content-b".into(), 902));
    assert_eq!(*ops[1], PatchOp::Hide(PatchDomain::Content, "content-a".into()));
    assert_eq!(*ops[2], PatchOp::Replace(PatchDomain::Content, "hint-a".into(), 906, 908));
    let none: BTreeSet<i32> = BTreeSet::new();
    assert!(b.load_patches(&none).is_empty());
}

#[test]
fn ids_convert_into_wider_types() {
    let b = behavior(7, "P");
    let scope: i64 = b.get_scope_id();
    let puzzle: i128 = b.get_puzzle_id();
    let base: i64 = b.get_base_resource();
    assert_eq!(scope, 7);
    assert_eq!(puzzle, 7);
    assert_eq!(base, 700);
}

#[test]
fn sort_by_id_is_stable_and_ascending() {
    let items = vec![behavior(2, "B"), behavior(1, "A1"), behavior(3, "C"), behavior(1, "A2"), behavior(2, "B2")];
    let sorted = sort_by_id(items);
    let got: Vec<(i32, &str)> = sorted.iter().map(|b| (b.id, b.title.as_str())).collect();
    assert_eq!(got, vec![(1, "A1"), (1, "A2"), (2, "B"), (2, "B2"), (3, "C")]);
    assert!(sort_by_id(vec![]).is_empty());
}

#[test]
fn answer_defaults_are_empty() {
    let a = Answer::default();
    assert_eq!(a.answer, "");
    assert!(a.patch.is_empty() && a.unlockes.is_empty() && a.grants.is_empty());
    assert_eq!(a.normalization, None);
}

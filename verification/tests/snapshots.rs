use myers_diff::snapshot::changes;
use myers_diff::snapshot::find_stamp;
use myers_diff::snapshot::is_gone;
use myers_diff::snapshot::is_same;
use myers_diff::snapshot::same_path;
use myers_diff::snapshot::seen_changed;
use myers_diff::snapshot::Action;
use myers_diff::snapshot::Change;
use myers_diff::snapshot::DirCache;
use myers_diff::snapshot::Stamp;

fn stamp(modified: u128) -> Stamp {
    Stamp { file_type: 0, is_dir: false, modified, accessed: 7, created: 3, permissions: 0 }
}

fn entry(path: &str, modified: u128) -> DirCache {
    DirCache { path: path.bytes().collect(), metadata: stamp(modified) }
}

#[test]
fn same_metadata_in_every_field() {
    let base = stamp(10);
    assert!(is_same(&base, &stamp(10)));
    assert!(!is_same(&base, &Stamp { file_type: 1, ..base }));
    assert!(!is_same(&base, &Stamp { is_dir: true, ..base }));
    assert!(!is_same(&base, &Stamp { modified: 11, ..base }));
    assert!(!is_same(&base, &Stamp { accessed: 8, ..base }));
    assert!(!is_same(&base, &Stamp { created: 4, ..base }));
    assert!(!is_same(&base, &Stamp { permissions: 1, ..base }));
}

#[test]
fn same_path_compares_bytes() {
    assert!(same_path(&b"a/b".to_vec(), &b"a/b".to_vec()));
    assert!(same_path(&Vec::new(), &Vec::new()));
    assert!(!same_path(&b"a/b".to_vec(), &b"a/c".to_vec()));
    assert!(!same_path(&b"a/b".to_vec(), &b"a/bc".to_vec()));
    assert!(!same_path(&b"a/b".to_vec(), &b"b/b".to_vec()));
}

#[test]
fn nothing_changed_reports_nothing() {
    let state = vec![entry("a", 1), entry("b", 2)];
    assert_eq!(changes(&state, &state.clone()), vec![]);
    assert_eq!(changes(&Vec::new(), &Vec::new()), vec![]);
}

#[test]
fn created_modified_then_deleted() {
    let prev_state = vec![entry("gone", 1), entry("kept", 2), entry("touched", 3), entry("lost", 4)];
    let new_state = vec![entry("new", 9), entry("touched", 5), entry("kept", 2), entry("newer", 9)];
    assert_eq!(
        changes(&prev_state, &new_state),
        vec![
            Change { action: Action::Create, index: 0 },
            Change { action: Action::Modify, index: 1 },
            Change { action: Action::Create, index: 3 },
            Change { action: Action::Delete, index: 0 },
            Change { action: Action::Delete, index: 3 },
        ]
    );
}

#[test]
fn everything_created_or_deleted() {
    let state = vec![entry("a", 1), entry("b", 2)];
    assert_eq!(
        changes(&Vec::new(), &state),
        vec![
            Change { action: Action::Create, index: 0 },
            Change { action: Action::Create, index: 1 },
        ]
    );
    assert_eq!(
        changes(&state, &Vec::new()),
        vec![
            Change { action: Action::Delete, index: 0 },
            Change { action: Action::Delete, index: 1 },
        ]
    );
}

#[test]
fn a_repeated_path_is_created_after_it_was_modified() {
    let prev_state = vec![entry("a", 1)];
    let new_state = vec![entry("a", 1), entry("a", 2), entry("a", 1), entry("a", 2)];
    assert_eq!(
        changes(&prev_state, &new_state),
        vec![
            Change { action: Action::Modify, index: 1 },
            Change { action: Action::Create, index: 2 },
            Change { action: Action::Create, index: 3 },
        ]
    );
}

#[test]
fn the_first_entry_of_a_path_counts() {
    let prev_state = vec![entry("a", 1), entry("a", 2)];
    assert_eq!(find_stamp(&prev_state, &b"a".to_vec()), Some(stamp(1)));
    assert_eq!(find_stamp(&prev_state, &b"b".to_vec()), None);
    assert_eq!(changes(&prev_state, &vec![entry("a", 1)]), vec![]);
    assert_eq!(
        changes(&prev_state, &vec![entry("a", 2)]),
        vec![Change { action: Action::Modify, index: 0 }]
    );
    assert_eq!(
        changes(&prev_state, &vec![entry("b", 2)]),
        vec![
            Change { action: Action::Create, index: 0 },
            Change { action: Action::Delete, index: 0 },
            Change { action: Action::Delete, index: 1 },
        ]
    );
}

#[test]
fn earlier_entries_with_other_metadata() {
    let state = vec![entry("a", 1), entry("b", 5), entry("a", 2), entry("a", 1)];
    assert!(!seen_changed(&state, 0, &stamp(1)));
    assert!(!seen_changed(&state, 2, &stamp(1)));
    assert!(seen_changed(&state, 3, &stamp(1)));
    assert!(seen_changed(&state, 3, &stamp(2)));
    assert!(!seen_changed(&state, 1, &stamp(1)));
}

#[test]
fn gone_means_no_entry_with_the_path() {
    let prev_state = vec![entry("a", 1), entry("b", 2)];
    let new_state = vec![entry("b", 3)];
    assert!(is_gone(&prev_state, &new_state, 0));
    assert!(!is_gone(&prev_state, &new_state, 1));
    assert!(is_gone(&prev_state, &Vec::new(), 1));
}

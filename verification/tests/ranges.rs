use myers_diff::graph::DiffError;
use myers_diff::model::EditOp;
use myers_diff::ranges::coalesce;
use myers_diff::ranges::follows_on;
use myers_diff::ranges::EditRange;
use myers_diff::script::diff_bytes;

fn expand(ranges: &[EditRange]) -> Vec<EditOp> {
    let mut script = Vec::new();
    for range in ranges {
        for k in 0..range.len {
            script.push(match range.first {
                EditOp::Equal(i) => EditOp::Equal(i + k),
                EditOp::Delete(i) => EditOp::Delete(i + k),
                EditOp::Insert(j) => EditOp::Insert(j + k),
            });
        }
    }
    script
}

#[test]
fn abundance_in_three_ranges() {
    let script = diff_bytes("abundance".bytes().collect(), "abundy".bytes().collect(), 54).unwrap();
    assert_eq!(
        coalesce(&script),
        vec![
            EditRange { first: EditOp::Equal(0), len: 5 },
            EditRange { first: EditOp::Delete(5), len: 4 },
            EditRange { first: EditOp::Insert(5), len: 1 },
        ]
    );
}

#[test]
fn empty_script_has_no_ranges() {
    assert_eq!(coalesce(&Vec::new()), Vec::<EditRange>::new());
}

#[test]
fn single_step_is_one_range() {
    assert_eq!(
        coalesce(&vec![EditOp::Insert(9)]),
        vec![EditRange { first: EditOp::Insert(9), len: 1 }]
    );
}

#[test]
fn ranges_break_at_kind_and_at_gap() {
    let script = vec![
        EditOp::Equal(0),
        EditOp::Equal(1),
        EditOp::Delete(2),
        EditOp::Equal(3),
        EditOp::Equal(5),
        EditOp::Equal(4),
        EditOp::Insert(4),
        EditOp::Insert(5),
        EditOp::Insert(6),
        EditOp::Insert(6),
    ];
    let ranges = coalesce(&script);
    assert_eq!(
        ranges,
        vec![
            EditRange { first: EditOp::Equal(0), len: 2 },
            EditRange { first: EditOp::Delete(2), len: 1 },
            EditRange { first: EditOp::Equal(3), len: 1 },
            EditRange { first: EditOp::Equal(5), len: 1 },
            EditRange { first: EditOp::Equal(4), len: 1 },
            EditRange { first: EditOp::Insert(4), len: 3 },
            EditRange { first: EditOp::Insert(6), len: 1 },
        ]
    );
    assert_eq!(expand(&ranges), script);
}

#[test]
fn ranges_stand_for_the_script() {
    let a: Vec<u8> = "the quick brown fox jumps".bytes().collect();
    let b: Vec<u8> = "a quick brown dog jumped over".bytes().collect();
    let script = diff_bytes(a, b, usize::MAX).unwrap();
    let ranges = coalesce(&script);
    assert_eq!(expand(&ranges), script);
    assert!(ranges.iter().all(|range| range.len >= 1));
    for pair in ranges.windows(2) {
        let last = expand(&pair[..1]).pop().unwrap();
        assert!(!follows_on(last, pair[1].first));
    }
}

#[test]
fn follows_on_needs_kind_and_next_index() {
    assert!(follows_on(EditOp::Equal(3), EditOp::Equal(4)));
    assert!(follows_on(EditOp::Delete(0), EditOp::Delete(1)));
    assert!(follows_on(EditOp::Insert(7), EditOp::Insert(8)));
    assert!(!follows_on(EditOp::Equal(3), EditOp::Equal(3)));
    assert!(!follows_on(EditOp::Equal(3), EditOp::Equal(5)));
    assert!(!follows_on(EditOp::Equal(3), EditOp::Equal(2)));
    assert!(!follows_on(EditOp::Equal(3), EditOp::Delete(4)));
    assert!(!follows_on(EditOp::Delete(3), EditOp::Insert(4)));
    assert!(!follows_on(EditOp::Insert(usize::MAX), EditOp::Insert(0)));
    assert!(follows_on(EditOp::Insert(usize::MAX - 1), EditOp::Insert(usize::MAX)));
}

#[test]
fn bytes_over_the_ceiling_are_turned_down() {
    assert_eq!(diff_bytes(vec![1, 2, 3], vec![4, 5], 5), Err(DiffError::InputTooLarge));
    assert_eq!(
        diff_bytes(vec![1, 2, 3], vec![4, 5], 6),
        Ok(vec![
            EditOp::Delete(0),
            EditOp::Delete(1),
            EditOp::Delete(2),
            EditOp::Insert(0),
            EditOp::Insert(1),
        ])
    );
}

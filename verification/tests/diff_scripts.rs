use myers_diff::graph::DiffError;
use myers_diff::graph::MyersGraph;
use myers_diff::model::EditOp;
use myers_diff::script::cost;
use myers_diff::script::diff;
use myers_diff::script::fits_budget;

fn chars(text: &str) -> Vec<char> {
    Vec::from_iter(String::from(text).chars())
}

fn script_of(source: &str, destination: &str) -> Vec<EditOp> {
    diff(chars(source), chars(destination), usize::MAX).unwrap()
}

/// Length of a longest common subsequence, by the table of all prefixes.
fn lcs_table(a: &[char], b: &[char]) -> Vec<Vec<usize>> {
    let mut table = vec![vec![0usize; b.len() + 1]; a.len() + 1];
    for i in 1..=a.len() {
        for j in 1..=b.len() {
            table[i][j] = if a[i - 1] == b[j - 1] {
                table[i - 1][j - 1] + 1
            } else {
                table[i - 1][j].max(table[i][j - 1])
            };
        }
    }
    table
}

/// The script that walks the table back from the terminal corner: a diagonal
/// wherever the units are equal, else the insertion where it is as good as
/// the deletion.
fn script_by_table(a: &[char], b: &[char]) -> Vec<EditOp> {
    let table = lcs_table(a, b);
    let mut back = Vec::new();
    let (mut i, mut j) = (a.len(), b.len());
    while i > 0 || j > 0 {
        if i > 0 && j > 0 && a[i - 1] == b[j - 1] {
            back.push(EditOp::Equal(i - 1));
            i -= 1;
            j -= 1;
        } else if j > 0 && (i == 0 || table[i][j - 1] >= table[i - 1][j]) {
            back.push(EditOp::Insert(j - 1));
            j -= 1;
        } else {
            back.push(EditOp::Delete(i - 1));
            i -= 1;
        }
    }
    back.reverse();
    back
}

fn apply_to_destination(script: &[EditOp], a: &[char], b: &[char]) -> Vec<char> {
    let mut out = Vec::new();
    for op in script {
        match op {
            EditOp::Equal(i) => out.push(a[*i]),
            EditOp::Insert(j) => out.push(b[*j]),
            EditOp::Delete(_) => {}
        }
    }
    out
}

fn apply_to_source(script: &[EditOp], a: &[char]) -> Vec<char> {
    let mut out = Vec::new();
    for op in script {
        match op {
            EditOp::Equal(i) => out.push(a[*i]),
            EditOp::Delete(i) => out.push(a[*i]),
            EditOp::Insert(_) => {}
        }
    }
    out
}

fn words(alphabet: &[char], longest: usize) -> Vec<Vec<char>> {
    let mut all: Vec<Vec<char>> = vec![Vec::new()];
    let mut last: Vec<Vec<char>> = vec![Vec::new()];
    for _ in 0..longest {
        let mut next = Vec::new();
        for word in &last {
            for letter in alphabet {
                let mut longer = word.clone();
                longer.push(*letter);
                next.push(longer);
            }
        }
        all.extend(next.iter().cloned());
        last = next;
    }
    all
}

#[test]
fn abundance_to_abundy() {
    let script = script_of("abundance", "abundy");
    assert_eq!(
        script,
        vec![
            EditOp::Equal(0),
            EditOp::Equal(1),
            EditOp::Equal(2),
            EditOp::Equal(3),
            EditOp::Equal(4),
            EditOp::Delete(5),
            EditOp::Delete(6),
            EditOp::Delete(7),
            EditOp::Delete(8),
            EditOp::Insert(5),
        ]
    );
    assert_eq!(cost(&script), 5);
}

#[test]
fn empty_source_inserts_everything() {
    let script = script_of("", "abc");
    assert_eq!(script, vec![EditOp::Insert(0), EditOp::Insert(1), EditOp::Insert(2)]);
    assert_eq!(cost(&script), 3);
}

#[test]
fn empty_destination_deletes_everything() {
    let script = script_of("abc", "");
    assert_eq!(script, vec![EditOp::Delete(0), EditOp::Delete(1), EditOp::Delete(2)]);
    assert_eq!(cost(&script), 3);
}

#[test]
fn both_empty_gives_empty_script() {
    let script = script_of("", "");
    assert_eq!(script, Vec::<EditOp>::new());
    assert_eq!(cost(&script), 0);
}

#[test]
fn over_the_ceiling_is_turned_down() {
    assert_eq!(diff(chars("abc"), chars("xyz"), 8), Err(DiffError::InputTooLarge));
    assert_eq!(diff(chars("abcd"), chars("xy"), 7), Err(DiffError::InputTooLarge));
    assert_eq!(diff(chars("a"), chars("b"), 0), Err(DiffError::InputTooLarge));
}

#[test]
fn at_the_ceiling_is_accepted() {
    assert!(diff(chars("abc"), chars("xyz"), 9).is_ok());
    assert!(diff(chars("abcd"), chars("xy"), 8).is_ok());
    assert_eq!(diff(chars(""), chars("xyz"), 0), Ok(vec![
        EditOp::Insert(0),
        EditOp::Insert(1),
        EditOp::Insert(2),
    ]));
}

#[test]
fn budget_counts_product_and_nodes() {
    assert!(fits_budget(3, 3, 9));
    assert!(!fits_budget(3, 3, 8));
    assert!(fits_budget(0, 1000, 0));
    assert!(!fits_budget(usize::MAX, 2, usize::MAX));
    assert!(!fits_budget(usize::MAX, 0, usize::MAX));
    assert!(!fits_budget(0, usize::MAX, 5));
    assert!(fits_budget(usize::MAX - 1, 0, 0));
    assert!(!fits_budget(1 << (usize::BITS / 2), 1 << (usize::BITS / 2), usize::MAX));
}

#[test]
fn script_rebuilds_both_sequences() {
    let a = chars("the quick brown fox");
    let b = chars("a quick brown dog jumps");
    let script = diff(a.clone(), b.clone(), usize::MAX).unwrap();
    assert_eq!(apply_to_destination(&script, &a, &b), b);
    assert_eq!(apply_to_source(&script, &a), a);
}

#[test]
fn identical_inputs_keep_every_unit() {
    let a = chars("mississippi");
    let script = diff(a.clone(), a.clone(), usize::MAX).unwrap();
    let expected: Vec<EditOp> = (0..a.len()).map(EditOp::Equal).collect();
    assert_eq!(script, expected);
    assert_eq!(cost(&script), 0);
}

#[test]
fn cost_is_symmetric() {
    let forward = script_of("kitten", "sitting");
    let backward = script_of("sitting", "kitten");
    assert_eq!(cost(&forward), cost(&backward));
    let deletes = |script: &Vec<EditOp>| {
        script.iter().filter(|op| matches!(op, EditOp::Delete(_))).count()
    };
    let inserts = |script: &Vec<EditOp>| {
        script.iter().filter(|op| matches!(op, EditOp::Insert(_))).count()
    };
    assert_eq!(deletes(&forward), inserts(&backward));
    assert_eq!(inserts(&forward), deletes(&backward));
}

#[test]
fn cost_follows_from_lcs() {
    // A longest common subsequence of the two is "MJAU", of length 4.
    let script = script_of("XMJYAUZ", "MZJAWXU");
    assert_eq!(cost(&script), 7 + 7 - 2 * 4);
    // "kitten" and "sitting" share "ittn".
    assert_eq!(cost(&script_of("kitten", "sitting")), 6 + 7 - 2 * 4);
}

#[test]
fn diagonal_wins_a_tie() {
    assert_eq!(script_of("aa", "a"), vec![EditOp::Delete(0), EditOp::Equal(1)]);
    assert_eq!(script_of("a", "aa"), vec![EditOp::Insert(0), EditOp::Equal(0)]);
}

#[test]
fn insertion_wins_a_tie_against_deletion() {
    assert_eq!(script_of("a", "b"), vec![EditOp::Delete(0), EditOp::Insert(0)]);
    assert_eq!(
        script_of("ab", "ba"),
        vec![EditOp::Delete(0), EditOp::Equal(1), EditOp::Insert(1)]
    );
}

#[test]
fn scripts_agree_with_the_table_walk() {
    let all = words(&['a', 'b', 'c'], 4);
    for a in &all {
        for b in &all {
            let script = diff(a.clone(), b.clone(), usize::MAX).unwrap();
            assert_eq!(script, script_by_table(a, b));
            let table = lcs_table(a, b);
            assert_eq!(cost(&script), a.len() + b.len() - 2 * table[a.len()][b.len()]);
            assert_eq!(apply_to_destination(&script, a, b), *b);
            assert_eq!(apply_to_source(&script, a), *a);
        }
    }
}

#[test]
fn bytes_are_units_too() {
    let a: Vec<u8> = "abundance".bytes().collect();
    let b: Vec<u8> = "abundy".bytes().collect();
    let script = diff(a, b, 9 * 6).unwrap();
    assert_eq!(cost(&script), 5);
    assert_eq!(script.len(), 10);
}

#[test]
fn cost_counts_deletions_and_insertions() {
    assert_eq!(cost(&Vec::new()), 0);
    assert_eq!(cost(&vec![EditOp::Equal(0), EditOp::Equal(1)]), 0);
    assert_eq!(
        cost(&vec![EditOp::Delete(0), EditOp::Equal(1), EditOp::Insert(1), EditOp::Insert(2)]),
        3
    );
}

#[test]
fn match_table_is_not_the_input() {
    // Only the pairwise comparison tells that unit 2 of the source equals
    // unit 0 of the destination.
    let graph = MyersGraph::new(chars("xyz"), chars("zxy"));
    assert!(graph.units_match(2, 0));
    assert!(graph.units_match(0, 1));
    assert!(graph.units_match(1, 2));
    assert!(!graph.units_match(0, 0));
    assert!(!graph.units_match(1, 1));
    assert!(!graph.units_match(2, 2));
    assert_eq!(
        script_of("xyz", "zxy"),
        vec![EditOp::Insert(0), EditOp::Equal(0), EditOp::Equal(1), EditOp::Delete(2)]
    );
}

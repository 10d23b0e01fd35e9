use levdiff::changes::Change;
use levdiff::levenshtein::levenshtein_diff;

/// Applies an edit script to `source`, taking the operations in the reverse
/// of the order the backtracker emitted them (earliest position first). A
/// position that refers to the source text is shifted by the net growth the
/// edits already applied have caused; an insertion's position already names
/// the slot in the text being built.
fn apply_changes(source: &str, changes: &[Change]) -> String {
    let mut cur: Vec<char> = source.chars().collect();
    let mut delta: isize = 0;
    for op in changes.iter().rev() {
        match *op {
            Change::Insertion(c, p) => {
                cur.insert(p, c);
                delta += 1;
            }
            Change::Deletion(c, p) => {
                let k = (p as isize + delta) as usize;
                assert_eq!(cur[k], c);
                cur.remove(k);
                delta -= 1;
            }
            Change::Substitution(c1, c2, p) => {
                let k = (p as isize + delta) as usize;
                assert_eq!(cur[k], c1);
                cur[k] = c2;
            }
        }
    }
    cur.into_iter().collect()
}

#[test]
fn test_empty_strings() {
    let changes = levenshtein_diff("", "").unwrap();
    assert_eq!(changes.len(), 0);
}

#[test]
fn test_insertion() {
    let changes = levenshtein_diff("abc", "abcd").unwrap();
    assert_eq!(changes.len(), 1);
    assert_eq!(changes[0], Change::Insertion('d', 3));
}

#[test]
fn test_deletion() {
    let changes = levenshtein_diff("abcd", "abc").unwrap();
    assert_eq!(changes.len(), 1);
    assert_eq!(changes[0], Change::Deletion('d', 3));
}

#[test]
fn test_substitution() {
    let changes = levenshtein_diff("abcd", "abed").unwrap();
    assert_eq!(changes.len(), 1);
    assert_eq!(changes[0], Change::Substitution('c', 'e', 2));
}

#[test]
fn test_multiple_changes() {
    let changes = levenshtein_diff("abcd", "abedf").unwrap();
    assert_eq!(changes.len(), 2);
    assert_eq!(changes[0], Change::Insertion('f', 4));
    assert_eq!(changes[1], Change::Substitution('c', 'e', 2));
}

#[test]
fn test_same_string() {
    let changes = levenshtein_diff("abcd", "abcd").unwrap();
    assert_eq!(changes.len(), 0);
}

#[test]
fn test_many_changes() {
    let changes = levenshtein_diff("abcd", "abefgh").unwrap();
    assert_eq!(changes.len(), 4);

    assert_eq!(changes[0], Change::Insertion('h', 5));
    assert_eq!(changes[1], Change::Insertion('g', 4));
    assert_eq!(changes[2], Change::Substitution('d', 'f', 3));
    assert_eq!(changes[3], Change::Substitution('c', 'e', 2));
}

#[test]
fn test_medium_string() {
    let changes = levenshtein_diff(
        "Lorem ipsum dolor sit amet, consectetur adipiscing elit. Sed non risus. Suspendisse",
        "Lorem ipsum dolor sit amet, consectetur adipiscing elit. Sed non risus. Suspendisse",
    )
    .unwrap();
    assert_eq!(changes.len(), 0);
}

#[test]
fn test_trailing_insertions() {
    let changes = levenshtein_diff("", "abc").unwrap();
    assert_eq!(changes.len(), 3);
    assert_eq!(changes[0], Change::Insertion('c', 2));
    assert_eq!(changes[1], Change::Insertion('b', 1));
    assert_eq!(changes[2], Change::Insertion('a', 0));
}

#[test]
fn test_trailing_deletions() {
    let changes = levenshtein_diff("abc", "").unwrap();
    assert_eq!(changes.len(), 3);
    assert_eq!(changes[0], Change::Deletion('c', 2));
    assert_eq!(changes[1], Change::Deletion('b', 1));
    assert_eq!(changes[2], Change::Deletion('a', 0));
}

#[test]
fn test_round_trip() {
    let pairs = [
        ("", ""),
        ("abc", "abcd"),
        ("abcd", "abc"),
        ("abcd", "abed"),
        ("abcd", "abedf"),
        ("abcd", "abefgh"),
        ("", "abc"),
        ("abc", ""),
        ("kitten", "sitting"),
        ("flaw", "lawn"),
        ("Sunday", "Saturday"),
        ("ne\u{e9}", "n\u{e9}e"),
    ];
    for (one, two) in pairs {
        let changes = levenshtein_diff(one, two).unwrap();
        assert_eq!(apply_changes(one, &changes), two);
    }
}

#[test]
fn test_round_trip_tied_costs() {
    // Every step of this walk is a substitution taken on a cost tie; the
    // script is one operation longer than the edit distance of two, yet it
    // still rebuilds the target.
    let changes = levenshtein_diff("aba", "bab").unwrap();
    assert_eq!(changes.len(), 3);
    assert_eq!(changes[0], Change::Substitution('a', 'b', 2));
    assert_eq!(changes[1], Change::Substitution('b', 'a', 1));
    assert_eq!(changes[2], Change::Substitution('a', 'b', 0));
    assert_eq!(apply_changes("aba", &changes), "bab");
}

#[test]
fn test_op_count_is_distance() {
    let cases = [
        ("", "", 0),
        ("abc", "abcd", 1),
        ("abcd", "abc", 1),
        ("abcd", "abed", 1),
        ("abcd", "abedf", 2),
        ("abcd", "abefgh", 4),
        ("", "abc", 3),
        ("abc", "", 3),
    ];
    for (one, two, distance) in cases {
        let changes = levenshtein_diff(one, two).unwrap();
        assert_eq!(changes.len(), distance);
    }
}

#[test]
fn test_deterministic() {
    let first = levenshtein_diff("kitten", "sitting").unwrap();
    let second = levenshtein_diff("kitten", "sitting").unwrap();
    assert_eq!(first, second);
}

#[test]
fn test_non_ascii_positions() {
    // Positions count characters, not bytes.
    let changes = levenshtein_diff("caf\u{e9}", "caf\u{e9}s").unwrap();
    assert_eq!(changes.len(), 1);
    assert_eq!(changes[0], Change::Insertion('s', 4));
}

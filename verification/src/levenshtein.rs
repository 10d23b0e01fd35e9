use vstd::prelude::*;

use crate::changes::Change;

verus! {

/// The failures a diff computation can report.
#[derive(Debug, Clone, Copy, PartialEq, Eq, Structural)]
pub enum DiffError {
    /// An internal position could not be decremented or looked up. That
    /// would be a defect of the engine itself, and the verified code never
    /// produces it.
    IndexExhaustion,
    /// The inputs are too large for the distance matrix: a text so long
    /// that its one-past-the-end index does not fit a machine word.
    ResourceExhaustion,
}

/// The least of three values.
pub open spec fn min3(a: int, b: int, c: int) -> int {
    if a <= b && a <= c {
        a
    } else if b <= c {
        b
    } else {
        c
    }
}

/// The Levenshtein distance between the first `i` characters of `s` and the
/// first `j` characters of `t`: the least number of single-character
/// insertions, deletions and substitutions that turns the one into the other.
pub open spec fn edit_dist(s: Seq<char>, t: Seq<char>, i: int, j: int) -> int
    decreases i + j when 0 <= i && 0 <= j
{
    if i <= 0 {
        j
    } else if j <= 0 {
        i
    } else if s[i - 1] == t[j - 1] {
        edit_dist(s, t, i - 1, j - 1)
    } else {
        1 + min3(
            edit_dist(s, t, i - 1, j),
            edit_dist(s, t, i, j - 1),
            edit_dist(s, t, i - 1, j - 1),
        )
    }
}

/// Every prefix distance is non-negative and at most the longer of the two
/// prefix lengths.
proof fn lemma_dist_bounds(s: Seq<char>, t: Seq<char>, i: int, j: int)
    requires
        0 <= i,
        0 <= j,
    ensures
        0 <= edit_dist(s, t, i, j),
        edit_dist(s, t, i, j) <= (if i >= j { i } else { j }),
    decreases i + j,
{
    if i > 0 && j > 0 {
        lemma_dist_bounds(s, t, i - 1, j - 1);
        lemma_dist_bounds(s, t, i - 1, j);
        lemma_dist_bounds(s, t, i, j - 1);
    }
}

/// The script the backtracker emits from cursor position `(i, j)` of the
/// distance matrix, walking toward the origin. Emission order is
/// latest-position-first. When the costs of the deletion predecessor and the
/// insertion predecessor tie, a substitution is taken; when they differ, a
/// deletion is preferred over an insertion exactly when it is cheaper.
/// Once a cursor reaches zero the rest of the other text is drained as
/// trailing insertions or deletions.
pub open spec fn backtrack(s: Seq<char>, t: Seq<char>, i: int, j: int) -> Seq<Change>
    decreases i + j when 0 <= i && 0 <= j
{
    if i <= 0 && j <= 0 {
        Seq::empty()
    } else if i <= 0 {
        seq![Change::insertion_at(t[j - 1], j - 1)] + backtrack(s, t, i, j - 1)
    } else if j <= 0 {
        seq![Change::deletion_at(s[i - 1], i - 1)] + backtrack(s, t, i - 1, j)
    } else if s[i - 1] == t[j - 1] {
        backtrack(s, t, i - 1, j - 1)
    } else if edit_dist(s, t, i - 1, j) < edit_dist(s, t, i, j - 1) {
        seq![Change::deletion_at(s[i - 1], i - 1)] + backtrack(s, t, i - 1, j)
    } else if edit_dist(s, t, i - 1, j) > edit_dist(s, t, i, j - 1) {
        seq![Change::insertion_at(t[j - 1], j - 1)] + backtrack(s, t, i, j - 1)
    } else {
        seq![Change::substitution_at(s[i - 1], t[j - 1], i - 1)] + backtrack(s, t, i - 1, j - 1)
    }
}

/// The full edit script from `s` to `t`, in the order the backtracker emits
/// it: operations at later positions come first.
pub open spec fn edit_script(s: Seq<char>, t: Seq<char>) -> Seq<Change> {
    backtrack(s, t, s.len() as int, t.len() as int)
}

/// One edit applied to a working text. `delta` is the net growth so far
/// (insertions applied minus deletions applied): a position that refers to
/// the source text is shifted by it, while an insertion's position already
/// names the slot in the text being built. `None` means the edit does not
/// fit the working text.
pub open spec fn apply_change(cur: Seq<char>, delta: int, op: Change) -> Option<(Seq<char>, int)> {
    match op {
        Change::Insertion(c, p) => {
            if p <= cur.len() {
                Some((cur.insert(p as int, c), delta + 1))
            } else {
                None
            }
        },
        Change::Deletion(c, p) => {
            let k = p + delta;
            if 0 <= k && k < cur.len() && cur[k] == c {
                Some((cur.remove(k), delta - 1))
            } else {
                None
            }
        },
        Change::Substitution(c1, c2, p) => {
            let k = p + delta;
            if 0 <= k && k < cur.len() && cur[k] == c1 {
                Some((cur.update(k, c2), delta))
            } else {
                None
            }
        },
    }
}

/// Applies `ops` to a working text starting from its last element, carrying
/// the net growth `delta` along.
pub open spec fn apply_backwards(ops: Seq<Change>, cur: Seq<char>, delta: int) -> Option<(Seq<char>, int)>
    decreases ops.len()
{
    if ops.len() == 0 {
        Some((cur, delta))
    } else {
        match apply_change(cur, delta, ops.last()) {
            Some(next) => apply_backwards(ops.drop_last(), next.0, next.1),
            None => None,
        }
    }
}

/// Applies an edit script to `s`, taking the operations in the reverse of
/// the order the backtracker emitted them, that is from the earliest
/// position to the latest.
pub open spec fn apply_script(ops: Seq<Change>, s: Seq<char>) -> Option<Seq<char>> {
    match apply_backwards(ops, s, 0) {
        Some(p) => Some(p.0),
        None => None,
    }
}

proof fn lemma_apply_backwards_concat(a: Seq<Change>, b: Seq<Change>, cur: Seq<char>, delta: int)
    ensures
        apply_backwards(a + b, cur, delta) == (match apply_backwards(b, cur, delta) {
            Some(p) => apply_backwards(a, p.0, p.1),
            None => None::<(Seq<char>, int)>,
        }),
    decreases b.len(),
{
    if b.len() == 0 {
        assert(a + b =~= a);
    } else {
        assert((a + b).last() == b.last());
        assert((a + b).drop_last() =~= a + b.drop_last());
        match apply_change(cur, delta, b.last()) {
            Some(next) => {
                lemma_apply_backwards_concat(a, b.drop_last(), next.0, next.1);
            },
            None => {},
        }
    }
}

#[verifier::rlimit(60)]
proof fn lemma_backtrack_applies(s: Seq<char>, t: Seq<char>, i: int, j: int, rest: Seq<char>)
    requires
        0 <= i <= s.len() <= usize::MAX,
        0 <= j <= t.len() <= usize::MAX,
    ensures
        apply_backwards(backtrack(s, t, i, j), s.subrange(0, i) + rest, 0)
            == Some((t.subrange(0, j) + rest, j - i)),
    decreases i + j,
{
    let script = backtrack(s, t, i, j);
    if i == 0 && j == 0 {
        assert(s.subrange(0, 0) + rest =~= rest);
        assert(t.subrange(0, 0) + rest =~= rest);
    } else if i == 0 {
        let op = Change::insertion_at(t[j - 1], j - 1);
        let tail = backtrack(s, t, i, j - 1);
        assert(script == seq![op] + tail);
        lemma_backtrack_applies(s, t, i, j - 1, rest);
        lemma_apply_backwards_concat(seq![op], tail, s.subrange(0, i) + rest, 0);
        let mid = t.subrange(0, j - 1) + rest;
        let fin = t.subrange(0, j) + rest;
        assert(seq![op].drop_last() =~= Seq::<Change>::empty());
        assert(mid.insert(j - 1, t[j - 1]) =~= fin);
        assert(apply_backwards(tail, s.subrange(0, i) + rest, 0) == Some((mid, j - 1 - i)));
        assert(apply_change(mid, j - 1 - i, op) == Some((fin, j - i)));
        assert(seq![op].last() == op);
        assert(apply_backwards(Seq::<Change>::empty(), fin, j - i) == Some((fin, j - i)));
        assert(apply_backwards(seq![op], mid, j - 1 - i) == Some((fin, j - i)));
    } else if j == 0 || (s[i - 1] != t[j - 1] && edit_dist(s, t, i - 1, j) < edit_dist(s, t, i, j - 1)) {
        let op = Change::deletion_at(s[i - 1], i - 1);
        let tail = backtrack(s, t, i - 1, j);
        assert(script == seq![op] + tail);
        let inner = seq![s[i - 1]] + rest;
        lemma_backtrack_applies(s, t, i - 1, j, inner);
        assert(s.subrange(0, i - 1) + inner =~= s.subrange(0, i) + rest);
        lemma_apply_backwards_concat(seq![op], tail, s.subrange(0, i) + rest, 0);
        let mid = t.subrange(0, j) + inner;
        let fin = t.subrange(0, j) + rest;
        assert(mid[j] == s[i - 1]);
        assert(seq![op].drop_last() =~= Seq::<Change>::empty());
        assert(mid.remove(j) =~= fin);
        assert(apply_backwards(tail, s.subrange(0, i) + rest, 0) == Some((mid, j - (i - 1))));
        assert(apply_change(mid, j - i + 1, op) == Some((fin, j - i)));
        assert(seq![op].last() == op);
        assert(apply_backwards(Seq::<Change>::empty(), fin, j - i) == Some((fin, j - i)));
        assert(apply_backwards(seq![op], mid, j - i + 1) == Some((fin, j - i)));
    } else if s[i - 1] == t[j - 1] {
        let inner = seq![s[i - 1]] + rest;
        lemma_backtrack_applies(s, t, i - 1, j - 1, inner);
        assert(s.subrange(0, i - 1) + inner =~= s.subrange(0, i) + rest);
        assert(t.subrange(0, j - 1) + inner =~= t.subrange(0, j) + rest);
    } else if edit_dist(s, t, i - 1, j) > edit_dist(s, t, i, j - 1) {
        let op = Change::insertion_at(t[j - 1], j - 1);
        let tail = backtrack(s, t, i, j - 1);
        assert(script == seq![op] + tail);
        lemma_backtrack_applies(s, t, i, j - 1, rest);
        lemma_apply_backwards_concat(seq![op], tail, s.subrange(0, i) + rest, 0);
        let mid = t.subrange(0, j - 1) + rest;
        let fin = t.subrange(0, j) + rest;
        assert(seq![op].drop_last() =~= Seq::<Change>::empty());
        assert(mid.insert(j - 1, t[j - 1]) =~= fin);
        assert(apply_backwards(tail, s.subrange(0, i) + rest, 0) == Some((mid, j - 1 - i)));
        assert(apply_change(mid, j - 1 - i, op) == Some((fin, j - i)));
        assert(seq![op].last() == op);
        assert(apply_backwards(Seq::<Change>::empty(), fin, j - i) == Some((fin, j - i)));
        assert(apply_backwards(seq![op], mid, j - 1 - i) == Some((fin, j - i)));
    } else {
        let op = Change::substitution_at(s[i - 1], t[j - 1], i - 1);
        let tail = backtrack(s, t, i - 1, j - 1);
        assert(script == seq![op] + tail);
        let inner = seq![s[i - 1]] + rest;
        lemma_backtrack_applies(s, t, i - 1, j - 1, inner);
        assert(s.subrange(0, i - 1) + inner =~= s.subrange(0, i) + rest);
        lemma_apply_backwards_concat(seq![op], tail, s.subrange(0, i) + rest, 0);
        let mid = t.subrange(0, j - 1) + inner;
        let fin = t.subrange(0, j) + rest;
        assert(mid[j - 1] == s[i - 1]);
        assert(seq![op].drop_last() =~= Seq::<Change>::empty());
        assert(mid.update(j - 1, t[j - 1]) =~= fin);
        assert(apply_backwards(tail, s.subrange(0, i) + rest, 0) == Some((mid, j - i)));
        assert(apply_change(mid, j - i, op) == Some((fin, j - i)));
        assert(seq![op].last() == op);
        assert(apply_backwards(Seq::<Change>::empty(), fin, j - i) == Some((fin, j - i)));
        assert(apply_backwards(seq![op], mid, j - i) == Some((fin, j - i)));
    }
}

/// The primary correctness law: applying the edit script to the source text,
/// earliest position first, rebuilds the target text exactly.
pub proof fn lemma_round_trip(s: Seq<char>, t: Seq<char>)
    requires
        s.len() <= usize::MAX,
        t.len() <= usize::MAX,
    ensures
        apply_script(edit_script(s, t), s) == Some(t),
{
    lemma_backtrack_applies(s, t, s.len() as int, t.len() as int, Seq::empty());
    assert(s.subrange(0, s.len() as int) + Seq::empty() =~= s);
    assert(t.subrange(0, t.len() as int) + Seq::empty() =~= t);
}

proof fn lemma_backtrack_identical(s: Seq<char>, i: int)
    requires
        0 <= i <= s.len(),
    ensures
        backtrack(s, s, i, i) == Seq::<Change>::empty(),
    decreases i,
{
    if i > 0 {
        lemma_backtrack_identical(s, i - 1);
    }
}

/// Diffing a text against itself yields the empty script; in particular so
/// does diffing the empty text against itself.
pub proof fn lemma_identical_empty(s: Seq<char>)
    ensures
        edit_script(s, s) == Seq::<Change>::empty(),
{
    lemma_backtrack_identical(s, s.len() as int);
}

/// Neighboring prefix distances differ by at most one, vertically and
/// horizontally.
proof fn lemma_dist_adjacent(s: Seq<char>, t: Seq<char>, i: int, j: int)
    requires
        0 <= i,
        0 <= j,
    ensures
        i >= 1 ==> edit_dist(s, t, i - 1, j) <= edit_dist(s, t, i, j) + 1
            && edit_dist(s, t, i, j) <= edit_dist(s, t, i - 1, j) + 1,
        j >= 1 ==> edit_dist(s, t, i, j - 1) <= edit_dist(s, t, i, j) + 1
            && edit_dist(s, t, i, j) <= edit_dist(s, t, i, j - 1) + 1,
    decreases i + j,
{
    if i >= 1 && j >= 1 {
        lemma_dist_adjacent(s, t, i - 1, j);
        lemma_dist_adjacent(s, t, i, j - 1);
    }
}

/// Holds when, along the backtracker's walk, every substitution is taken at
/// a cell whose diagonal predecessor costs no more than the tied vertical
/// and horizontal predecessors. On such walks every emitted operation lowers
/// the remaining distance by one; on the others a substitution can leave it
/// unchanged, and the script comes out longer than the distance.
pub open spec fn slack_free(s: Seq<char>, t: Seq<char>, i: int, j: int) -> bool
    decreases i + j when 0 <= i && 0 <= j
{
    if i <= 0 || j <= 0 {
        true
    } else if s[i - 1] == t[j - 1] {
        slack_free(s, t, i - 1, j - 1)
    } else if edit_dist(s, t, i - 1, j) < edit_dist(s, t, i, j - 1) {
        slack_free(s, t, i - 1, j)
    } else if edit_dist(s, t, i - 1, j) > edit_dist(s, t, i, j - 1) {
        slack_free(s, t, i, j - 1)
    } else {
        edit_dist(s, t, i - 1, j - 1) <= edit_dist(s, t, i - 1, j) && slack_free(s, t, i - 1, j - 1)
    }
}

proof fn lemma_backtrack_len_rec(s: Seq<char>, t: Seq<char>, i: int, j: int)
    requires
        0 <= i <= s.len(),
        0 <= j <= t.len(),
    ensures
        backtrack(s, t, i, j).len() >= edit_dist(s, t, i, j),
        slack_free(s, t, i, j) ==> backtrack(s, t, i, j).len() == edit_dist(s, t, i, j),
        !slack_free(s, t, i, j) ==> backtrack(s, t, i, j).len() > edit_dist(s, t, i, j),
    decreases i + j,
{
    if i == 0 && j == 0 {
    } else if i == 0 {
        lemma_backtrack_len_rec(s, t, i, j - 1);
    } else if j == 0 {
        lemma_backtrack_len_rec(s, t, i - 1, j);
    } else if s[i - 1] == t[j - 1] {
        lemma_backtrack_len_rec(s, t, i - 1, j - 1);
    } else {
        let a = edit_dist(s, t, i - 1, j);
        let b = edit_dist(s, t, i, j - 1);
        let c = edit_dist(s, t, i - 1, j - 1);
        if a < b {
            lemma_dist_adjacent(s, t, i, j - 1);
            assert(edit_dist(s, t, i, j) == 1 + a);
            lemma_backtrack_len_rec(s, t, i - 1, j);
        } else if a > b {
            lemma_dist_adjacent(s, t, i - 1, j);
            assert(edit_dist(s, t, i, j) == 1 + b);
            lemma_backtrack_len_rec(s, t, i, j - 1);
        } else {
            lemma_dist_adjacent(s, t, i - 1, j);
            assert(c <= a + 1);
            lemma_backtrack_len_rec(s, t, i - 1, j - 1);
        }
    }
}

/// The script is never shorter than the edit distance between the two
/// texts, and its length equals that distance exactly on the slack-free
/// inputs.
pub proof fn lemma_script_len(s: Seq<char>, t: Seq<char>)
    ensures
        edit_script(s, t).len() >= edit_dist(s, t, s.len() as int, t.len() as int),
        edit_script(s, t).len() == edit_dist(s, t, s.len() as int, t.len() as int)
            <==> slack_free(s, t, s.len() as int, t.len() as int),
{
    lemma_backtrack_len_rec(s, t, s.len() as int, t.len() as int);
}

/// On slack-free inputs the number of operations in the script equals the
/// final cell of the distance matrix: the edit distance itself.
pub proof fn lemma_op_count(s: Seq<char>, t: Seq<char>)
    requires
        slack_free(s, t, s.len() as int, t.len() as int),
    ensures
        edit_script(s, t).len() == edit_dist(s, t, s.len() as int, t.len() as int),
{
    lemma_script_len(s, t);
}

/// Materializes the characters of a text as a random-access vector, so that
/// the dynamic program can index them in constant time.
fn chars_of(text: &str) -> (v: Vec<char>)
    ensures
        v@ == text@,
{
    let n = text.unicode_len();
    let mut v: Vec<char> = Vec::new();
    let mut i: usize = 0;
    while i < n
        invariant
            n == text@.len(),
            i <= n,
            v@ == text@.subrange(0, i as int),
        decreases n - i,
    {
        v.push(text.get_char(i));
        proof {
            assert(text@.subrange(0, i + 1) =~= text@.subrange(0, i as int).push(text@[i as int]));
        }
        i = i + 1;
    }
    proof {
        assert(text@.subrange(0, text@.len() as int) =~= text@);
    }
    v
}

/// Builds the full (|s|+1) x (|t|+1) distance matrix: cell (i, j) holds the
/// least number of edits that turns the first i characters of `s` into the
/// first j characters of `t`. Row and column zero count plain insertions
/// and deletions; each interior cell follows from its three predecessors.
fn build_matrix(s: &Vec<char>, t: &Vec<char>) -> (m: Vec<Vec<usize>>)
    requires
        s@.len() < usize::MAX,
        t@.len() < usize::MAX,
    ensures
        m@.len() == s@.len() + 1,
        forall|r: int| 0 <= r <= s@.len() ==> (#[trigger] m@[r])@.len() == t@.len() + 1,
        forall|r: int, c: int| 0 <= r <= s@.len() && 0 <= c <= t@.len()
            ==> #[trigger] m@[r]@[c] == edit_dist(s@, t@, r, c),
{
    let mm = s.len();
    let nn = t.len();
    let mut m: Vec<Vec<usize>> = Vec::new();
    let mut i: usize = 0;
    while i <= mm
        invariant
            i <= mm + 1,
            mm == s@.len(),
            nn == t@.len(),
            mm < usize::MAX,
            nn < usize::MAX,
            m@.len() == i,
            forall|r: int| 0 <= r < i ==> (#[trigger] m@[r])@.len() == nn + 1,
            forall|r: int, c: int| 0 <= r < i && 0 <= c <= nn
                ==> #[trigger] m@[r]@[c] == edit_dist(s@, t@, r, c),
        decreases mm + 1 - i,
    {
        let mut row: Vec<usize> = Vec::new();
        let mut j: usize = 0;
        while j <= nn
            invariant
                j <= nn + 1,
                i <= mm,
                mm == s@.len(),
                nn == t@.len(),
                mm < usize::MAX,
                nn < usize::MAX,
                m@.len() == i,
                row@.len() == j,
                forall|r: int| 0 <= r < i ==> (#[trigger] m@[r])@.len() == nn + 1,
                forall|r: int, c: int| 0 <= r < i && 0 <= c <= nn
                    ==> #[trigger] m@[r]@[c] == edit_dist(s@, t@, r, c),
                forall|c: int| 0 <= c < j ==> #[trigger] row@[c] == edit_dist(s@, t@, i as int, c),
            decreases nn + 1 - j,
        {
            let val: usize;
            if i == 0 {
                val = j;
            } else if j == 0 {
                val = i;
            } else if s[i - 1] == t[j - 1] {
                val = m[i - 1][j - 1];
            } else {
                let up = m[i - 1][j];
                let left = row[j - 1];
                let diag = m[i - 1][j - 1];
                let mut best = if up < left {
                    up
                } else {
                    left
                };
                if diag < best {
                    best = diag;
                }
                proof {
                    lemma_dist_bounds(s@, t@, i as int, j as int);
                    assert(best == min3(up as int, left as int, diag as int));
                    assert(edit_dist(s@, t@, i as int, j as int)
                        == 1 + min3(up as int, left as int, diag as int));
                }
                val = 1 + best;
            }
            proof {
                assert(val == edit_dist(s@, t@, i as int, j as int));
            }
            row.push(val);
            j = j + 1;
        }
        m.push(row);
        i = i + 1;
    }
    m
}

/// Computes the edit script that turns `text1` into `text2`: the backtracker
/// walks the distance matrix from its final cell toward the origin and emits
/// the operations latest-position-first. The result is pinned to
/// `edit_script` of the two texts, so identical inputs always yield the
/// identical script. The call succeeds on every pair of texts whose lengths
/// leave room for a one-past-the-end index; past that bound the matrix
/// cannot be addressed and the call reports exhaustion instead.
pub fn levenshtein_diff(text1: &str, text2: &str) -> (r: Result<Vec<Change>, DiffError>)
    ensures
        r is Ok <==> text1@.len() < usize::MAX && text2@.len() < usize::MAX,
        r matches Ok(script) ==> script@ == edit_script(text1@, text2@),
        r matches Err(e) ==> e == DiffError::ResourceExhaustion,
{
    let s = chars_of(text1);
    let t = chars_of(text2);
    if s.len() == usize::MAX || t.len() == usize::MAX {
        return Err(DiffError::ResourceExhaustion);
    }
    let matrix = build_matrix(&s, &t);
    let mut changes: Vec<Change> = Vec::new();
    let mut i = s.len();
    let mut j = t.len();
    while i > 0 || j > 0
        invariant
            i <= s@.len(),
            j <= t@.len(),
            s@ == text1@,
            t@ == text2@,
            matrix@.len() == s@.len() + 1,
            forall|r_: int| 0 <= r_ <= s@.len() ==> (#[trigger] matrix@[r_])@.len() == t@.len() + 1,
            forall|r_: int, c_: int| 0 <= r_ <= s@.len() && 0 <= c_ <= t@.len()
                ==> #[trigger] matrix@[r_]@[c_] == edit_dist(s@, t@, r_, c_),
            changes@ + backtrack(s@, t@, i as int, j as int) == edit_script(text1@, text2@),
        decreases i + j,
    {
        let ghost pre = changes@;
        let ghost tail = backtrack(s@, t@, i as int, j as int);
        if i == 0 {
            let op = Change::Insertion(t[j - 1], j - 1);
            proof {
                assert(op == Change::insertion_at(t@[j as int - 1], j as int - 1));
                assert(tail == seq![op] + backtrack(s@, t@, i as int, j as int - 1));
            }
            changes.push(op);
            j = j - 1;
        } else if j == 0 {
            let op = Change::Deletion(s[i - 1], i - 1);
            proof {
                assert(op == Change::deletion_at(s@[i as int - 1], i as int - 1));
                assert(tail == seq![op] + backtrack(s@, t@, i as int - 1, j as int));
            }
            changes.push(op);
            i = i - 1;
        } else if s[i - 1] == t[j - 1] {
            proof {
                assert(tail == backtrack(s@, t@, i as int - 1, j as int - 1));
            }
            i = i - 1;
            j = j - 1;
        } else if matrix[i - 1][j] < matrix[i][j - 1] {
            let op = Change::Deletion(s[i - 1], i - 1);
            proof {
                assert(op == Change::deletion_at(s@[i as int - 1], i as int - 1));
                assert(tail == seq![op] + backtrack(s@, t@, i as int - 1, j as int));
            }
            changes.push(op);
            i = i - 1;
        } else if matrix[i - 1][j] > matrix[i][j - 1] {
            let op = Change::Insertion(t[j - 1], j - 1);
            proof {
                assert(op == Change::insertion_at(t@[j as int - 1], j as int - 1));
                assert(tail == seq![op] + backtrack(s@, t@, i as int, j as int - 1));
            }
            changes.push(op);
            j = j - 1;
        } else {
            let op = Change::Substitution(s[i - 1], t[j - 1], i - 1);
            proof {
                assert(op == Change::substitution_at(s@[i as int - 1], t@[j as int - 1], i as int - 1));
                assert(tail == seq![op] + backtrack(s@, t@, i as int - 1, j as int - 1));
            }
            changes.push(op);
            i = i - 1;
            j = j - 1;
        }
        proof {
            assert(changes@ + backtrack(s@, t@, i as int, j as int) =~= pre + tail);
        }
    }
    proof {
        assert(backtrack(s@, t@, 0, 0) =~= Seq::<Change>::empty());
        assert(changes@ + Seq::<Change>::empty() =~= changes@);
    }
    Ok(changes)
}

} // verus!


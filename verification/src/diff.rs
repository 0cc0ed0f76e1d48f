//! Line-level difference between two blocks of text.
//!
//! The edit script is the one a longest-common-subsequence walk produces
//! after the common leading and trailing lines have been matched directly:
//! at each point where the two sides differ, a line of the expected side is
//! deleted when that keeps at least as many shared lines as inserting the
//! actual side's line would, and inserted otherwise.

use vstd::prelude::*;
use vstd::string::StringExecFns;
use crate::text::{
    all_lack, chars_of, join_lines, lacks, lemma_join_lines_of, lemma_split_join, lemma_split_pieces,
    lines_of, lines_view, push_char, split_on_newline, split_on_newline_exec, string_from_chars,
};

verus! {

// ---------------------------------------------------------------------------
// Specification
// ---------------------------------------------------------------------------

/// The role a line plays in a [`Diff`].
///
/// "Expected" is the baseline (the old side); "actual" is the value under
/// test (the new side).
#[derive(Debug, Clone, Copy, PartialEq, Eq, Hash, Structural)]
pub enum Change {
    /// The line is present, unchanged, in both the expected and actual text.
    Equal,
    /// The line is present in the expected text but missing from the actual
    /// text. Rendered with a leading `-`.
    Delete,
    /// The line is present in the actual text but was not expected. Rendered
    /// with a leading `+`.
    Insert,
}

/// The marker a change is rendered with: `' '`, `'-'` or `'+'`.
pub open spec fn marker_of(c: Change) -> char {
    match c {
        Change::Equal => ' ',
        Change::Delete => '-',
        Change::Insert => '+',
    }
}

/// Every line of `lines`, tagged with `c`.
pub open spec fn tagged(c: Change, lines: Seq<Seq<char>>) -> Seq<(Change, Seq<char>)> {
    lines.map_values(|l: Seq<char>| (c, l))
}

/// The length of a longest common subsequence of `a` and `b`.
pub open spec fn lcs_len(a: Seq<Seq<char>>, b: Seq<Seq<char>>) -> nat
    decreases a.len() + b.len(),
{
    if a.len() == 0 || b.len() == 0 {
        0
    } else if a[0] == b[0] {
        1 + lcs_len(a.skip(1), b.skip(1))
    } else {
        let del = lcs_len(a.skip(1), b);
        let ins = lcs_len(a, b.skip(1));
        if del >= ins {
            del
        } else {
            ins
        }
    }
}

/// The edit script the longest-common-subsequence walk produces from `a`
/// (expected) to `b` (actual): a matching line is kept, otherwise the
/// expected line is deleted when that keeps at least as many shared lines as
/// inserting the actual line, and the actual line is inserted otherwise.
pub open spec fn edit_script(a: Seq<Seq<char>>, b: Seq<Seq<char>>) -> Seq<(Change, Seq<char>)>
    decreases a.len() + b.len(),
{
    if a.len() == 0 {
        tagged(Change::Insert, b)
    } else if b.len() == 0 {
        tagged(Change::Delete, a)
    } else if a[0] == b[0] {
        seq![(Change::Equal, a[0])] + edit_script(a.skip(1), b.skip(1))
    } else if lcs_len(a.skip(1), b) >= lcs_len(a, b.skip(1)) {
        seq![(Change::Delete, a[0])] + edit_script(a.skip(1), b)
    } else {
        seq![(Change::Insert, b[0])] + edit_script(a, b.skip(1))
    }
}

/// The number of leading lines `a` and `b` share.
pub open spec fn common_prefix_len(a: Seq<Seq<char>>, b: Seq<Seq<char>>) -> nat
    decreases a.len(),
{
    if a.len() > 0 && b.len() > 0 && a[0] == b[0] {
        1 + common_prefix_len(a.skip(1), b.skip(1))
    } else {
        0
    }
}

/// The number of trailing lines `a` and `b` share.
pub open spec fn common_suffix_len(a: Seq<Seq<char>>, b: Seq<Seq<char>>) -> nat
    decreases a.len(),
{
    if a.len() > 0 && b.len() > 0 && a.last() == b.last() {
        1 + common_suffix_len(a.drop_last(), b.drop_last())
    } else {
        0
    }
}

/// The line diff from `a` (expected) to `b` (actual): the shared leading
/// lines, then the walk over the differing middle, then the shared trailing
/// lines (counted only after the leading ones, so no line is shared twice).
pub open spec fn line_diff(a: Seq<Seq<char>>, b: Seq<Seq<char>>) -> Seq<(Change, Seq<char>)> {
    let p = common_prefix_len(a, b);
    let a1 = a.skip(p as int);
    let b1 = b.skip(p as int);
    let s = common_suffix_len(a1, b1);
    tagged(Change::Equal, a.take(p as int)) + edit_script(
        a1.take(a1.len() - s),
        b1.take(b1.len() - s),
    ) + tagged(Change::Equal, a1.skip(a1.len() - s))
}

/// Every entry of the script keeps its line unchanged.
pub open spec fn all_equal(script: Seq<(Change, Seq<char>)>) -> bool {
    forall|k: int| 0 <= k < script.len() ==> (#[trigger] script[k]).0 == Change::Equal
}

/// The unified rendering of a script: one line per entry, its marker then
/// its text, joined with `\n`.
pub open spec fn render(script: Seq<(Change, Seq<char>)>) -> Seq<char> {
    join_lines(script.map_values(|e: (Change, Seq<char>)| seq![marker_of(e.0)] + e.1))
}

/// The entries of a stored script, each line as its characters.
pub open spec fn entries_view(v: Seq<(Change, String)>) -> Seq<(Change, Seq<char>)> {
    v.map_values(|e: (Change, String)| (e.0, e.1@))
}



/// The lines of a script that belong to one side: every entry whose change
/// is not `dropped`. With `Insert` dropped this is the expected side, with
/// `Delete` dropped the actual side.
pub open spec fn side(script: Seq<(Change, Seq<char>)>, dropped: Change) -> Seq<Seq<char>>
    decreases script.len(),
{
    if script.len() == 0 {
        seq![]
    } else {
        (if script[0].0 == dropped {
            seq![]
        } else {
            seq![script[0].1]
        }) + side(script.skip(1), dropped)
    }
}

/// The number of entries of a script that keep a line unchanged.
pub open spec fn count_equal(script: Seq<(Change, Seq<char>)>) -> nat
    decreases script.len(),
{
    if script.len() == 0 {
        0
    } else {
        (if script[0].0 == Change::Equal {
            1nat
        } else {
            0nat
        }) + count_equal(script.skip(1))
    }
}

// ---------------------------------------------------------------------------
// Laws
// ---------------------------------------------------------------------------

/// Taking a side distributes over concatenation.
proof fn lemma_side_add(x: Seq<(Change, Seq<char>)>, y: Seq<(Change, Seq<char>)>, dropped: Change)
    ensures
        side(x + y, dropped) == side(x, dropped) + side(y, dropped),
    decreases x.len(),
{
    if x.len() == 0 {
        assert(x + y =~= y);
    } else {
        lemma_side_add(x.skip(1), y, dropped);
        assert((x + y).skip(1) =~= x.skip(1) + y);
        assert((x + y)[0] == x[0]);
    }
}

/// Counting kept lines distributes over concatenation.
proof fn lemma_count_equal_add(x: Seq<(Change, Seq<char>)>, y: Seq<(Change, Seq<char>)>)
    ensures
        count_equal(x + y) == count_equal(x) + count_equal(y),
    decreases x.len(),
{
    if x.len() == 0 {
        assert(x + y =~= y);
    } else {
        lemma_count_equal_add(x.skip(1), y);
        assert((x + y).skip(1) =~= x.skip(1) + y);
        assert((x + y)[0] == x[0]);
    }
}

/// The sides and kept-line count of a run of lines that share one tag.
proof fn lemma_side_tagged(c: Change, lines: Seq<Seq<char>>, dropped: Change)
    ensures
        side(tagged(c, lines), dropped) == (if c == dropped {
            seq![]
        } else {
            lines
        }),
        count_equal(tagged(c, lines)) == (if c == Change::Equal {
            lines.len()
        } else {
            0
        }),
    decreases lines.len(),
{
    if lines.len() > 0 {
        lemma_side_tagged(c, lines.skip(1), dropped);
        assert(tagged(c, lines).skip(1) =~= tagged(c, lines.skip(1)));
        if c != dropped {
            assert(lines =~= seq![lines[0]] + lines.skip(1));
        }
    } else {
        assert(tagged(c, lines) =~= seq![]);
    }
}

/// Taking the expected side of the walk gives `a` back; the actual side
/// gives `b` back; and the walk keeps a longest common subsequence.
proof fn lemma_edit_script(a: Seq<Seq<char>>, b: Seq<Seq<char>>)
    ensures
        side(edit_script(a, b), Change::Insert) == a,
        side(edit_script(a, b), Change::Delete) == b,
        count_equal(edit_script(a, b)) == lcs_len(a, b),
    decreases a.len() + b.len(), 1nat,
{
    if a.len() == 0 {
        lemma_side_tagged(Change::Insert, b, Change::Insert);
        lemma_side_tagged(Change::Insert, b, Change::Delete);
        assert(a =~= seq![]);
    } else if b.len() == 0 {
        lemma_side_tagged(Change::Delete, a, Change::Insert);
        lemma_side_tagged(Change::Delete, a, Change::Delete);
        assert(b =~= seq![]);
    } else if a[0] == b[0] {
        lemma_edit_script_step(a, b, (Change::Equal, a[0]), a.skip(1), b.skip(1));
    } else if lcs_len(a.skip(1), b) >= lcs_len(a, b.skip(1)) {
        lemma_edit_script_step(a, b, (Change::Delete, a[0]), a.skip(1), b);
    } else {
        lemma_edit_script_step(a, b, (Change::Insert, b[0]), a, b.skip(1));
    }
}

/// One step of the walk: the script is `head` followed by the walk over
/// what remains.
proof fn lemma_edit_script_step(
    a: Seq<Seq<char>>,
    b: Seq<Seq<char>>,
    head: (Change, Seq<char>),
    a2: Seq<Seq<char>>,
    b2: Seq<Seq<char>>,
)
    requires
        a.len() > 0,
        b.len() > 0,
        edit_script(a, b) == seq![head] + edit_script(a2, b2),
        a2.len() + b2.len() < a.len() + b.len(),
        head.0 == Change::Insert ==> a2 == a && head.1 == b[0] && b2 == b.skip(1),
        head.0 == Change::Delete ==> a2 == a.skip(1) && head.1 == a[0] && b2 == b,
        head.0 == Change::Equal ==> a2 == a.skip(1) && head.1 == a[0] && a[0] == b[0] && b2 == b.skip(1),
        head.0 == Change::Equal ==> lcs_len(a, b) == 1 + lcs_len(a2, b2),
        head.0 != Change::Equal ==> lcs_len(a, b) == lcs_len(a2, b2),
    ensures
        side(edit_script(a, b), Change::Insert) == a,
        side(edit_script(a, b), Change::Delete) == b,
        count_equal(edit_script(a, b)) == lcs_len(a, b),
    decreases a.len() + b.len(), 0nat,
{
    lemma_edit_script(a2, b2);
    let h = seq![head];
    let rest = edit_script(a2, b2);
    lemma_side_add(h, rest, Change::Insert);
    lemma_side_add(h, rest, Change::Delete);
    lemma_count_equal_add(h, rest);
    assert(h.skip(1) =~= seq![]);
    assert(h[0] == head);
    let e: Seq<Seq<char>> = seq![];
    assert(side(h.skip(1), Change::Insert) == e);
    assert(side(h.skip(1), Change::Delete) == e);
    assert(count_equal(h.skip(1)) == 0);
    assert(a =~= seq![a[0]] + a.skip(1));
    assert(b =~= seq![b[0]] + b.skip(1));
    if head.0 == Change::Insert {
        assert(side(h, Change::Insert) =~= e);
        assert(side(h, Change::Delete) =~= seq![b[0]]);
        assert(e + a =~= a);
    } else if head.0 == Change::Delete {
        assert(side(h, Change::Insert) =~= seq![a[0]]);
        assert(side(h, Change::Delete) =~= e);
        assert(e + b =~= b);
    } else {
        assert(side(h, Change::Insert) =~= seq![a[0]]);
        assert(side(h, Change::Delete) =~= seq![b[0]]);
    }
}

/// The shared prefix really is shared, and a sequence shares all of itself.
proof fn lemma_common_prefix(a: Seq<Seq<char>>, b: Seq<Seq<char>>)
    ensures
        common_prefix_len(a, b) <= a.len(),
        common_prefix_len(a, b) <= b.len(),
        a.take(common_prefix_len(a, b) as int) == b.take(common_prefix_len(a, b) as int),
        a == b ==> common_prefix_len(a, b) == a.len(),
    decreases a.len(),
{
    if a.len() > 0 && b.len() > 0 && a[0] == b[0] {
        lemma_common_prefix(a.skip(1), b.skip(1));
        let p = common_prefix_len(a, b) as int;
        assert(a.take(p) =~= seq![a[0]] + a.skip(1).take(p - 1));
        assert(b.take(p) =~= seq![b[0]] + b.skip(1).take(p - 1));
    } else {
        assert(a.take(0) =~= b.take(0));
    }
}

/// The shared suffix really is shared.
proof fn lemma_common_suffix(a: Seq<Seq<char>>, b: Seq<Seq<char>>)
    ensures
        common_suffix_len(a, b) <= a.len(),
        common_suffix_len(a, b) <= b.len(),
        a.skip(a.len() - common_suffix_len(a, b)) == b.skip(b.len() - common_suffix_len(a, b)),
    decreases a.len(),
{
    if a.len() > 0 && b.len() > 0 && a.last() == b.last() {
        lemma_common_suffix(a.drop_last(), b.drop_last());
        let s = common_suffix_len(a, b) as int;
        assert(a.skip(a.len() - s) =~= a.drop_last().skip(a.len() - s).push(a.last()));
        assert(b.skip(b.len() - s) =~= b.drop_last().skip(b.len() - s).push(b.last()));
    } else {
        assert(a.skip(a.len() as int) =~= b.skip(b.len() as int));
    }
}

/// The three parts a line diff is made of, and what each contributes.
proof fn lemma_line_diff_parts(a: Seq<Seq<char>>, b: Seq<Seq<char>>)
    ensures
        side(line_diff(a, b), Change::Insert) == a,
        side(line_diff(a, b), Change::Delete) == b,
        count_equal(line_diff(a, b)) == common_prefix_len(a, b) + lcs_len(
            a.skip(common_prefix_len(a, b) as int).take(
                a.skip(common_prefix_len(a, b) as int).len() - common_suffix_len(
                    a.skip(common_prefix_len(a, b) as int),
                    b.skip(common_prefix_len(a, b) as int),
                ),
            ),
            b.skip(common_prefix_len(a, b) as int).take(
                b.skip(common_prefix_len(a, b) as int).len() - common_suffix_len(
                    a.skip(common_prefix_len(a, b) as int),
                    b.skip(common_prefix_len(a, b) as int),
                ),
            ),
        ) + common_suffix_len(
            a.skip(common_prefix_len(a, b) as int),
            b.skip(common_prefix_len(a, b) as int),
        ),
{
    let p = common_prefix_len(a, b);
    lemma_common_prefix(a, b);
    let a1 = a.skip(p as int);
    let b1 = b.skip(p as int);
    let s = common_suffix_len(a1, b1);
    lemma_common_suffix(a1, b1);
    let am = a1.take(a1.len() - s);
    let bm = b1.take(b1.len() - s);
    let pre = tagged(Change::Equal, a.take(p as int));
    let mid = edit_script(am, bm);
    let suf = tagged(Change::Equal, a1.skip(a1.len() - s));
    assert(line_diff(a, b) == pre + mid + suf);
    lemma_edit_script(am, bm);
    lemma_side_tagged(Change::Equal, a.take(p as int), Change::Insert);
    lemma_side_tagged(Change::Equal, a.take(p as int), Change::Delete);
    lemma_side_tagged(Change::Equal, a1.skip(a1.len() - s), Change::Insert);
    lemma_side_tagged(Change::Equal, a1.skip(a1.len() - s), Change::Delete);
    lemma_side_add(pre, mid, Change::Insert);
    lemma_side_add(pre + mid, suf, Change::Insert);
    lemma_side_add(pre, mid, Change::Delete);
    lemma_side_add(pre + mid, suf, Change::Delete);
    lemma_count_equal_add(pre, mid);
    lemma_count_equal_add(pre + mid, suf);
    assert(a.take(p as int) + am + a1.skip(a1.len() - s) =~= a);
    assert(b.take(p as int) + bm + b1.skip(b1.len() - s) =~= b);
}

/// Every entry of an all-equal script belongs to both sides.
proof fn lemma_all_equal_sides(script: Seq<(Change, Seq<char>)>)
    requires
        all_equal(script),
    ensures
        side(script, Change::Insert) == side(script, Change::Delete),
    decreases script.len(),
{
    if script.len() > 0 {
        assert(all_equal(script.skip(1))) by {
            assert forall|k: int| 0 <= k < script.skip(1).len() implies (#[trigger] script.skip(
                1,
            )[k]).0 == Change::Equal by {
                assert(script.skip(1)[k] == script[k + 1]);
            }
        }
        assert(script[0].0 == Change::Equal);
        lemma_all_equal_sides(script.skip(1));
    }
}

/// The diff of a sequence of lines against itself keeps every line.
proof fn lemma_line_diff_of_equal(a: Seq<Seq<char>>)
    ensures
        line_diff(a, a) == tagged(Change::Equal, a),
{
    lemma_common_prefix(a, a);
    let p = common_prefix_len(a, a);
    let a1 = a.skip(p as int);
    assert(a1.len() == 0);
    assert(common_suffix_len(a1, a1) == 0);
    assert(a1.take(0) =~= seq![]);
    assert(edit_script(a1.take(0), a1.take(0)) =~= seq![]);
    assert(tagged(Change::Equal, a1.skip(0)) =~= seq![]);
    assert(a.take(p as int) =~= a);
    assert(line_diff(a, a) =~= tagged(Change::Equal, a));
}

/// Law: a line diff is a faithful edit script. Keeping its equal and
/// deleted lines rebuilds the expected lines; keeping its equal and inserted
/// lines rebuilds the actual lines.
pub proof fn law_line_diff_reconstructs(a: Seq<Seq<char>>, b: Seq<Seq<char>>)
    ensures
        side(line_diff(a, b), Change::Insert) == a,
        side(line_diff(a, b), Change::Delete) == b,
{
    lemma_line_diff_parts(a, b);
}

/// Law: joined with `\n`, the expected side of `Diff::lines(expected,
/// actual)` is the expected text and its actual side is the actual text.
pub proof fn law_diff_reconstructs_texts(expected: Seq<char>, actual: Seq<char>)
    ensures
        join_lines(side(line_diff(lines_of(expected), lines_of(actual)), Change::Insert))
            == expected,
        join_lines(side(line_diff(lines_of(expected), lines_of(actual)), Change::Delete))
            == actual,
{
    law_line_diff_reconstructs(lines_of(expected), lines_of(actual));
    lemma_join_lines_of(expected);
    lemma_join_lines_of(actual);
}

/// Law: a line diff has no insertion or deletion exactly when the two
/// sequences of lines are equal.
pub proof fn law_line_diff_empty_iff_equal(a: Seq<Seq<char>>, b: Seq<Seq<char>>)
    ensures
        all_equal(line_diff(a, b)) <==> a == b,
{
    if all_equal(line_diff(a, b)) {
        lemma_all_equal_sides(line_diff(a, b));
        lemma_line_diff_parts(a, b);
    }
    if a == b {
        lemma_line_diff_of_equal(a);
    }
}

/// Law: `Diff::lines(expected, actual)` is empty exactly when the two texts
/// are equal.
pub proof fn law_diff_empty_iff_equal(expected: Seq<char>, actual: Seq<char>)
    ensures
        all_equal(line_diff(lines_of(expected), lines_of(actual))) <==> expected == actual,
{
    law_line_diff_empty_iff_equal(lines_of(expected), lines_of(actual));
    lemma_join_lines_of(expected);
    lemma_join_lines_of(actual);
}


/// Dropping the first line of either side never lengthens a longest common
/// subsequence, and shortens it by at most one.
proof fn lemma_lcs_drop_first(x: Seq<Seq<char>>, y: Seq<Seq<char>>)
    ensures
        x.len() > 0 ==> lcs_len(x.skip(1), y) <= lcs_len(x, y) <= lcs_len(x.skip(1), y) + 1,
        y.len() > 0 ==> lcs_len(x, y.skip(1)) <= lcs_len(x, y) <= lcs_len(x, y.skip(1)) + 1,
    decreases x.len() + y.len(),
{
    if x.len() > 0 && y.len() > 0 {
        let x1 = x.skip(1);
        let y1 = y.skip(1);
        lemma_lcs_drop_first(x1, y);
        lemma_lcs_drop_first(x, y1);
        if x1.len() > 0 || y1.len() > 0 {
            lemma_lcs_drop_first(x1, y1);
        }
    } else if x.len() > 0 {
        assert(lcs_len(x.skip(1), y) == 0);
    } else if y.len() > 0 {
        assert(lcs_len(x, y.skip(1)) == 0);
    }
}

/// A line shared at the end of both sides adds one to the longest common
/// subsequence.
proof fn lemma_lcs_push(x: Seq<Seq<char>>, y: Seq<Seq<char>>, e: Seq<char>)
    ensures
        lcs_len(x.push(e), y.push(e)) == lcs_len(x, y) + 1,
    decreases x.len() + y.len(),
{
    let xe = x.push(e);
    let ye = y.push(e);
    if x.len() == 0 && y.len() == 0 {
        assert(xe.skip(1) =~= seq![]);
        assert(ye.skip(1) =~= seq![]);
        assert(xe[0] == e && ye[0] == e);
        assert(lcs_len(xe, ye) == 1 + lcs_len(xe.skip(1), ye.skip(1)));
    } else if x.len() == 0 {
        assert(xe =~= seq![e]);
        assert(xe.skip(1) =~= x);
        assert(ye.skip(1) =~= y.skip(1).push(e));
        assert(xe[0] == e && ye[0] == y[0]);
        assert(lcs_len(x, ye) == 0);
        assert(lcs_len(x, ye.skip(1)) == 0);
        lemma_lcs_push(x, y.skip(1), e);
        assert(lcs_len(x, y.skip(1)) == 0);
        assert(lcs_len(x, y) == 0);
        assert(lcs_len(xe, ye.skip(1)) == 1);
        assert(lcs_len(xe, ye) == 1);
    } else if y.len() == 0 {
        assert(ye =~= seq![e]);
        assert(ye.skip(1) =~= y);
        assert(xe.skip(1) =~= x.skip(1).push(e));
        assert(xe[0] == x[0] && ye[0] == e);
        assert(lcs_len(xe, y) == 0);
        assert(lcs_len(xe.skip(1), y) == 0);
        lemma_lcs_push(x.skip(1), y, e);
        assert(lcs_len(x.skip(1), y) == 0);
        assert(lcs_len(x, y) == 0);
        assert(lcs_len(xe.skip(1), ye) == 1);
        assert(lcs_len(xe, ye) == 1);
    } else {
        assert(xe.skip(1) =~= x.skip(1).push(e));
        assert(ye.skip(1) =~= y.skip(1).push(e));
        assert(xe[0] == x[0]);
        assert(ye[0] == y[0]);
        lemma_lcs_push(x.skip(1), y.skip(1), e);
        lemma_lcs_push(x.skip(1), y, e);
        lemma_lcs_push(x, y.skip(1), e);
    }
}

/// The shared prefix counts fully towards a longest common subsequence.
proof fn lemma_lcs_prefix(a: Seq<Seq<char>>, b: Seq<Seq<char>>)
    ensures
        lcs_len(a, b) == common_prefix_len(a, b) + lcs_len(
            a.skip(common_prefix_len(a, b) as int),
            b.skip(common_prefix_len(a, b) as int),
        ),
    decreases a.len(),
{
    if a.len() > 0 && b.len() > 0 && a[0] == b[0] {
        lemma_lcs_prefix(a.skip(1), b.skip(1));
        lemma_common_prefix(a.skip(1), b.skip(1));
        let p = common_prefix_len(a, b) as int;
        assert(a.skip(1).skip(p - 1) =~= a.skip(p));
        assert(b.skip(1).skip(p - 1) =~= b.skip(p));
    } else {
        assert(a.skip(0) =~= a);
        assert(b.skip(0) =~= b);
    }
}

/// The shared suffix counts fully towards a longest common subsequence.
proof fn lemma_lcs_suffix(a: Seq<Seq<char>>, b: Seq<Seq<char>>)
    ensures
        lcs_len(a, b) == lcs_len(
            a.take(a.len() - common_suffix_len(a, b)),
            b.take(b.len() - common_suffix_len(a, b)),
        ) + common_suffix_len(a, b),
    decreases a.len(),
{
    lemma_common_suffix(a, b);
    if a.len() > 0 && b.len() > 0 && a.last() == b.last() {
        let a1 = a.drop_last();
        let b1 = b.drop_last();
        lemma_lcs_suffix(a1, b1);
        lemma_lcs_push(a1, b1, a.last());
        assert(a1.push(a.last()) =~= a);
        assert(b1.push(a.last()) =~= b);
        let s = common_suffix_len(a, b) as int;
        assert(a1.take(a1.len() - (s - 1)) =~= a.take(a.len() - s));
        assert(b1.take(b1.len() - (s - 1)) =~= b.take(b.len() - s));
    } else {
        assert(a.take(a.len() as int) =~= a);
        assert(b.take(b.len() as int) =~= b);
    }
}

/// Law: the diff is minimal. It keeps unchanged as many lines as a longest
/// common subsequence of the two sides has.
pub proof fn law_line_diff_keeps_longest_common_subsequence(a: Seq<Seq<char>>, b: Seq<Seq<char>>)
    ensures
        count_equal(line_diff(a, b)) == lcs_len(a, b),
{
    lemma_line_diff_parts(a, b);
    lemma_lcs_prefix(a, b);
    let p = common_prefix_len(a, b);
    lemma_lcs_suffix(a.skip(p as int), b.skip(p as int));
}

/// Law: no edit script keeps more lines than a longest common subsequence.
/// Any script whose expected side is `a` and whose actual side is `b` keeps
/// at most `lcs_len(a, b)` lines unchanged, so the line diff, which keeps
/// exactly that many, is an edit script with the fewest edits.
pub proof fn law_edit_script_keeps_at_most_lcs(
    script: Seq<(Change, Seq<char>)>,
    a: Seq<Seq<char>>,
    b: Seq<Seq<char>>,
)
    requires
        side(script, Change::Insert) == a,
        side(script, Change::Delete) == b,
    ensures
        count_equal(script) <= lcs_len(a, b),
    decreases script.len(),
{
    if script.len() > 0 {
        let head = script[0];
        let rest = script.skip(1);
        let ra = side(rest, Change::Insert);
        let rb = side(rest, Change::Delete);
        law_edit_script_keeps_at_most_lcs(rest, ra, rb);
        if head.0 == Change::Equal {
            assert(a =~= seq![head.1] + ra);
            assert(b =~= seq![head.1] + rb);
            assert(a.skip(1) =~= ra);
            assert(b.skip(1) =~= rb);
            assert(a[0] == b[0]);
        } else if head.0 == Change::Delete {
            assert(a =~= seq![head.1] + ra);
            assert(b =~= seq![] + rb);
            assert(a.skip(1) =~= ra);
            lemma_lcs_drop_first(a, b);
        } else {
            assert(a =~= seq![] + ra);
            assert(b =~= seq![head.1] + rb);
            assert(b.skip(1) =~= rb);
            lemma_lcs_drop_first(a, b);
        }
    }
}


/// A script with `count_equal` kept lines has that many fewer entries than
/// its two sides have lines together (a kept line belongs to both sides).
proof fn lemma_script_length(script: Seq<(Change, Seq<char>)>)
    ensures
        side(script, Change::Insert).len() + side(script, Change::Delete).len() == script.len()
            + count_equal(script),
    decreases script.len(),
{
    if script.len() > 0 {
        lemma_script_length(script.skip(1));
    }
}

/// The walk has as many entries as its two sides have lines, less the
/// lines it keeps.
proof fn lemma_edit_script_len(a: Seq<Seq<char>>, b: Seq<Seq<char>>)
    ensures
        edit_script(a, b).len() + lcs_len(a, b) == a.len() + b.len(),
{
    lemma_edit_script(a, b);
    lemma_script_length(edit_script(a, b));
}

/// Law: a line diff has one entry per line of either side, counting each
/// kept line once: `a.len() + b.len() - lcs_len(a, b)` entries.
pub proof fn law_line_diff_length(a: Seq<Seq<char>>, b: Seq<Seq<char>>)
    ensures
        line_diff(a, b).len() == a.len() + b.len() - lcs_len(a, b),
{
    law_line_diff_reconstructs(a, b);
    law_line_diff_keeps_longest_common_subsequence(a, b);
    lemma_script_length(line_diff(a, b));
}


/// Every entry of the walk carries a line of `a` or of `b`, so a character
/// that no line of either side holds is in no entry.
proof fn lemma_edit_script_lacks(a: Seq<Seq<char>>, b: Seq<Seq<char>>, c: char)
    requires
        all_lack(a, c),
        all_lack(b, c),
    ensures
        forall|k: int| 0 <= k < edit_script(a, b).len() ==> lacks(#[trigger] edit_script(a, b)[k].1, c),
    decreases a.len() + b.len(),
{
    let e = edit_script(a, b);
    if a.len() == 0 {
        assert forall|k: int| 0 <= k < e.len() implies lacks(#[trigger] e[k].1, c) by {
            assert(e[k].1 == b[k]);
        }
    } else if b.len() == 0 {
        assert forall|k: int| 0 <= k < e.len() implies lacks(#[trigger] e[k].1, c) by {
            assert(e[k].1 == a[k]);
        }
    } else {
        let a1 = a.skip(1);
        let b1 = b.skip(1);
        assert(all_lack(a1, c)) by {
            assert forall|k: int| 0 <= k < a1.len() implies lacks(#[trigger] a1[k], c) by {
                assert(a1[k] == a[k + 1]);
            }
        }
        assert(all_lack(b1, c)) by {
            assert forall|k: int| 0 <= k < b1.len() implies lacks(#[trigger] b1[k], c) by {
                assert(b1[k] == b[k + 1]);
            }
        }
        assert(lacks(a[0], c));
        assert(lacks(b[0], c));
        let (a2, b2) = if a[0] == b[0] {
            (a1, b1)
        } else if lcs_len(a1, b) >= lcs_len(a, b1) {
            (a1, b)
        } else {
            (a, b1)
        };
        lemma_edit_script_lacks(a2, b2, c);
        let rest = edit_script(a2, b2);
        assert forall|k: int| 0 <= k < e.len() implies lacks(#[trigger] e[k].1, c) by {
            if k > 0 {
                assert(e[k] == rest[k - 1]);
            }
        }
    }
}

/// Law: every entry of `Diff::lines(expected, actual)` carries a single
/// line: no entry's text holds a `\n`.
pub proof fn law_diff_entries_are_lines(expected: Seq<char>, actual: Seq<char>)
    ensures
        forall|k: int|
            0 <= k < line_diff(lines_of(expected), lines_of(actual)).len() ==> lacks(
                #[trigger] line_diff(lines_of(expected), lines_of(actual))[k].1,
                '\n',
            ),
{
    let a = lines_of(expected);
    let b = lines_of(actual);
    lemma_split_pieces(expected, '\n');
    lemma_split_pieces(actual, '\n');
    assert(all_lack(a, '\n'));
    assert(all_lack(b, '\n'));
    let p = common_prefix_len(a, b);
    lemma_common_prefix(a, b);
    let a1 = a.skip(p as int);
    let b1 = b.skip(p as int);
    let s = common_suffix_len(a1, b1);
    lemma_common_suffix(a1, b1);
    let am = a1.take(a1.len() - s);
    let bm = b1.take(b1.len() - s);
    assert(all_lack(am, '\n')) by {
        assert forall|k: int| 0 <= k < am.len() implies lacks(#[trigger] am[k], '\n') by {
            assert(am[k] == a[k + p]);
        }
    }
    assert(all_lack(bm, '\n')) by {
        assert forall|k: int| 0 <= k < bm.len() implies lacks(#[trigger] bm[k], '\n') by {
            assert(bm[k] == b[k + p]);
        }
    }
    lemma_edit_script_lacks(am, bm, '\n');
    let pre = tagged(Change::Equal, a.take(p as int));
    let mid = edit_script(am, bm);
    let suf = tagged(Change::Equal, a1.skip(a1.len() - s));
    let d = line_diff(a, b);
    assert(d == pre + mid + suf);
    assert forall|k: int| 0 <= k < d.len() implies lacks(#[trigger] d[k].1, '\n') by {
        if k < pre.len() {
            assert(d[k].1 == a[k]);
        } else if k < pre.len() + mid.len() {
            assert(d[k] == mid[k - pre.len()]);
        } else {
            assert(d[k].1 == a[k - pre.len() - mid.len() + p + a1.len() - s]);
        }
    }
}

/// Law: rendering shows every entry on a line of its own, that line being
/// the entry's marker followed by its text. For a non-empty script whose
/// texts hold no `\n`, the rendering splits into one line per entry, and
/// line `k` starts with the marker of entry `k`, even when its text is empty.
pub proof fn law_render_marks_every_line(script: Seq<(Change, Seq<char>)>)
    requires
        script.len() > 0,
        forall|k: int| 0 <= k < script.len() ==> lacks(#[trigger] script[k].1, '\n'),
    ensures
        split_on_newline(render(script)).len() == script.len(),
        forall|k: int|
            0 <= k < script.len() ==> #[trigger] split_on_newline(render(script))[k] == seq![
                marker_of(script[k].0),
            ] + script[k].1,
        forall|k: int|
            0 <= k < script.len() ==> (#[trigger] split_on_newline(render(script))[k])[0]
                == marker_of(script[k].0),
{
    let shown = script.map_values(|e: (Change, Seq<char>)| seq![marker_of(e.0)] + e.1);
    assert(all_lack(shown, '\n')) by {
        assert forall|k: int| 0 <= k < shown.len() implies lacks(#[trigger] shown[k], '\n') by {
            assert(lacks(script[k].1, '\n'));
            let m = marker_of(script[k].0);
            assert(m != '\n');
            assert forall|i: int| 0 <= i < shown[k].len() implies shown[k][i] != '\n' by {
                if i > 0 {
                    assert(shown[k][i] == script[k].1[i - 1]);
                }
            }
        }
    }
    lemma_split_join(shown);
    assert forall|k: int| 0 <= k < script.len() implies (#[trigger] split_on_newline(
        render(script),
    )[k])[0] == marker_of(script[k].0) by {
        assert(split_on_newline(render(script))[k] == shown[k]);
    }
}

// ---------------------------------------------------------------------------
// Facts used by the implementation
// ---------------------------------------------------------------------------

/// A common subsequence is no longer than either side.
pub proof fn lemma_lcs_bound(a: Seq<Seq<char>>, b: Seq<Seq<char>>)
    ensures
        lcs_len(a, b) <= a.len(),
        lcs_len(a, b) <= b.len(),
    decreases a.len() + b.len(),
{
    if a.len() > 0 && b.len() > 0 {
        lemma_lcs_bound(a.skip(1), b.skip(1));
        lemma_lcs_bound(a.skip(1), b);
        lemma_lcs_bound(a, b.skip(1));
    }
}

/// The shared prefix is exactly the run of equal leading lines.
proof fn lemma_common_prefix_len(a: Seq<Seq<char>>, b: Seq<Seq<char>>, p: nat)
    requires
        p <= a.len(),
        p <= b.len(),
        a.take(p as int) == b.take(p as int),
        p == a.len() || p == b.len() || a[p as int] != b[p as int],
    ensures
        common_prefix_len(a, b) == p,
    decreases p,
{
    if p > 0 {
        let a1 = a.skip(1);
        let b1 = b.skip(1);
        assert(a1.take(p - 1) =~= a.take(p as int).skip(1));
        assert(b1.take(p - 1) =~= b.take(p as int).skip(1));
        assert(a[0] == a.take(p as int)[0]);
        assert(b[0] == b.take(p as int)[0]);
        if p < a.len() && p < b.len() {
            assert(a1[p - 1] == a[p as int]);
            assert(b1[p - 1] == b[p as int]);
        }
        lemma_common_prefix_len(a1, b1, (p - 1) as nat);
    }
}

/// The shared suffix is exactly the run of equal trailing lines.
proof fn lemma_common_suffix_len(a: Seq<Seq<char>>, b: Seq<Seq<char>>, s: nat)
    requires
        s <= a.len(),
        s <= b.len(),
        a.skip(a.len() - s) == b.skip(b.len() - s),
        s == a.len() || s == b.len() || a[a.len() - 1 - s] != b[b.len() - 1 - s],
    ensures
        common_suffix_len(a, b) == s,
    decreases s,
{
    if s > 0 {
        let a1 = a.drop_last();
        let b1 = b.drop_last();
        assert(a1.skip(a1.len() - (s - 1)) =~= a.skip(a.len() - s).drop_last());
        assert(b1.skip(b1.len() - (s - 1)) =~= b.skip(b.len() - s).drop_last());
        assert(a.last() == a.skip(a.len() - s).last());
        assert(b.last() == b.skip(b.len() - s).last());
        if s < a.len() && s < b.len() {
            assert(a1[a1.len() - 1 - (s - 1)] == a[a.len() - 1 - s]);
            assert(b1[b1.len() - 1 - (s - 1)] == b[b.len() - 1 - s]);
        }
        lemma_common_suffix_len(a1, b1, (s - 1) as nat);
    }
}

// ---------------------------------------------------------------------------
// Execution
// ---------------------------------------------------------------------------

impl Change {
    /// The single-character marker used when rendering this change in a
    /// unified diff: `' '` for `Equal`, `'-'` for `Delete`, `'+'` for `Insert`.
    pub fn marker(self) -> (m: char)
        ensures
            m == marker_of(self),
    {
        match self {
            Change::Equal => ' ',
            Change::Delete => '-',
            Change::Insert => '+',
        }
    }
}

/// A minimal line-level edit script between two blocks of text.
#[derive(Debug, Clone, PartialEq, Eq)]
pub struct Diff {
    changes: Vec<(Change, String)>,
}

impl View for Diff {
    type V = Seq<(Change, Seq<char>)>;

    closed spec fn view(&self) -> Seq<(Change, Seq<char>)> {
        entries_view(self.changes@)
    }
}

impl Diff {
    /// Compute the line-level diff between `expected` and `actual`.
    ///
    /// Both inputs are split on `\n` into lines (the empty text has no
    /// lines). Common leading and trailing lines are matched directly; only
    /// the differing middle region is run through the LCS engine.
    pub fn lines(expected: &str, actual: &str) -> (d: Diff)
        ensures
            d@ == line_diff(lines_of(expected@), lines_of(actual@)),
    {
        let exp_chars = chars_of(expected);
        let act_chars = chars_of(actual);
        let exp = split_lines(&exp_chars);
        let act = split_lines(&act_chars);
        let ghost a = lines_view(exp@);
        let ghost b = lines_view(act@);

        let mut changes: Vec<(Change, String)> = Vec::new();

        // The identical prefix.
        let mut start: usize = 0;
        let max_prefix = if exp.len() < act.len() {
            exp.len()
        } else {
            act.len()
        };
        assert(a.take(0) =~= b.take(0));
        while start < max_prefix && same_line(&exp[start], &act[start])
            invariant
                start <= max_prefix,
                max_prefix <= exp@.len(),
                max_prefix <= act@.len(),
                max_prefix == exp@.len() || max_prefix == act@.len(),
                a == lines_view(exp@),
                b == lines_view(act@),
                a.take(start as int) == b.take(start as int),
            decreases max_prefix - start,
        {
            assert(a.take(start + 1) =~= a.take(start as int).push(a[start as int]));
            assert(b.take(start + 1) =~= b.take(start as int).push(b[start as int]));
            start = start + 1;
        }
        proof {
            lemma_common_prefix_len(a, b, start as nat);
        }

        // The identical suffix, stopping before the shared prefix.
        let mut exp_end = exp.len();
        let mut act_end = act.len();
        let ghost a1 = a.skip(start as int);
        let ghost b1 = b.skip(start as int);
        assert(a1.skip(a1.len() - 0) =~= b1.skip(b1.len() - 0));
        while exp_end > start && act_end > start && same_line(&exp[exp_end - 1], &act[act_end - 1])
            invariant
                start <= exp_end <= exp@.len(),
                start <= act_end <= act@.len(),
                exp@.len() - exp_end == act@.len() - act_end,
                a == lines_view(exp@),
                b == lines_view(act@),
                a1 == a.skip(start as int),
                b1 == b.skip(start as int),
                a1.skip(exp_end - start) == b1.skip(act_end - start),
            decreases exp_end,
        {
            assert(a1.skip(exp_end - 1 - start) =~= seq![a[exp_end - 1]] + a1.skip(exp_end - start));
            assert(b1.skip(act_end - 1 - start) =~= seq![b[act_end - 1]] + b1.skip(act_end - start));
            exp_end = exp_end - 1;
            act_end = act_end - 1;
        }
        let ghost sfx = (exp@.len() - exp_end) as nat;
        proof {
            if exp_end > start && act_end > start {
                assert(a1[a1.len() - 1 - sfx] == a[exp_end - 1]);
                assert(b1[b1.len() - 1 - sfx] == b[act_end - 1]);
            }
            lemma_common_suffix_len(a1, b1, sfx);
        }

        push_run(&mut changes, Change::Equal, &exp, 0, start);
        diff_middle(&exp, &act, start, exp_end, start, act_end, &mut changes);
        push_run(&mut changes, Change::Equal, &exp, exp_end, exp.len());

        proof {
            assert(a.take(start as int) =~= a.subrange(0, start as int));
            assert(a1.take(a1.len() - sfx) =~= a.subrange(start as int, exp_end as int));
            assert(b1.take(b1.len() - sfx) =~= b.subrange(start as int, act_end as int));
            assert(a1.skip(a1.len() - sfx) =~= a.subrange(exp_end as int, exp@.len() as int));
            assert(entries_view(changes@) =~= line_diff(a, b));
        }
        Diff { changes }
    }

    /// Returns `true` when the two inputs were line-for-line identical, i.e.
    /// the diff contains no insertions or deletions.
    pub fn is_empty(&self) -> (r: bool)
        ensures
            r == all_equal(self@),
    {
        let mut i: usize = 0;
        while i < self.changes.len()
            invariant
                i <= self.changes@.len(),
                forall|k: int| 0 <= k < i ==> (#[trigger] self.changes@[k]).0 == Change::Equal,
            decreases self.changes@.len() - i,
        {
            match self.changes[i].0 {
                Change::Equal => {},
                _ => {
                    assert(self@[i as int].0 != Change::Equal);
                    return false;
                },
            }
            i = i + 1;
        }
        assert forall|k: int| 0 <= k < self@.len() implies (#[trigger] self@[k]).0 == Change::Equal by {
            assert(self@[k].0 == self.changes@[k].0);
        }
        true
    }

    /// Every line in the diff, in order, as `(change, text)` pairs.
    ///
    /// Equal lines are included so the caller can reconstruct the full
    /// aligned view; filter on the [`Change`] if only edits are of interest.
    pub fn changes(&self) -> (r: Vec<(Change, &str)>)
        ensures
            r@.len() == self@.len(),
            forall|k: int| 0 <= k < r@.len() ==> (#[trigger] r@[k]).0 == self@[k].0 && r@[k].1@ == self@[k].1,
    {
        let mut r: Vec<(Change, &str)> = Vec::new();
        let mut i: usize = 0;
        while i < self.changes.len()
            invariant
                i <= self.changes@.len(),
                r@.len() == i,
                forall|k: int| 0 <= k < i ==> (#[trigger] r@[k]).0 == self@[k].0 && r@[k].1@ == self@[k].1,
            decreases self.changes@.len() - i,
        {
            let entry = &self.changes[i];
            r.push((entry.0, entry.1.as_str()));
            i = i + 1;
        }
        r
    }

    /// The diff in unified style: one line per change, each its
    /// [`marker`](Change::marker) followed by the line's text.
    pub fn to_string(&self) -> (s: String)
        ensures
            s@ == render(self@),
    {
        let ghost rendered = self@.map_values(|e: (Change, Seq<char>)| seq![marker_of(e.0)] + e.1);
        let mut s = String::new();
        let mut i: usize = 0;
        while i < self.changes.len()
            invariant
                i <= self.changes@.len(),
                rendered == self@.map_values(|e: (Change, Seq<char>)| seq![marker_of(e.0)] + e.1),
                s@ == join_lines(rendered.take(i as int)),
            decreases self.changes@.len() - i,
        {
            let ghost before = s@;
            if i > 0 {
                push_char(&mut s, '\n');
            }
            let entry = &self.changes[i];
            push_char(&mut s, entry.0.marker());
            s.append(entry.1.as_str());
            assert(rendered[i as int] == seq![marker_of(entry.0)] + entry.1@);
            assert(rendered.take(i + 1).drop_last() =~= rendered.take(i as int));
            if i > 0 {
                assert(s@ =~= before + seq!['\n'] + rendered[i as int]);
            } else {
                assert(s@ =~= rendered.take(1)[0]);
            }
            i = i + 1;
        }
        assert(rendered.take(i as int) =~= rendered);
        s
    }
}

/// The lines of `chars` as a line-level diff sees them.
fn split_lines(chars: &Vec<char>) -> (lines: Vec<Vec<char>>)
    ensures
        lines_view(lines@) == lines_of(chars@),
{
    if chars.len() == 0 {
        let lines: Vec<Vec<char>> = Vec::new();
        assert(lines_view(lines@) =~= seq![]);
        lines
    } else {
        split_on_newline_exec(chars)
    }
}

/// Whether two lines hold the same characters.
fn same_line(a: &Vec<char>, b: &Vec<char>) -> (r: bool)
    ensures
        r == (a@ == b@),
{
    if a.len() != b.len() {
        return false;
    }
    let mut i: usize = 0;
    while i < a.len()
        invariant
            i <= a@.len(),
            a@.len() == b@.len(),
            forall|k: int| 0 <= k < i ==> a@[k] == b@[k],
        decreases a@.len() - i,
    {
        if a[i] != b[i] {
            return false;
        }
        i = i + 1;
    }
    assert(a@ =~= b@);
    true
}

/// Appends one entry to a stored script.
fn push_change(out: &mut Vec<(Change, String)>, c: Change, line: &Vec<char>)
    ensures
        entries_view(final(out)@) == entries_view(old(out)@).push((c, line@)),
        final(out)@.len() == old(out)@.len() + 1,
        final(out)@.take(old(out)@.len() as int) == old(out)@,
{
    let text = string_from_chars(line.as_slice());
    out.push((c, text));
    assert(entries_view(out@) =~= entries_view(old(out)@).push((c, line@)));
    assert(out@.take(old(out)@.len() as int) =~= old(out)@);
}

/// Appends the lines `lines[from..to]`, each tagged with `c`.
fn push_run(out: &mut Vec<(Change, String)>, c: Change, lines: &Vec<Vec<char>>, from: usize, to: usize)
    requires
        from <= to <= lines@.len(),
    ensures
        entries_view(final(out)@) == entries_view(old(out)@) + tagged(
            c,
            lines_view(lines@).subrange(from as int, to as int),
        ),
        final(out)@.len() == old(out)@.len() + (to - from),
        final(out)@.take(old(out)@.len() as int) == old(out)@,
{
    let ghost start = out@;
    let mut k = from;
    assert(out@.take(start.len() as int) =~= start);
    while k < to
        invariant
            from <= k <= to <= lines@.len(),
            start == old(out)@,
            entries_view(out@) == entries_view(old(out)@) + tagged(
                c,
                lines_view(lines@).subrange(from as int, k as int),
            ),
            out@.len() == start.len() + (k - from),
            out@.take(start.len() as int) == start,
        decreases to - k,
    {
        let ghost before = out@;
        push_change(out, c, &lines[k]);
        assert(out@.take(start.len() as int) =~= before.take(start.len() as int));
        k = k + 1;
        assert(tagged(c, lines_view(lines@).subrange(from as int, k as int)) =~= tagged(
            c,
            lines_view(lines@).subrange(from as int, k - 1),
        ).push((c, lines@[k - 1]@)));
    }
}

/// A row of `len` zeros.
fn zero_row(len: usize) -> (row: Vec<usize>)
    ensures
        row@.len() == len,
        forall|j: int| 0 <= j < len ==> row@[j] == 0,
{
    let mut row: Vec<usize> = Vec::new();
    while row.len() < len
        invariant
            row@.len() <= len,
            forall|j: int| 0 <= j < row@.len() ==> row@[j] == 0,
        decreases len - row@.len(),
    {
        row.push(0);
    }
    row
}

/// The longest-common-subsequence table of `a = exp[os..oe]` and
/// `b = act[ns..ne]`, of `a.len() + 1` rows of `b.len() + 1` entries: entry
/// `[i][j]` is the length of a longest common subsequence of `a[i..]` and
/// `b[j..]`. The last row and the last column are the empty base cases, all
/// zero.
fn lcs_table(
    exp: &Vec<Vec<char>>,
    act: &Vec<Vec<char>>,
    os: usize,
    oe: usize,
    ns: usize,
    ne: usize,
) -> (table: Vec<Vec<usize>>)
    requires
        os <= oe <= exp@.len(),
        ns <= ne <= act@.len(),
    ensures
        table@.len() == oe - os + 1,
        forall|i: int| 0 <= i <= oe - os ==> (#[trigger] table@[i])@.len() == ne - ns + 1,
        forall|i: int, j: int|
            0 <= i <= oe - os && 0 <= j <= ne - ns ==> (#[trigger] table@[i]@[j]) == lcs_len(
                lines_view(exp@).subrange(os as int, oe as int).skip(i),
                lines_view(act@).subrange(ns as int, ne as int).skip(j),
            ),
{
    let m = oe - os;
    let n = ne - ns;
    let ghost a = lines_view(exp@).subrange(os as int, oe as int);
    let ghost b = lines_view(act@).subrange(ns as int, ne as int);
    let mut table: Vec<Vec<usize>> = Vec::new();
    while table.len() <= m
        invariant
            table@.len() <= m + 1,
            forall|r: int| 0 <= r < table@.len() ==> (#[trigger] table@[r])@.len() == n + 1,
            forall|r: int, c: int|
                0 <= r < table@.len() && 0 <= c <= n ==> (#[trigger] table@[r]@[c]) == 0,
        decreases m + 1 - table@.len(),
    {
        let mut row = zero_row(n);
        row.push(0);
        assert forall|c: int| 0 <= c <= n implies row@[c] == 0 by {
            if c < n {
                assert(row@[c] == 0);
            }
        }
        table.push(row);
    }
    assert forall|c: int| 0 <= c <= n implies (#[trigger] table@[m as int]@[c]) == lcs_len(
        a.skip(m as int),
        b.skip(c),
    ) by {
        assert(a.skip(m as int).len() == 0);
    }
    let mut i = m;
    while i > 0
        invariant
            i <= m,
            m == oe - os,
            n == ne - ns,
            os <= oe <= exp@.len(),
            ns <= ne <= act@.len(),
            a == lines_view(exp@).subrange(os as int, oe as int),
            b == lines_view(act@).subrange(ns as int, ne as int),
            table@.len() == m + 1,
            forall|r: int| 0 <= r <= m ==> (#[trigger] table@[r])@.len() == n + 1,
            forall|r: int, c: int|
                i <= r <= m && 0 <= c <= n ==> (#[trigger] table@[r]@[c]) == lcs_len(
                    a.skip(r),
                    b.skip(c),
                ),
        decreases i,
    {
        i = i - 1;
        let mut row = zero_row(n);
        row.push(0);
        let mut j = n;
        proof {
            assert(b.skip(n as int).len() == 0);
            assert(row@[n as int] == 0);
        }
        while j > 0
            invariant
                i < m,
                j <= n,
                m == oe - os,
                n == ne - ns,
                os <= oe <= exp@.len(),
                ns <= ne <= act@.len(),
                a == lines_view(exp@).subrange(os as int, oe as int),
                b == lines_view(act@).subrange(ns as int, ne as int),
                row@.len() == n + 1,
                table@.len() == m + 1,
                forall|r: int| 0 <= r <= m ==> (#[trigger] table@[r])@.len() == n + 1,
                forall|r: int, c: int|
                    i + 1 <= r <= m && 0 <= c <= n ==> (#[trigger] table@[r]@[c]) == lcs_len(
                        a.skip(r),
                        b.skip(c),
                    ),
                forall|c: int| j <= c <= n ==> (#[trigger] row@[c]) == lcs_len(a.skip(i as int), b.skip(c)),
            decreases j,
        {
            j = j - 1;
            let ghost x = a.skip(i as int);
            let ghost y = b.skip(j as int);
            proof {
                assert(x.skip(1) =~= a.skip(i + 1));
                assert(y.skip(1) =~= b.skip(j + 1));
                assert(x[0] == exp@[os + i]@);
                assert(y[0] == act@[ns + j]@);
                lemma_lcs_bound(a.skip(i + 1), b.skip(j + 1));
            }
            let v = if same_line(&exp[os + i], &act[ns + j]) {
                table[i + 1][j + 1] + 1
            } else {
                let del = table[i + 1][j];
                let ins = row[j + 1];
                if del >= ins {
                    del
                } else {
                    ins
                }
            };
            proof {
                assert(v == lcs_len(x, y));
            }
            row[j] = v;
        }
        table[i] = row;
    }
    table
}

/// Appends the walk's edit script from `exp[os..oe]` to `act[ns..ne]` to
/// `out`: what `out` held before is left as it was, and the script adds one
/// entry per line of either range, counting each kept line once.
fn diff_middle(
    exp: &Vec<Vec<char>>,
    act: &Vec<Vec<char>>,
    os: usize,
    oe: usize,
    ns: usize,
    ne: usize,
    out: &mut Vec<(Change, String)>,
)
    requires
        os <= oe <= exp@.len(),
        ns <= ne <= act@.len(),
    ensures
        entries_view(final(out)@) == entries_view(old(out)@) + edit_script(
            lines_view(exp@).subrange(os as int, oe as int),
            lines_view(act@).subrange(ns as int, ne as int),
        ),
        final(out)@.len() == old(out)@.len() + (oe - os) + (ne - ns) - lcs_len(
            lines_view(exp@).subrange(os as int, oe as int),
            lines_view(act@).subrange(ns as int, ne as int),
        ),
        final(out)@.subrange(0, old(out)@.len() as int) == old(out)@,
{
    let ghost a = lines_view(exp@).subrange(os as int, oe as int);
    let ghost b = lines_view(act@).subrange(ns as int, ne as int);
    let ghost base = entries_view(out@);
    let ghost start = out@;
    proof {
        lemma_edit_script_len(a, b);
        assert(entries_view(start).len() == start.len());
    }
    if oe == os {
        push_run(out, Change::Insert, act, ns, ne);
        return;
    }
    if ne == ns {
        push_run(out, Change::Delete, exp, os, oe);
        return;
    }
    let table = lcs_table(exp, act, os, oe, ns, ne);
    let m = oe - os;
    let n = ne - ns;
    let mut i: usize = 0;
    let mut j: usize = 0;
    assert(a.skip(0) =~= a);
    assert(b.skip(0) =~= b);
    while i < m && j < n
        invariant
            i <= m,
            j <= n,
            m == oe - os,
            n == ne - ns,
            os <= oe <= exp@.len(),
            ns <= ne <= act@.len(),
            a == lines_view(exp@).subrange(os as int, oe as int),
            b == lines_view(act@).subrange(ns as int, ne as int),
            table@.len() == m + 1,
            forall|r: int| 0 <= r <= m ==> (#[trigger] table@[r])@.len() == n + 1,
            forall|r: int, c: int|
                0 <= r <= m && 0 <= c <= n ==> (#[trigger] table@[r]@[c]) == lcs_len(
                    a.skip(r),
                    b.skip(c),
                ),
            entries_view(out@) + edit_script(a.skip(i as int), b.skip(j as int)) == base
                + edit_script(a, b),
            start == old(out)@,
            out@.len() >= start.len(),
            out@.take(start.len() as int) == start,
        decreases m - i + n - j,
    {
        let ghost before_raw = out@;
        let ghost x = a.skip(i as int);
        let ghost y = b.skip(j as int);
        let ghost before = entries_view(out@);
        assert(x.skip(1) =~= a.skip(i + 1));
        assert(y.skip(1) =~= b.skip(j + 1));
        assert(x[0] == exp@[os + i]@);
        assert(y[0] == act@[ns + j]@);
        if same_line(&exp[os + i], &act[ns + j]) {
            push_change(out, Change::Equal, &exp[os + i]);
            i = i + 1;
            j = j + 1;
            assert(entries_view(out@) + edit_script(a.skip(i as int), b.skip(j as int)) =~= before
                + edit_script(x, y));
        } else if table[i + 1][j] >= table[i][j + 1] {
            push_change(out, Change::Delete, &exp[os + i]);
            i = i + 1;
            assert(entries_view(out@) + edit_script(a.skip(i as int), b.skip(j as int)) =~= before
                + edit_script(x, y));
        } else {
            push_change(out, Change::Insert, &act[ns + j]);
            j = j + 1;
            assert(entries_view(out@) + edit_script(a.skip(i as int), b.skip(j as int)) =~= before
                + edit_script(x, y));
        }
        assert(out@.take(start.len() as int) =~= before_raw.take(start.len() as int));
    }
    let ghost mid = entries_view(out@);
    let ghost mid_raw = out@;
    push_run(out, Change::Delete, exp, os + i, oe);
    let ghost mid_raw2 = out@;
    push_run(out, Change::Insert, act, ns + j, ne);
    assert(mid_raw2.take(start.len() as int) =~= mid_raw.take(start.len() as int));
    assert(out@.take(start.len() as int) =~= mid_raw2.take(start.len() as int));
    assert(lines_view(exp@).subrange(os + i, oe as int) =~= a.skip(i as int));
    assert(lines_view(act@).subrange(ns + j, ne as int) =~= b.skip(j as int));
    if i == m {
        assert(a.skip(i as int).len() == 0);
        assert(tagged(Change::Delete, a.skip(i as int)) =~= seq![]);
        assert(entries_view(out@) =~= mid + edit_script(a.skip(i as int), b.skip(j as int)));
    } else {
        assert(b.skip(j as int).len() == 0);
        assert(tagged(Change::Insert, b.skip(j as int)) =~= seq![]);
        assert(entries_view(out@) =~= mid + edit_script(a.skip(i as int), b.skip(j as int)));
    }
}

} // verus!

//! Capturing and asserting textual snapshots of compiler output.
//!
//! A [`Snapshot`] is a normalized block of text: the rendered form of some
//! stage's output. Normalizing (line endings unified, trailing spaces and
//! tabs stripped from every line, trailing newlines removed) lets a snapshot
//! captured on one platform compare equal to the same text written by hand
//! on another.

use core::fmt::Write;
use vstd::prelude::*;
use vstd::string::StringExecFns;
use vstd::string::to_string_from_display_ensures;
use crate::diff::{Diff, all_equal, line_diff, law_diff_empty_iff_equal, render};
use crate::text::{chars_of, join_lines, law_normalization_is_idempotent, lines_of, normal_form, normalize_chars, push_char, string_from_chars};

verus! {

/// The characters held by a sequence of strings.
pub open spec fn strings_view(v: Seq<String>) -> Seq<Seq<char>> {
    v.map_values(|s: String| s@)
}

/// The header a mismatch is rendered under.
pub open spec fn mismatch_header() -> Seq<char> {
    "snapshot mismatch (-expected +actual):\n"@
}

/// Renders `value` through its `Debug` implementation in the alternate
/// (`{:#?}`) pretty form.
///
/// Trusted, with nothing stated of the result: `write!` into a `String`
/// hands the value to its own `Debug` implementation, which this library
/// does not know. An error that implementation reports is discarded, so the
/// call does not panic; the text written before the error is kept.
#[verifier::external_body]
fn render_debug<T: core::fmt::Debug>(value: &T) -> String {
    let mut out = String::new();
    let _ = write!(out, "{:#?}", value);
    out
}

/// Renders `value` through its `Display` implementation (`{}`), and reports
/// whether that implementation finished without an error.
///
/// Trusted: `write!` into a `String` runs the value's `Display::fmt` with the
/// default options, which is what `ToString::to_string` runs too; when it
/// returns `Ok`, the text is a result `to_string` can give for the value
/// (the first clause). When it returns an error, the error is discarded
/// rather than panicking, and nothing is stated of the text.
#[verifier::external_body]
fn render_display<T: core::fmt::Display>(value: &T) -> (r: (String, bool))
    ensures
        r.1 ==> to_string_from_display_ensures::<T>(value, r.0),
{
    let mut out = String::new();
    let finished = write!(out, "{}", value).is_ok();
    (out, finished)
}

/// Normalize a block of text for comparison: `\r\n` and lone `\r` become
/// `\n`, trailing spaces and tabs are stripped from every line, and trailing
/// newlines are dropped.
fn normalize(text: &str) -> (out: String)
    ensures
        out@ == normal_form(text@),
{
    let chars = chars_of(text);
    let normalized = normalize_chars(&chars);
    string_from_chars(normalized.as_slice())
}


/// Law: a snapshot always checks clean against the exact text it captured.
/// The snapshot of `text` holds `normal_form(text)`; checking it against that
/// text normalizes it again, which changes nothing, and the diff of equal
/// texts has no edits.
pub proof fn law_snapshot_matches_its_own_text(text: Seq<char>)
    ensures
        normal_form(normal_form(text)) == normal_form(text),
        all_equal(line_diff(lines_of(normal_form(normal_form(text))), lines_of(normal_form(text)))),
{
    law_normalization_is_idempotent(text);
    law_diff_empty_iff_equal(normal_form(normal_form(text)), normal_form(text));
}

/// Law: checking the snapshot of `actual` against the snapshot text of
/// `expected` succeeds exactly when the two texts normalize to the same
/// thing.
pub proof fn law_check_ok_iff_normalized_equal(actual: Seq<char>, expected: Seq<char>)
    ensures
        (normal_form(normal_form(expected)) == normal_form(actual)) <==> (normal_form(expected)
            == normal_form(actual)),
{
    law_normalization_is_idempotent(expected);
}

/// A normalized, comparable rendering of some compiler output.
///
/// Line endings are unified to `\n`, spaces and tabs at the end of each line
/// are stripped, and trailing newlines are removed. Interior blank lines and
/// leading whitespace are preserved.
#[derive(Debug, PartialEq, Eq, Hash)]
pub struct Snapshot {
    text: String,
}

impl Clone for Snapshot {
    fn clone(&self) -> (copy: Snapshot)
        ensures
            copy@ == self@,
    {
        proof {
            use_type_invariant(self);
        }
        Snapshot { text: self.text.clone() }
    }
}

impl View for Snapshot {
    type V = Seq<char>;

    closed spec fn view(&self) -> Seq<char> {
        self.text@
    }
}

impl Snapshot {
    /// The stored text is always in normal form.
    #[verifier::type_invariant]
    spec fn is_normal(self) -> bool {
        normal_form(self.text@) == self.text@
    }

    /// Build a snapshot from an already-rendered block of text; the text is
    /// normalized.
    pub fn new(text: &str) -> (snap: Snapshot)
        ensures
            snap@ == normal_form(text@),
    {
        let normalized = normalize(text);
        proof {
            law_normalization_is_idempotent(text@);
        }
        Snapshot { text: normalized }
    }

    /// Build a snapshot from rendered lines: the lines are joined with `\n`
    /// and the result is normalized.
    pub fn from_lines(lines: &Vec<String>) -> (snap: Snapshot)
        ensures
            snap@ == normal_form(join_lines(strings_view(lines@))),
    {
        let mut text = String::new();
        let mut i: usize = 0;
        while i < lines.len()
            invariant
                i <= lines@.len(),
                text@ == join_lines(strings_view(lines@).take(i as int)),
            decreases lines@.len() - i,
        {
            let ghost before = text@;
            if i > 0 {
                push_char(&mut text, '\n');
            }
            text.append(lines[i].as_str());
            assert(strings_view(lines@).take(i + 1).drop_last() =~= strings_view(lines@).take(
                i as int,
            ));
            if i > 0 {
                assert(text@ =~= before + seq!['\n'] + lines@[i as int]@);
            } else {
                assert(text@ =~= strings_view(lines@).take(1)[0]);
            }
            i = i + 1;
        }
        assert(strings_view(lines@).take(i as int) =~= strings_view(lines@));
        Snapshot::new(text.as_str())
    }

    /// Build a snapshot by rendering a value through its `Display`
    /// implementation.
    ///
    /// The rendering is `to_string`, as vstd specifies it; like the
    /// `format!` it stands for, it panics when the value's `Display`
    /// implementation reports an error, which a correct implementation never
    /// does when writing into a `String`.
    pub fn display<T: core::fmt::Display>(value: &T) -> (snap: Snapshot)
        ensures
            exists|rendered: String|
                to_string_from_display_ensures::<T>(value, rendered) && snap@ == normal_form(
                    rendered@,
                ),
    {
        let rendered = value.to_string();
        Snapshot::new(rendered.as_str())
    }

    /// Build a snapshot by rendering a value through its `Debug`
    /// implementation, using the alternate (`{:#?}`) pretty form.
    ///
    /// The contract says only that the snapshot is the normal form of some
    /// text: what the value's `Debug` implementation writes is not known to
    /// this library.
    pub fn debug<T: core::fmt::Debug>(value: &T) -> (snap: Snapshot)
        ensures
            exists|rendered: Seq<char>| snap@ == normal_form(rendered),
    {
        let rendered = render_debug(value);
        Snapshot::new(rendered.as_str())
    }

    /// Build a snapshot from a sequence of values, rendering each on its own
    /// line through `Display`: the renderings are joined with `\n` and the
    /// result is normalized.
    ///
    /// An error that an item's `Display` implementation reports is discarded
    /// and the text written for that item is kept. For every item whose
    /// rendering finished, its line is a result `to_string` gives for it; of
    /// an item whose rendering reported an error, nothing is stated.
    pub fn per_line<T: core::fmt::Display>(items: &[T]) -> (snap: Snapshot)
        ensures
            exists|rendered: Seq<String>, finished: Seq<bool>|
                {
                    &&& rendered.len() == items@.len()
                    &&& finished.len() == items@.len()
                    &&& forall|k: int|
                        0 <= k < items@.len() && #[trigger] finished[k]
                            ==> to_string_from_display_ensures::<T>(&items@[k], rendered[k])
                    &&& snap@ == normal_form(join_lines(strings_view(rendered)))
                },
    {
        let mut rendered: Vec<String> = Vec::new();
        let mut finished: Vec<bool> = Vec::new();
        let mut i: usize = 0;
        while i < items.len()
            invariant
                i <= items@.len(),
                rendered@.len() == i,
                finished@.len() == i,
                forall|k: int|
                    0 <= k < i && #[trigger] finished@[k] ==> to_string_from_display_ensures::<T>(
                        &items@[k],
                        rendered@[k],
                    ),
            decreases items@.len() - i,
        {
            let (line, done) = render_display(&items[i]);
            rendered.push(line);
            finished.push(done);
            i = i + 1;
        }
        let snap = Snapshot::from_lines(&rendered);
        assert(finished@.len() == items@.len());
        snap
    }

    /// The normalized snapshot text. It is in normal form: normalizing it
    /// again changes nothing.
    pub fn as_str(&self) -> (s: &str)
        ensures
            s@ == self@,
            normal_form(s@) == s@,
    {
        proof {
            use_type_invariant(self);
        }
        self.text.as_str()
    }

    /// The normalized snapshot text, as an owned string.
    pub fn to_string(&self) -> (s: String)
        ensures
            s@ == self@,
    {
        self.text.clone()
    }

    /// Compare the snapshot against the `expected` text, normalized the same
    /// way. Returns `Ok(())` exactly when the normalized texts are equal, and
    /// otherwise a [`Mismatch`] carrying the line diff from the normalized
    /// expected text to the snapshot.
    pub fn check(&self, expected: &str) -> (r: Result<(), Mismatch>)
        ensures
            r is Ok <==> normal_form(expected@) == self@,
            r matches Err(m) ==> m@ == line_diff(lines_of(normal_form(expected@)), lines_of(self@)),
    {
        let expected = normalize(expected);
        let diff = Diff::lines(expected.as_str(), self.text.as_str());
        proof {
            law_diff_empty_iff_equal(expected@, self.text@);
        }
        if diff.is_empty() {
            Ok(())
        } else {
            Err(Mismatch { diff })
        }
    }
}

/// The error returned by [`Snapshot::check`] when the snapshot does not
/// match the expected text; it owns the computed [`Diff`].
#[derive(Debug, Clone, PartialEq, Eq)]
pub struct Mismatch {
    diff: Diff,
}

impl View for Mismatch {
    type V = Seq<(crate::diff::Change, Seq<char>)>;

    closed spec fn view(&self) -> Seq<(crate::diff::Change, Seq<char>)> {
        self.diff@
    }
}

impl Mismatch {
    /// The line-level diff between the expected text and the snapshot.
    pub fn diff(&self) -> (d: &Diff)
        ensures
            d@ == self@,
    {
        &self.diff
    }

    /// The mismatch as a unified diff under a one-line header:
    /// `-` lines were expected, `+` lines were produced.
    pub fn to_string(&self) -> (s: String)
        ensures
            s@ == mismatch_header() + render(self@),
    {
        let mut s = String::new();
        s.append("snapshot mismatch (-expected +actual):\n");
        let body = self.diff.to_string();
        s.append(body.as_str());
        s
    }
}

} // verus!

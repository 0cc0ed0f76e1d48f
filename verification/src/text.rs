//! Text as sequences of characters: line splitting, joining, and the
//! normalization that snapshots are compared under.

use vstd::prelude::*;

verus! {

// ---------------------------------------------------------------------------
// Specification
// ---------------------------------------------------------------------------

/// Horizontal whitespace that normalization strips from the end of a line.
pub open spec fn is_line_space(c: char) -> bool {
    c == ' ' || c == '\t'
}

/// `s` holds no occurrence of `c`.
pub open spec fn lacks(s: Seq<char>, c: char) -> bool {
    forall|i: int| 0 <= i < s.len() ==> s[i] != c
}

/// `s` with every `\r\n` and every lone `\r` turned into a single `\n`.
pub open spec fn unify_line_endings(s: Seq<char>) -> Seq<char>
    decreases s.len(),
{
    if s.len() == 0 {
        seq![]
    } else {
        let rest = unify_line_endings(s.drop_last());
        let c = s.last();
        if c == '\n' && s.len() >= 2 && s[s.len() - 2] == '\r' {
            rest
        } else if c == '\r' {
            rest.push('\n')
        } else {
            rest.push(c)
        }
    }
}

/// The pieces of `s` between `\n` separators (always at least one piece; the
/// empty text is one empty piece).
pub open spec fn split_on_newline(s: Seq<char>) -> Seq<Seq<char>>
    decreases s.len(),
{
    if s.len() == 0 {
        seq![seq![]]
    } else {
        let pieces = split_on_newline(s.drop_last());
        let c = s.last();
        if c == '\n' {
            pieces.push(seq![])
        } else {
            pieces.update(pieces.len() - 1, pieces.last().push(c))
        }
    }
}

/// The lines of a text as a line-level diff sees them: none for the empty
/// text, otherwise the pieces between `\n` separators.
pub open spec fn lines_of(s: Seq<char>) -> Seq<Seq<char>> {
    if s.len() == 0 {
        seq![]
    } else {
        split_on_newline(s)
    }
}

/// `lines` joined with `\n` between consecutive lines.
pub open spec fn join_lines(lines: Seq<Seq<char>>) -> Seq<char>
    decreases lines.len(),
{
    if lines.len() == 0 {
        seq![]
    } else if lines.len() == 1 {
        lines[0]
    } else {
        join_lines(lines.drop_last()) + seq!['\n'] + lines.last()
    }
}

/// `line` without its trailing spaces and tabs.
pub open spec fn trim_line_end(line: Seq<char>) -> Seq<char>
    decreases line.len(),
{
    if line.len() > 0 && is_line_space(line.last()) {
        trim_line_end(line.drop_last())
    } else {
        line
    }
}

/// `s` without its trailing `\n` characters.
pub open spec fn trim_trailing_newlines(s: Seq<char>) -> Seq<char>
    decreases s.len(),
{
    if s.len() > 0 && s.last() == '\n' {
        trim_trailing_newlines(s.drop_last())
    } else {
        s
    }
}

/// The normalized form of a text: line endings unified to `\n`, trailing
/// spaces and tabs stripped from every line, trailing newlines removed.
pub open spec fn normal_form(s: Seq<char>) -> Seq<char> {
    trim_trailing_newlines(
        join_lines(split_on_newline(unify_line_endings(s)).map_values(|l: Seq<char>| trim_line_end(l))),
    )
}

/// The character sequences held by a vector of lines.
pub open spec fn lines_view(lines: Seq<Vec<char>>) -> Seq<Seq<char>> {
    lines.map_values(|l: Vec<char>| l@)
}

/// `lines` without its trailing empty lines.
spec fn drop_empty_tail(lines: Seq<Seq<char>>) -> Seq<Seq<char>>
    decreases lines.len(),
{
    if lines.len() > 0 && lines.last().len() == 0 {
        drop_empty_tail(lines.drop_last())
    } else {
        lines
    }
}

/// Every line of `lines` lacks `c`.
pub open spec fn all_lack(lines: Seq<Seq<char>>, c: char) -> bool {
    forall|k: int| 0 <= k < lines.len() ==> lacks(#[trigger] lines[k], c)
}

// ---------------------------------------------------------------------------
// Facts about lines
// ---------------------------------------------------------------------------

/// There is always at least one piece, no piece holds `\n`, and a character
/// absent from `s` is absent from every piece.
pub proof fn lemma_split_pieces(s: Seq<char>, c: char)
    ensures
        split_on_newline(s).len() >= 1,
        all_lack(split_on_newline(s), '\n'),
        lacks(s, c) ==> all_lack(split_on_newline(s), c),
    decreases s.len(),
{
    if s.len() > 0 {
        let t = s.drop_last();
        lemma_split_pieces(t, c);
        let p = split_on_newline(t);
        let x = s.last();
        if lacks(s, c) {
            assert(lacks(t, c));
        }
        if x != '\n' {
            let q = p.update(p.len() - 1, p.last().push(x));
            assert forall|k: int| 0 <= k < q.len() implies lacks(#[trigger] q[k], '\n') by {
                if k == p.len() - 1 {
                    assert(lacks(p[k], '\n'));
                }
            }
            if lacks(s, c) {
                assert(x == s[s.len() - 1]);
                assert forall|k: int| 0 <= k < q.len() implies lacks(#[trigger] q[k], c) by {
                    if k == p.len() - 1 {
                        assert(lacks(p[k], c));
                    }
                }
            }
        } else {
            let q = p.push(seq![]);
            assert forall|k: int| 0 <= k < q.len() implies lacks(#[trigger] q[k], '\n') by {
                if k < p.len() {
                    assert(q[k] == p[k]);
                }
            }
            if lacks(s, c) {
                assert forall|k: int| 0 <= k < q.len() implies lacks(#[trigger] q[k], c) by {
                    if k < p.len() {
                        assert(q[k] == p[k]);
                    }
                }
            }
        }
    }
}

/// Joining the pieces of a text gives the text back.
pub proof fn lemma_join_split(s: Seq<char>)
    ensures
        join_lines(split_on_newline(s)) == s,
    decreases s.len(),
{
    if s.len() > 0 {
        let t = s.drop_last();
        lemma_join_split(t);
        lemma_split_pieces(t, '\n');
        let p = split_on_newline(t);
        let c = s.last();
        if c == '\n' {
            let q = p.push(seq![]);
            assert(q.drop_last() =~= p);
            assert(join_lines(q) =~= t + seq!['\n'] + seq![]);
            assert(s =~= t + seq!['\n'] + seq![]);
        } else {
            let q = p.update(p.len() - 1, p.last().push(c));
            if p.len() == 1 {
                assert(join_lines(q) == q[0]);
                assert(s =~= t.push(c));
            } else {
                assert(q.drop_last() =~= p.drop_last());
                assert(join_lines(q) =~= join_lines(p).push(c));
                assert(s =~= t.push(c));
            }
        }
    }
}

/// Joining the lines of a text (as a diff sees them) gives the text back.
pub proof fn lemma_join_lines_of(s: Seq<char>)
    ensures
        join_lines(lines_of(s)) == s,
{
    if s.len() > 0 {
        lemma_join_split(s);
    }
}

/// Appending newline-free text extends the last piece.
proof fn lemma_split_append_plain(s: Seq<char>, t: Seq<char>)
    requires
        lacks(t, '\n'),
    ensures
        split_on_newline(s + t) == split_on_newline(s).update(
            split_on_newline(s).len() - 1,
            split_on_newline(s).last() + t,
        ),
    decreases t.len(),
{
    lemma_split_pieces(s, '\n');
    let p = split_on_newline(s);
    if t.len() == 0 {
        assert(s + t =~= s);
        assert(p.update(p.len() - 1, p.last() + t) =~= p);
    } else {
        let u = t.drop_last();
        let c = t.last();
        assert(lacks(u, '\n'));
        lemma_split_append_plain(s, u);
        assert((s + t).drop_last() =~= s + u);
        assert((s + t).last() == c);
        assert(c == t[t.len() - 1]);
        let q = p.update(p.len() - 1, p.last() + u);
        assert(q.last() == p.last() + u);
        assert((p.last() + u).push(c) =~= p.last() + t);
        assert(q.update(q.len() - 1, q.last().push(c)) =~= p.update(p.len() - 1, p.last() + t));
    }
}

/// Splitting joined newline-free lines gives the lines back.
pub proof fn lemma_split_join(lines: Seq<Seq<char>>)
    requires
        lines.len() >= 1,
        all_lack(lines, '\n'),
    ensures
        split_on_newline(join_lines(lines)) == lines,
    decreases lines.len(),
{
    if lines.len() == 1 {
        assert(lacks(lines[0], '\n'));
        lemma_split_append_plain(seq![], lines[0]);
        assert(seq![] + lines[0] =~= lines[0]);
        assert(split_on_newline(seq![]).update(0, seq![] + lines[0]) =~= lines);
    } else {
        let init = lines.drop_last();
        let l = lines.last();
        assert(lacks(l, '\n'));
        lemma_split_join(init);
        let s = join_lines(init) + seq!['\n'];
        assert(s.drop_last() =~= join_lines(init));
        assert(split_on_newline(s) == init.push(seq![]));
        lemma_split_append_plain(s, l);
        assert(join_lines(lines) == s + l);
        let p = init.push(seq![]);
        assert(p.update(p.len() - 1, p.last() + l) =~= lines);
    }
}

/// Trimming trailing newlines off joined lines drops the trailing empty lines.
proof fn lemma_trim_newlines_join(lines: Seq<Seq<char>>)
    requires
        all_lack(lines, '\n'),
    ensures
        trim_trailing_newlines(join_lines(lines)) == join_lines(drop_empty_tail(lines)),
    decreases lines.len(),
{
    if lines.len() == 0 {
    } else if lines.last().len() == 0 {
        let init = lines.drop_last();
        if lines.len() == 1 {
            assert(init =~= seq![]);
            assert(join_lines(lines) == lines[0]);
            assert(join_lines(lines) =~= seq![]);
            assert(drop_empty_tail(lines) == drop_empty_tail(init));
            assert(join_lines(drop_empty_tail(init)) =~= seq![]);
        } else {
            let j = join_lines(init);
            assert(join_lines(lines) =~= j.push('\n'));
            assert(join_lines(lines).drop_last() =~= j);
            assert(all_lack(init, '\n')) by {
                assert forall|k: int| 0 <= k < init.len() implies lacks(#[trigger] init[k], '\n') by {
                    assert(init[k] == lines[k]);
                }
            }
            lemma_trim_newlines_join(init);
        }
    } else {
        let l = lines.last();
        assert(lacks(l, '\n'));
        assert(l[l.len() - 1] != '\n');
        assert(drop_empty_tail(lines) == lines);
        if lines.len() >= 2 {
            let j = join_lines(lines);
            assert(j == join_lines(lines.drop_last()) + seq!['\n'] + l);
            assert(j.last() == l.last());
        }
        assert(join_lines(lines).len() > 0);
        assert(trim_trailing_newlines(join_lines(lines)) == join_lines(lines));
    }
}

/// Dropping trailing empty lines keeps a prefix whose last line is not empty.
proof fn lemma_drop_empty_tail(lines: Seq<Seq<char>>)
    ensures
        drop_empty_tail(lines).len() <= lines.len(),
        drop_empty_tail(lines) == lines.take(drop_empty_tail(lines).len() as int),
        drop_empty_tail(lines).len() > 0 ==> drop_empty_tail(lines).last().len() > 0,
    decreases lines.len(),
{
    if lines.len() > 0 && lines.last().len() == 0 {
        lemma_drop_empty_tail(lines.drop_last());
        let d = drop_empty_tail(lines.drop_last());
        assert(lines.drop_last().take(d.len() as int) =~= lines.take(d.len() as int));
    } else {
        assert(lines.take(lines.len() as int) =~= lines);
    }
}

/// Trimming a line keeps a prefix of it that does not end in a space or tab.
pub proof fn lemma_trim_line_end(line: Seq<char>)
    ensures
        trim_line_end(line).len() <= line.len(),
        trim_line_end(line) == line.take(trim_line_end(line).len() as int),
        trim_line_end(line).len() > 0 ==> !is_line_space(trim_line_end(line).last()),
        trim_line_end(trim_line_end(line)) == trim_line_end(line),
        forall|i: int| trim_line_end(line).len() <= i < line.len() ==> is_line_space(#[trigger] line[i]),
    decreases line.len(),
{
    if line.len() > 0 && is_line_space(line.last()) {
        lemma_trim_line_end(line.drop_last());
        let t = trim_line_end(line.drop_last());
        assert(line.drop_last().take(t.len() as int) =~= line.take(t.len() as int));
        assert forall|i: int| t.len() <= i < line.len() implies is_line_space(#[trigger] line[i]) by {
            if i < line.len() - 1 {
                assert(line[i] == line.drop_last()[i]);
            }
        }
    } else {
        assert(line.take(line.len() as int) =~= line);
    }
}

/// Joined lines lack any character other than `\n` that every line lacks.
proof fn lemma_join_lacks(lines: Seq<Seq<char>>, c: char)
    requires
        c != '\n',
        all_lack(lines, c),
    ensures
        lacks(join_lines(lines), c),
    decreases lines.len(),
{
    if lines.len() >= 2 {
        let init = lines.drop_last();
        assert(all_lack(init, c)) by {
            assert forall|k: int| 0 <= k < init.len() implies lacks(#[trigger] init[k], c) by {
                assert(init[k] == lines[k]);
            }
        }
        lemma_join_lacks(init, c);
        assert(lacks(lines.last(), c));
    } else if lines.len() == 1 {
        assert(lacks(lines[0], c));
    }
}

/// Unified text holds no `\r`, and text without `\r` is already unified.
pub proof fn lemma_unify_line_endings(s: Seq<char>)
    ensures
        lacks(unify_line_endings(s), '\r'),
        lacks(s, '\r') ==> unify_line_endings(s) == s,
    decreases s.len(),
{
    if s.len() > 0 {
        let t = s.drop_last();
        lemma_unify_line_endings(t);
        if lacks(s, '\r') {
            assert(lacks(t, '\r'));
            assert(s.last() == s[s.len() - 1]);
            if s.len() >= 2 {
                assert(s[s.len() - 2] != '\r');
            }
            assert(s =~= t.push(s.last()));
        }
    }
}

/// Normalized text is made of lines that hold no `\n` or `\r`, do not end in
/// a space or tab, and (when there are any) end in a non-empty line.
proof fn lemma_normal_form_lines(s: Seq<char>) -> (kept: Seq<Seq<char>>)
    ensures
        normal_form(s) == join_lines(kept),
        all_lack(kept, '\n'),
        all_lack(kept, '\r'),
        forall|k: int| 0 <= k < kept.len() ==> trim_line_end(#[trigger] kept[k]) == kept[k],
        kept.len() > 0 ==> kept.last().len() > 0,
{
    let u = unify_line_endings(s);
    lemma_unify_line_endings(s);
    lemma_split_pieces(u, '\r');
    let pieces = split_on_newline(u);
    let trimmed = pieces.map_values(|l: Seq<char>| trim_line_end(l));
    assert forall|k: int| 0 <= k < trimmed.len() implies {
        &&& lacks(#[trigger] trimmed[k], '\n')
        &&& lacks(trimmed[k], '\r')
        &&& trim_line_end(trimmed[k]) == trimmed[k]
    } by {
        lemma_trim_line_end(pieces[k]);
        assert(lacks(pieces[k], '\n'));
        assert(lacks(pieces[k], '\r'));
    }
    lemma_trim_newlines_join(trimmed);
    lemma_drop_empty_tail(trimmed);
    let kept = drop_empty_tail(trimmed);
    assert forall|k: int| 0 <= k < kept.len() implies trim_line_end(#[trigger] kept[k]) == kept[k] by {
        assert(kept[k] == trimmed[k]);
    }
    assert(all_lack(kept, '\n')) by {
        assert forall|k: int| 0 <= k < kept.len() implies lacks(#[trigger] kept[k], '\n') by {
            assert(kept[k] == trimmed[k]);
        }
    }
    assert(all_lack(kept, '\r')) by {
        assert forall|k: int| 0 <= k < kept.len() implies lacks(#[trigger] kept[k], '\r') by {
            assert(kept[k] == trimmed[k]);
        }
    }
    kept
}

/// Law: normalization is idempotent. Normalizing normalized text changes
/// nothing, so a snapshot's own text is already in normal form.
pub proof fn law_normalization_is_idempotent(s: Seq<char>)
    ensures
        normal_form(normal_form(s)) == normal_form(s),
{
    let kept = lemma_normal_form_lines(s);
    let n = normal_form(s);
    lemma_join_lacks(kept, '\r');
    lemma_unify_line_endings(n);
    if kept.len() == 0 {
        assert(n =~= seq![]);
        let e: Seq<Seq<char>> = seq![seq![]];
        assert(split_on_newline(n) =~= e);
        assert(split_on_newline(n).map_values(|l: Seq<char>| trim_line_end(l)) =~= e);
        assert(join_lines(e) == e[0]);
    } else {
        lemma_split_join(kept);
        assert(kept.map_values(|l: Seq<char>| trim_line_end(l)) =~= kept);
        lemma_trim_newlines_join(kept);
        assert(drop_empty_tail(kept) == kept);
    }
}

/// Law: normalized text is clean. It holds no `\r`, does not end in `\n`,
/// and none of its lines ends in a space or a tab.
pub proof fn law_normal_form_is_clean(s: Seq<char>)
    ensures
        lacks(normal_form(s), '\r'),
        normal_form(s).len() > 0 ==> normal_form(s).last() != '\n',
        forall|k: int|
            0 <= k < lines_of(normal_form(s)).len() ==> trim_line_end(
                #[trigger] lines_of(normal_form(s))[k],
            ) == lines_of(normal_form(s))[k],
{
    let kept = lemma_normal_form_lines(s);
    let n = normal_form(s);
    lemma_join_lacks(kept, '\r');
    if kept.len() > 0 {
        lemma_split_join(kept);
        let l = kept.last();
        assert(lacks(l, '\n'));
        assert(l[l.len() - 1] != '\n');
        if kept.len() >= 2 {
            assert(n == join_lines(kept.drop_last()) + seq!['\n'] + l);
        }
        assert(n.last() == l.last());
    } else {
        assert(n.len() == 0);
    }
}

/// Law: normalization changes nothing else. Text that is already clean
/// (no `\r`, no trailing `\n`, no line ending in a space or tab) is its own
/// normal form, so leading whitespace and interior blank lines survive.
pub proof fn law_clean_text_is_unchanged(t: Seq<char>)
    requires
        lacks(t, '\r'),
        t.len() > 0 ==> t.last() != '\n',
        forall|k: int| 0 <= k < lines_of(t).len() ==> trim_line_end(#[trigger] lines_of(t)[k]) == lines_of(t)[k],
    ensures
        normal_form(t) == t,
{
    lemma_unify_line_endings(t);
    lemma_join_split(t);
    if t.len() > 0 {
        let pieces = split_on_newline(t);
        assert(pieces.map_values(|l: Seq<char>| trim_line_end(l)) =~= pieces) by {
            assert forall|k: int| 0 <= k < pieces.len() implies trim_line_end(#[trigger] pieces[k])
                == pieces[k] by {
                assert(lines_of(t)[k] == pieces[k]);
            }
        }
        assert(t[t.len() - 1] != '\n');
    } else {
        let e: Seq<Seq<char>> = seq![seq![]];
        assert(split_on_newline(t) =~= e);
        assert(e.map_values(|l: Seq<char>| trim_line_end(l)) =~= e);
        assert(join_lines(e) == e[0]);
        assert(t =~= seq![]);
    }
}

/// Appending a `\n`, space or tab to unified text leaves what normalization
/// makes of it unchanged.
proof fn lemma_unified_trailing(u: Seq<char>, c: char)
    requires
        c == '\n' || is_line_space(c),
    ensures
        trim_trailing_newlines(
            join_lines(split_on_newline(u.push(c)).map_values(|l: Seq<char>| trim_line_end(l))),
        ) == trim_trailing_newlines(
            join_lines(split_on_newline(u).map_values(|l: Seq<char>| trim_line_end(l))),
        ),
{
    lemma_split_pieces(u, '\n');
    let p = split_on_newline(u);
    let t = p.map_values(|l: Seq<char>| trim_line_end(l));
    assert(u.push(c).drop_last() =~= u);
    if c == '\n' {
        let e: Seq<char> = seq![];
        assert(trim_line_end(e) == e);
        assert(p.push(e).map_values(|l: Seq<char>| trim_line_end(l)) =~= t.push(e));
        assert(t.push(e).drop_last() =~= t);
        assert(join_lines(t.push(e)) =~= join_lines(t).push('\n'));
        assert(join_lines(t).push('\n').drop_last() =~= join_lines(t));
    } else {
        let l = p.last();
        assert(l.push(c).drop_last() =~= l);
        assert(trim_line_end(l.push(c)) == trim_line_end(l));
        let q = p.update(p.len() - 1, l.push(c));
        assert(q.map_values(|l: Seq<char>| trim_line_end(l)) =~= t);
    }
}

/// Appending a line-ending character, a space or a tab leaves the normal
/// form unchanged.
proof fn lemma_trailing_char_ignored(s: Seq<char>, c: char)
    requires
        c == '\n' || c == '\r' || is_line_space(c),
    ensures
        normal_form(s.push(c)) == normal_form(s),
{
    let u = unify_line_endings(s);
    let sc = s.push(c);
    assert(sc.drop_last() =~= s);
    assert(sc.last() == c);
    if c == '\n' && s.len() >= 1 && s.last() == '\r' {
        assert(sc[sc.len() - 2] == '\r');
        assert(unify_line_endings(sc) == u);
    } else if c == '\n' || c == '\r' {
        if s.len() >= 1 {
            assert(sc[sc.len() - 2] == s.last());
        }
        assert(unify_line_endings(sc) == u.push('\n'));
        lemma_unified_trailing(u, '\n');
    } else {
        assert(unify_line_endings(sc) == u.push(c));
        lemma_unified_trailing(u, c);
    }
}

/// Law: a trailing `\n`, `\r\n`, `\r`, space or tab never changes the normal
/// form.
pub proof fn law_trailing_line_end_ignored(s: Seq<char>, c: char)
    requires
        c == '\n' || c == '\r' || is_line_space(c),
    ensures
        normal_form(s.push(c)) == normal_form(s),
        normal_form(s + seq!['\r', '\n']) == normal_form(s),
{
    lemma_trailing_char_ignored(s, c);
    lemma_trailing_char_ignored(s, '\r');
    lemma_trailing_char_ignored(s.push('\r'), '\n');
    assert(s + seq!['\r', '\n'] =~= s.push('\r').push('\n'));
}

/// Law: trimming a line end removes exactly its trailing spaces and tabs.
/// What is kept is a prefix of the line that is empty or ends in a character
/// other than a space or a tab, and every character removed is a space or a
/// tab; so a line that is empty or ends in anything else is left unchanged.
pub proof fn law_trim_line_end_removes_only_trailing_spaces(line: Seq<char>)
    ensures
        trim_line_end(line).len() <= line.len(),
        trim_line_end(line) == line.take(trim_line_end(line).len() as int),
        trim_line_end(line).len() > 0 ==> !is_line_space(trim_line_end(line).last()),
        forall|i: int| trim_line_end(line).len() <= i < line.len() ==> is_line_space(#[trigger] line[i]),
        line.len() == 0 || !is_line_space(line.last()) ==> trim_line_end(line) == line,
{
    lemma_trim_line_end(line);
    if line.len() > 0 && !is_line_space(line.last()) {
        if trim_line_end(line).len() < line.len() {
            assert(is_line_space(line[line.len() - 1]));
        }
        assert(trim_line_end(line) =~= line);
    }
}

/// Law: the normal form of a single line (no `\n`, no `\r`) is the line
/// without its trailing spaces and tabs; every other character is kept.
pub proof fn law_normal_form_of_one_line(line: Seq<char>)
    requires
        lacks(line, '\n'),
        lacks(line, '\r'),
    ensures
        normal_form(line) == trim_line_end(line),
{
    lemma_unify_line_endings(line);
    let one: Seq<Seq<char>> = seq![line];
    assert(all_lack(one, '\n')) by {
        assert forall|k: int| 0 <= k < one.len() implies lacks(#[trigger] one[k], '\n') by {
            assert(one[k] == line);
        }
    }
    lemma_split_join(one);
    assert(join_lines(one) == line);
    let t = trim_line_end(line);
    assert(one.map_values(|l: Seq<char>| trim_line_end(l)) =~= seq![t]);
    let tt: Seq<Seq<char>> = seq![t];
    assert(join_lines(tt) == t);
    lemma_trim_line_end(line);
    if t.len() > 0 {
        assert(t.last() == line[t.len() - 1]);
        assert(t.last() != '\n');
    }
}

// ---------------------------------------------------------------------------
// Execution
// ---------------------------------------------------------------------------

/// Appends `c` to `s`.
///
/// Trusted: `String::push` from std appends the given character to the end
/// of the string; this contract states exactly that.
#[verifier::external_body]
pub(crate) fn push_char(s: &mut String, c: char)
    ensures
        final(s)@ == old(s)@.push(c),
{
    s.push(c);
}

/// The characters of `text`, in order.
pub(crate) fn chars_of(text: &str) -> (v: Vec<char>)
    ensures
        v@ == text@,
{
    let mut v: Vec<char> = Vec::new();
    for c in it: text.chars()
        invariant
            v@ == it.seq().take(it.index() as int),
    {
        v.push(c);
    }
    v
}

/// A `String` holding exactly `chars`.
pub(crate) fn string_from_chars(chars: &[char]) -> (s: String)
    ensures
        s@ == chars@,
{
    let mut s = String::new();
    let mut i: usize = 0;
    while i < chars.len()
        invariant
            i <= chars@.len(),
            s@ == chars@.take(i as int),
        decreases chars@.len() - i,
    {
        push_char(&mut s, chars[i]);
        i = i + 1;
        assert(chars@.take(i as int) =~= chars@.take((i - 1) as int).push(chars@[i - 1]));
    }
    assert(chars@.take(i as int) =~= chars@);
    s
}

/// `chars` with every `\r\n` and every lone `\r` turned into `\n`.
pub(crate) fn unify_line_endings_exec(chars: &Vec<char>) -> (out: Vec<char>)
    ensures
        out@ == unify_line_endings(chars@),
{
    let mut out: Vec<char> = Vec::new();
    let mut i: usize = 0;
    while i < chars.len()
        invariant
            i <= chars@.len(),
            out@ == unify_line_endings(chars@.take(i as int)),
        decreases chars@.len() - i,
    {
        let c = chars[i];
        assert(chars@.take(i + 1).drop_last() =~= chars@.take(i as int));
        if c == '\n' && i > 0 && chars[i - 1] == '\r' {
        } else if c == '\r' {
            out.push('\n');
        } else {
            out.push(c);
        }
        i = i + 1;
    }
    assert(chars@.take(i as int) =~= chars@);
    out
}

/// The pieces of `chars` between `\n` separators.
pub(crate) fn split_on_newline_exec(chars: &Vec<char>) -> (lines: Vec<Vec<char>>)
    ensures
        lines_view(lines@) == split_on_newline(chars@),
{
    let mut lines: Vec<Vec<char>> = Vec::new();
    let mut cur: Vec<char> = Vec::new();
    let mut i: usize = 0;
    while i < chars.len()
        invariant
            i <= chars@.len(),
            lines_view(lines@).push(cur@) == split_on_newline(chars@.take(i as int)),
        decreases chars@.len() - i,
    {
        let c = chars[i];
        let ghost before = lines_view(lines@).push(cur@);
        assert(chars@.take(i + 1).drop_last() =~= chars@.take(i as int));
        if c == '\n' {
            lines.push(cur);
            cur = Vec::new();
            assert(lines_view(lines@).push(cur@) =~= before.push(seq![]));
        } else {
            cur.push(c);
            assert(lines_view(lines@).push(cur@) =~= before.update(
                before.len() - 1,
                before.last().push(c),
            ));
        }
        i = i + 1;
    }
    assert(chars@.take(i as int) =~= chars@);
    let ghost before = lines_view(lines@).push(cur@);
    lines.push(cur);
    assert(lines_view(lines@) =~= before);
    lines
}

/// The length of `line` once its trailing spaces and tabs are stripped.
pub(crate) fn trimmed_len(line: &Vec<char>) -> (n: usize)
    ensures
        n <= line@.len(),
        line@.take(n as int) == trim_line_end(line@),
{
    let mut n = line.len();
    assert(line@.take(n as int) =~= line@);
    while n > 0 && (line[n - 1] == ' ' || line[n - 1] == '\t')
        invariant
            n <= line@.len(),
            trim_line_end(line@.take(n as int)) == trim_line_end(line@),
        decreases n,
    {
        assert(line@.take(n as int).drop_last() =~= line@.take(n - 1));
        n = n - 1;
    }
    n
}

/// The normalized form of `chars`.
pub(crate) fn normalize_chars(chars: &Vec<char>) -> (out: Vec<char>)
    ensures
        out@ == normal_form(chars@),
{
    let unified = unify_line_endings_exec(chars);
    let lines = split_on_newline_exec(&unified);
    let ghost trimmed = split_on_newline(unified@).map_values(|l: Seq<char>| trim_line_end(l));
    let mut out: Vec<char> = Vec::new();
    let mut k: usize = 0;
    while k < lines.len()
        invariant
            k <= lines@.len(),
            lines_view(lines@) == split_on_newline(unified@),
            trimmed == split_on_newline(unified@).map_values(|l: Seq<char>| trim_line_end(l)),
            out@ == join_lines(trimmed.take(k as int)),
        decreases lines@.len() - k,
    {
        let ghost base = out@;
        if k > 0 {
            out.push('\n');
        }
        let line = &lines[k];
        let n = trimmed_len(line);
        let ghost mid = out@;
        let mut t: usize = 0;
        while t < n
            invariant
                t <= n,
                n <= line@.len(),
                out@ == mid + line@.take(t as int),
            decreases n - t,
        {
            out.push(line[t]);
            t = t + 1;
            assert(out@ =~= mid + line@.take(t as int));
        }
        assert(lines_view(lines@)[k as int] == line@);
        assert(trimmed[k as int] == line@.take(n as int));
        assert(trimmed.take(k + 1).drop_last() =~= trimmed.take(k as int));
        if k > 0 {
            assert(out@ =~= base + seq!['\n'] + trimmed[k as int]);
        } else {
            assert(out@ =~= trimmed.take(1)[0]);
        }
        k = k + 1;
    }
    assert(trimmed.take(k as int) =~= trimmed);
    while out.len() > 0 && out[out.len() - 1] == '\n'
        invariant
            trim_trailing_newlines(out@) == normal_form(chars@),
        decreases out@.len(),
    {
        out.pop();
    }
    out
}

} // verus!

//! The reader: the structure of a datom text.
//!
//! Forms are separated by whitespace and `;` comments. A bare run of word
//! glyphs is a word, or a chain of symbols joined by separators; a chain may
//! end in an enclosure or in opaque content. `{ }`, `[ ]` and `< >` enclose
//! forms; `“ ”` and `( )` bound opaque content, in which the boundary glyphs
//! nest and a backslash takes the next glyph literally.

use vstd::prelude::*;

use crate::form::{Extent, SpecForm, SpecSituation};
use crate::glyph::{
    boundary_closed, boundary_closer, boundary_opened, boundary_opener, enclosure_closed,
    enclosure_opened, is_space, is_wordy, separator_of, Boundary, Enclosure, Separator,
};

verus! {

/// How deep forms may nest: enclosures and chained heads each add a level.
pub const MAX_DEPTH: usize = 1024;

/// What the reader can find wrong with a text.
#[derive(Clone, Copy, Debug, PartialEq, Eq, Structural)]
pub enum StructuralProblem {
    /// An enclosure that the text never closes.
    Unclosed(Enclosure),
    /// A closer with no open enclosure of its kind.
    Unopened(Enclosure),
    /// A boundary that the text never closes.
    Unterminated(Boundary),
    /// A closing boundary glyph where a form should begin.
    Stray(Boundary),
    /// Forms nested deeper than the reader goes.
    Depth,
}

/// A structural fault: what is wrong, and where.
#[derive(Clone, Copy, Debug, PartialEq, Eq, Structural)]
pub struct StructuralFault {
    /// The span of the text at fault.
    pub extent: Extent,
    /// What is wrong.
    pub problem: StructuralProblem,
}

/// The number of bytes a glyph takes in UTF-8.
pub open spec fn utf8_width(c: char) -> int {
    if (c as int) < 0x80 {
        1
    } else if (c as int) < 0x800 {
        2
    } else if (c as int) < 0x10000 {
        3
    } else {
        4
    }
}

/// The byte offset of the glyph at index `i`.
pub open spec fn byte_position(s: Seq<char>, i: int) -> int
    decreases i,
{
    if i <= 0 || i > s.len() {
        0
    } else {
        byte_position(s, i - 1) + utf8_width(s[i - 1])
    }
}

/// The byte extent between two glyph indices.
pub open spec fn span(s: Seq<char>, a: int, b: int) -> Extent {
    Extent(byte_position(s, a) as i64, byte_position(s, b) as i64)
}

/// A situation with no parts.
pub open spec fn leaf(s: Seq<char>, a: int, b: int) -> SpecSituation {
    SpecSituation { extent: (byte_position(s, a), byte_position(s, b)), children: Seq::empty() }
}

/// A structural fault between two glyph indices.
pub open spec fn fault_at(s: Seq<char>, a: int, b: int, p: StructuralProblem) -> StructuralFault {
    StructuralFault { extent: span(s, a, b), problem: p }
}

/// The index where a comment ends: the next newline, or the end.
pub open spec fn comment_end(s: Seq<char>, i: int) -> int
    decreases s.len() - i,
{
    if 0 <= i < s.len() && s[i] != '\n' {
        comment_end(s, i + 1)
    } else {
        i
    }
}

/// The index of the first glyph at or after `i` that is neither whitespace nor comment.
pub open spec fn skip_trivia(s: Seq<char>, i: int) -> int
    decreases s.len() - i,
{
    if 0 <= i < s.len() && is_space(s[i]) {
        skip_trivia(s, i + 1)
    } else if 0 <= i < s.len() && s[i] == ';' {
        let j = comment_end(s, i + 1);
        if i < j <= s.len() {
            skip_trivia(s, j)
        } else {
            i
        }
    } else {
        i
    }
}

/// The end of the bare run starting at `i`.
pub open spec fn run_end(s: Seq<char>, i: int) -> int
    decreases s.len() - i,
{
    if 0 <= i < s.len() && is_wordy(s[i]) {
        run_end(s, i + 1)
    } else {
        i
    }
}

/// Whether a glyph is a separator.
pub open spec fn is_separator(c: char) -> bool {
    separator_of(c) is Some
}

/// A run with no separator: a plain symbol.
pub open spec fn no_separator(w: Seq<char>) -> bool {
    forall|j: int| 0 <= j < w.len() ==> !is_separator(#[trigger] w[j])
}

/// A run in which no piece between separators is empty at its start or inside.
pub open spec fn no_empty_piece(w: Seq<char>) -> bool {
    &&& w.len() > 0
    &&& !is_separator(w[0])
    &&& forall|j: int| 1 <= j < w.len() && is_separator(#[trigger] w[j]) ==> !is_separator(w[j - 1])
}

/// A chain prefix: symbols, each followed by a separator.
pub open spec fn chain_prefix(w: Seq<char>) -> bool {
    no_empty_piece(w) && is_separator(w.last())
}

/// A chained word: symbols joined by separators, ending in a symbol.
pub open spec fn chain_word(w: Seq<char>) -> bool {
    no_empty_piece(w) && !is_separator(w.last()) && !no_separator(w)
}

/// The number of separators in a run.
pub open spec fn separator_count(w: Seq<char>) -> int
    decreases w.len(),
{
    if w.len() == 0 {
        0
    } else {
        separator_count(w.drop_last()) + if is_separator(w.last()) {
            1int
        } else {
            0
        }
    }
}

/// The first separator index in `[a, b)`, or `b`.
pub open spec fn first_separator(s: Seq<char>, a: int, b: int) -> int
    decreases b - a,
{
    if a >= b {
        b
    } else if 0 <= a < s.len() && is_separator(s[a]) {
        a
    } else {
        first_separator(s, a + 1, b)
    }
}

/// The last separator index in `[a, b)`, or `a - 1`.
pub open spec fn last_separator(s: Seq<char>, a: int, b: int) -> int
    decreases b - a,
{
    if a >= b {
        a - 1
    } else if 0 <= b - 1 < s.len() && is_separator(s[b - 1]) {
        b - 1
    } else {
        last_separator(s, a, b - 1)
    }
}

/// Whether a glyph can begin a form right after a separator.
pub open spec fn starts_form(c: char) -> bool {
    is_wordy(c) || enclosure_opened(c) is Some || boundary_opened(c) is Some
}

/// Whether a glyph opens a delimited body after a chain prefix.
pub open spec fn opens_body(c: char) -> bool {
    enclosure_opened(c) is Some || boundary_opened(c) is Some
}

/// The chain of heads in `s[a..b]`, each followed by its separator, ending in `body`.
pub open spec fn chain(
    s: Seq<char>,
    a: int,
    b: int,
    body: SpecForm,
    body_at: SpecSituation,
    end: int,
) -> (SpecForm, SpecSituation)
    decreases b - a,
{
    if a >= b {
        (body, body_at)
    } else {
        let m = first_separator(s, a, b);
        if m < a || m >= b || m >= s.len() {
            (body, body_at)
        } else {
            let inner = chain(s, m + 1, b, body, body_at, end);
            (
                SpecForm::Headed(s.subrange(a, m), separator_of(s[m])->0, Box::new(inner.0)),
                SpecSituation {
                    extent: (byte_position(s, a), byte_position(s, end)),
                    children: seq![leaf(s, a, m), inner.1],
                },
            )
        }
    }
}

/// Opaque content from `i` up to the closing boundary at nesting depth zero,
/// with escapes resolved; and the index after the closing boundary.
pub open spec fn opaque(s: Seq<char>, i: int, b: Boundary, depth: int, acc: Seq<char>) -> Option<
    (Seq<char>, int),
>
    decreases s.len() - i,
{
    if i < 0 || i >= s.len() {
        None
    } else if s[i] == '\\' {
        if i + 1 < s.len() {
            opaque(s, i + 2, b, depth, acc.push(s[i + 1]))
        } else {
            None
        }
    } else if s[i] == boundary_closer(b) {
        if depth <= 0 {
            Some((acc, i + 1))
        } else {
            opaque(s, i + 1, b, depth - 1, acc.push(s[i]))
        }
    } else if s[i] == boundary_opener(b) {
        opaque(s, i + 1, b, depth + 1, acc.push(s[i]))
    } else {
        opaque(s, i + 1, b, depth, acc.push(s[i]))
    }
}

/// The forms from `i` up to the closer of `close` (or the end of the text at
/// the top), their situations, and the index after the closer.
#[verifier::opaque]
pub open spec fn items(
    s: Seq<char>,
    i: int,
    close: Option<Enclosure>,
    open_at: int,
    depth: int,
) -> Result<(Seq<SpecForm>, Seq<SpecSituation>, int), StructuralFault>
    decreases s.len() - i, 2int,
{
    let j = skip_trivia(s, i);
    if i < 0 || j < i || j > s.len() {
        Err(fault_at(s, i, i, StructuralProblem::Depth))
    } else if j == s.len() {
        match close {
            None => Ok((Seq::empty(), Seq::empty(), j)),
            Some(e) => Err(fault_at(s, open_at, s.len() as int, StructuralProblem::Unclosed(e))),
        }
    } else if enclosure_closed(s[j]) is Some {
        let e = enclosure_closed(s[j])->0;
        if close == Some(e) {
            Ok((Seq::empty(), Seq::empty(), j + 1))
        } else {
            Err(fault_at(s, j, j + 1, StructuralProblem::Unopened(e)))
        }
    } else if boundary_closed(s[j]) is Some {
        Err(fault_at(s, j, j + 1, StructuralProblem::Stray(boundary_closed(s[j])->0)))
    } else {
        match form(s, j, depth) {
            Err(f) => Err(f),
            Ok((f, at, k)) => if k <= j || k > s.len() {
                Err(fault_at(s, j, j, StructuralProblem::Depth))
            } else {
                match items(s, k, close, open_at, depth) {
                    Err(e) => Err(e),
                    Ok((fs, ats, end)) => Ok((seq![f] + fs, seq![at] + ats, end)),
                }
            },
        }
    }
}

/// The form starting at `i`, its situation, and the index after it.
#[verifier::opaque]
pub open spec fn form(s: Seq<char>, i: int, depth: int) -> Result<
    (SpecForm, SpecSituation, int),
    StructuralFault,
>
    decreases s.len() - i, 1int,
{
    if i < 0 || i >= s.len() {
        Err(fault_at(s, i, i, StructuralProblem::Depth))
    } else if depth > MAX_DEPTH {
        Err(fault_at(s, i, i + 1, StructuralProblem::Depth))
    } else if enclosure_opened(s[i]) is Some {
        let e = enclosure_opened(s[i])->0;
        match items(s, i + 1, Some(e), i, depth + 1) {
            Err(f) => Err(f),
            Ok((fs, ats, end)) => Ok(
                (
                    SpecForm::Enclosed(e, fs),
                    SpecSituation {
                        extent: (byte_position(s, i), byte_position(s, end)),
                        children: ats,
                    },
                    end,
                ),
            ),
        }
    } else if boundary_opened(s[i]) is Some {
        let b = boundary_opened(s[i])->0;
        match opaque(s, i + 1, b, 0, Seq::empty()) {
            None => Err(fault_at(s, i, s.len() as int, StructuralProblem::Unterminated(b))),
            Some((content, end)) => Ok((SpecForm::Opaque(b, content), leaf(s, i, end), end)),
        }
    } else if is_wordy(s[i]) {
        run(s, i, depth)
    } else {
        Err(fault_at(s, i, i, StructuralProblem::Depth))
    }
}

/// The form of the bare run starting at `i`.
#[verifier::opaque]
pub open spec fn run(s: Seq<char>, i: int, depth: int) -> Result<
    (SpecForm, SpecSituation, int),
    StructuralFault,
>
    decreases s.len() - i, 0int,
{
    let r = run_end(s, i);
    let w = s.subrange(i, r);
    if i < 0 || r <= i || r > s.len() {
        Err(fault_at(s, i, i, StructuralProblem::Depth))
    } else if r < s.len() && s[r] == '<' && no_separator(w) {
        match items(s, r + 1, Some(Enclosure::Angled), r, depth + 1) {
            Err(f) => Err(f),
            Ok((cs, ats, k)) => {
                let params = SpecSituation {
                    extent: (byte_position(s, i), byte_position(s, k)),
                    children: ats,
                };
                if k <= r || k > s.len() {
                    Err(fault_at(s, i, i, StructuralProblem::Depth))
                } else if k + 1 < s.len() && is_separator(s[k]) && starts_form(s[k + 1]) {
                    match form(s, k + 1, depth + 1) {
                        Err(f) => Err(f),
                        Ok((body, body_at, end)) => Ok(
                            (
                                SpecForm::QualifiedHeaded(
                                    w,
                                    cs,
                                    separator_of(s[k])->0,
                                    Box::new(body),
                                ),
                                SpecSituation {
                                    extent: (byte_position(s, i), byte_position(s, end)),
                                    children: seq![params, body_at],
                                },
                                end,
                            ),
                        ),
                    }
                } else {
                    Ok((SpecForm::Qualified(w, cs), params, k))
                }
            },
        }
    } else if r < s.len() && opens_body(s[r]) && chain_prefix(w) {
        let n = separator_count(w);
        if depth + n > MAX_DEPTH {
            Err(fault_at(s, i, r, StructuralProblem::Depth))
        } else {
            match form(s, r, depth + n) {
                Err(f) => Err(f),
                Ok((body, body_at, end)) => {
                    let c = chain(s, i, r, body, body_at, end);
                    Ok((c.0, c.1, end))
                },
            }
        }
    } else if chain_word(w) {
        let n = separator_count(w);
        if depth + n > MAX_DEPTH {
            Err(fault_at(s, i, r, StructuralProblem::Depth))
        } else {
            let l = last_separator(s, i, r);
            let c = chain(
                s,
                i,
                l + 1,
                SpecForm::Bare(s.subrange(l + 1, r)),
                leaf(s, l + 1, r),
                r,
            );
            Ok((c.0, c.1, r))
        }
    } else {
        Ok((SpecForm::Bare(w), leaf(s, i, r), r))
    }
}

/// The structures of a whole text, with their situations.
pub open spec fn delineated(s: Seq<char>) -> Result<
    (Seq<SpecForm>, Seq<SpecSituation>),
    StructuralFault,
> {
    match items(s, 0, None, 0, 0) {
        Err(f) => Err(f),
        Ok((fs, ats, _)) => Ok((fs, ats)),
    }
}

/// The items up to a closer that comes right after trivia.
pub proof fn lemma_items_closes(s: Seq<char>, i: int, e: Enclosure, open_at: int, depth: int)
    requires
        0 <= i <= skip_trivia(s, i) < s.len(),
        enclosure_closed(s[skip_trivia(s, i)]) == Some(e),
    ensures
        items(s, i, Some(e), open_at, depth) == Ok::<_, StructuralFault>(
            (Seq::<SpecForm>::empty(), Seq::<SpecSituation>::empty(), skip_trivia(s, i) + 1),
        ),
{
    reveal(form);
    reveal(run);
    reveal(items);
}

/// The top-level items at the end of the text.
pub proof fn lemma_items_ends(s: Seq<char>, i: int, open_at: int, depth: int)
    requires
        0 <= i,
        skip_trivia(s, i) == s.len(),
    ensures
        items(s, i, None, open_at, depth) == Ok::<_, StructuralFault>(
            (Seq::<SpecForm>::empty(), Seq::<SpecSituation>::empty(), s.len() as int),
        ),
{
    reveal(form);
    reveal(run);
    reveal(items);
    assert(i <= s.len()) by {
        lemma_skip_trivia_bounds(s, i);
    }
}

/// Trivia is skipped forwards and stays within the text.
pub proof fn lemma_skip_trivia_bounds(s: Seq<char>, i: int)
    requires
        0 <= i,
    ensures
        i <= skip_trivia(s, i),
        i <= s.len() ==> skip_trivia(s, i) <= s.len(),
        i > s.len() ==> skip_trivia(s, i) == i,
    decreases s.len() - i,
{
    if 0 <= i < s.len() && is_space(s[i]) {
        lemma_skip_trivia_bounds(s, i + 1);
    } else if 0 <= i < s.len() && s[i] == ';' {
        let j = comment_end(s, i + 1);
        if i < j <= s.len() {
            lemma_skip_trivia_bounds(s, j);
        }
    }
}

/// The items starting with one form.
pub proof fn lemma_items_step(
    s: Seq<char>,
    i: int,
    close: Option<Enclosure>,
    open_at: int,
    depth: int,
    f: SpecForm,
    at: SpecSituation,
    k: int,
    fs: Seq<SpecForm>,
    ats: Seq<SpecSituation>,
    end: int,
)
    requires
        0 <= i <= skip_trivia(s, i) < k <= s.len(),
        enclosure_closed(s[skip_trivia(s, i)]) is None,
        boundary_closed(s[skip_trivia(s, i)]) is None,
        form(s, skip_trivia(s, i), depth) == Ok::<_, StructuralFault>((f, at, k)),
        items(s, k, close, open_at, depth) == Ok::<_, StructuralFault>((fs, ats, end)),
    ensures
        items(s, i, close, open_at, depth) == Ok::<_, StructuralFault>(
            (seq![f] + fs, seq![at] + ats, end),
        ),
{
    reveal(form);
    reveal(run);
    reveal(items);
}

/// A form that opens an enclosure.
pub proof fn lemma_form_enclosed(
    s: Seq<char>,
    i: int,
    depth: int,
    e: Enclosure,
    fs: Seq<SpecForm>,
    ats: Seq<SpecSituation>,
    end: int,
)
    requires
        0 <= i < s.len(),
        0 <= depth <= MAX_DEPTH,
        enclosure_opened(s[i]) == Some(e),
        items(s, i + 1, Some(e), i, depth + 1) == Ok::<_, StructuralFault>((fs, ats, end)),
    ensures
        form(s, i, depth) == Ok::<_, StructuralFault>(
            (
                SpecForm::Enclosed(e, fs),
                SpecSituation {
                    extent: (byte_position(s, i), byte_position(s, end)),
                    children: ats,
                },
                end,
            ),
        ),
{
    reveal(form);
    reveal(run);
    reveal(items);
}

/// A form that opens a boundary.
pub proof fn lemma_form_opaque(
    s: Seq<char>,
    i: int,
    depth: int,
    b: Boundary,
    content: Seq<char>,
    end: int,
)
    requires
        0 <= i < s.len(),
        0 <= depth <= MAX_DEPTH,
        boundary_opened(s[i]) == Some(b),
        opaque(s, i + 1, b, 0, Seq::empty()) == Some((content, end)),
    ensures
        form(s, i, depth) == Ok::<_, StructuralFault>(
            (SpecForm::Opaque(b, content), leaf(s, i, end), end),
        ),
{
    reveal(form);
    reveal(run);
    reveal(items);
    assert(enclosure_opened(s[i]) is None);
}

/// A form that starts a bare run.
pub proof fn lemma_form_run(s: Seq<char>, i: int, depth: int)
    requires
        0 <= i < s.len(),
        0 <= depth <= MAX_DEPTH,
        is_wordy(s[i]),
    ensures
        form(s, i, depth) == run(s, i, depth),
{
    reveal(form);
    reveal(run);
    reveal(items);
}

/// A run that is a bare word.
pub proof fn lemma_run_bare(s: Seq<char>, i: int, depth: int)
    requires
        0 <= i < run_end(s, i) <= s.len(),
        !(run_end(s, i) < s.len() && s[run_end(s, i)] == '<'),
        !(run_end(s, i) < s.len() && opens_body(s[run_end(s, i)])),
        !chain_word(s.subrange(i, run_end(s, i))),
    ensures
        run(s, i, depth) == Ok::<_, StructuralFault>(
            (
                SpecForm::Bare(s.subrange(i, run_end(s, i))),
                leaf(s, i, run_end(s, i)),
                run_end(s, i),
            ),
        ),
{
    reveal(form);
    reveal(run);
    reveal(items);
}

/// A run that is a chained word.
pub proof fn lemma_run_word_chain(s: Seq<char>, i: int, depth: int)
    requires
        0 <= i < run_end(s, i) <= s.len(),
        !(run_end(s, i) < s.len() && s[run_end(s, i)] == '<'),
        !(run_end(s, i) < s.len() && opens_body(s[run_end(s, i)])),
        chain_word(s.subrange(i, run_end(s, i))),
        depth + separator_count(s.subrange(i, run_end(s, i))) <= MAX_DEPTH,
    ensures
        ({
            let r = run_end(s, i);
            let l = last_separator(s, i, r);
            let c = chain(s, i, l + 1, SpecForm::Bare(s.subrange(l + 1, r)), leaf(s, l + 1, r), r);
            run(s, i, depth) == Ok::<_, StructuralFault>((c.0, c.1, r))
        }),
{
    reveal(form);
    reveal(run);
    reveal(items);
}

/// A run that is a chain prefix followed by a delimited body.
pub proof fn lemma_run_body_chain(
    s: Seq<char>,
    i: int,
    depth: int,
    body: SpecForm,
    body_at: SpecSituation,
    end: int,
)
    requires
        0 <= i < run_end(s, i) < s.len(),
        !(s[run_end(s, i)] == '<' && no_separator(s.subrange(i, run_end(s, i)))),
        opens_body(s[run_end(s, i)]),
        chain_prefix(s.subrange(i, run_end(s, i))),
        depth + separator_count(s.subrange(i, run_end(s, i))) <= MAX_DEPTH,
        form(s, run_end(s, i), depth + separator_count(s.subrange(i, run_end(s, i))))
            == Ok::<_, StructuralFault>((body, body_at, end)),
    ensures
        ({
            let c = chain(s, i, run_end(s, i), body, body_at, end);
            run(s, i, depth) == Ok::<_, StructuralFault>((c.0, c.1, end))
        }),
{
    reveal(form);
    reveal(run);
    reveal(items);
}

} // verus!

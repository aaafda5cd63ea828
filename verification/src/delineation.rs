//! Delineation: the executable reader of datom texts.

use vstd::prelude::*;

use crate::form::{
    forms_view, situations_view, Extent, Protoform, Situated, Situation, SpecForm, SpecSituation,
};
use crate::glyph::{
    boundary_closed, boundary_closer, boundary_opened, boundary_opener, chars_of, closed_boundary,
    closed_enclosure, enclosure_closed, enclosure_opened, is_space, is_wordy, opened_boundary,
    opened_enclosure, separator, separator_of, space, string_of, wordy, Boundary, Enclosure,
    Separator,
};
use crate::reader::{
    byte_position, chain, chain_prefix, chain_word, comment_end, delineated, first_separator, form,
    is_separator, items, last_separator, leaf, no_empty_piece, no_separator, opaque, opens_body,
    run, run_end, separator_count, skip_trivia, span, starts_form, utf8_width, StructuralFault,
    StructuralProblem, MAX_DEPTH,
};
use crate::writer::{boundary_glyph_close, boundary_glyph_open};

verus! {

/// Byte offsets of every glyph index of a text, and of its end.
pub open spec fn offsets_of(s: Seq<char>, o: Seq<i64>) -> bool {
    &&& o.len() == s.len() + 1
    &&& forall|k: int| 0 <= k <= s.len() ==> #[trigger] o[k] == byte_position(s, k)
}

/// The text of the glyphs between two indices.
pub(crate) fn substring(s: &Vec<char>, a: usize, b: usize) -> (text: String)
    requires
        a <= b <= s.len(),
    ensures
        text@ == s@.subrange(a as int, b as int),
{
    string_of(vstd::slice::slice_subrange(s.as_slice(), a, b))
}

/// The number of bytes a glyph takes in UTF-8.
fn width(c: char) -> (w: i64)
    ensures
        w == utf8_width(c),
{
    let u = c as u32;
    if u < 0x80 {
        1
    } else if u < 0x800 {
        2
    } else if u < 0x10000 {
        3
    } else {
        4
    }
}

proof fn lemma_byte_position_bound(s: Seq<char>, k: int)
    requires
        0 <= k <= s.len(),
    ensures
        0 <= byte_position(s, k) <= 4 * k,
    decreases k,
{
    if k > 0 {
        lemma_byte_position_bound(s, k - 1);
    }
}

/// The byte offset of every glyph index.
fn byte_offsets(s: &Vec<char>) -> (o: Vec<i64>)
    requires
        s.len() <= usize::MAX / 8,
    ensures
        offsets_of(s@, o@),
{
    let mut o: Vec<i64> = Vec::new();
    let mut acc: i64 = 0;
    o.push(0);
    let mut k: usize = 0;
    while k < s.len()
        invariant
            0 <= k <= s.len(),
            s.len() <= usize::MAX / 8,
            o@.len() == k + 1,
            acc == byte_position(s@, k as int),
            forall|j: int| 0 <= j <= k ==> #[trigger] o@[j] == byte_position(s@, j),
        decreases s.len() - k,
    {
        proof {
            lemma_byte_position_bound(s@, k as int);
        }
        acc = acc + width(s[k]);
        k = k + 1;
        o.push(acc);
    }
    o
}

/// The index of the first glyph at or after `i` that is neither whitespace nor comment.
fn skip(s: &Vec<char>, i: usize) -> (j: usize)
    requires
        i <= s.len(),
    ensures
        j == skip_trivia(s@, i as int),
        i <= j <= s.len(),
{
    let mut k = i;
    while k < s.len() && (space(s[k]) || s[k] == ';')
        invariant
            i <= k <= s.len(),
            skip_trivia(s@, i as int) == skip_trivia(s@, k as int),
        decreases s.len() - k,
    {
        if s[k] == ';' {
            let mut m = k + 1;
            while m < s.len() && s[m] != '\n'
                invariant
                    k < m <= s.len(),
                    comment_end(s@, k + 1) == comment_end(s@, m as int),
                decreases s.len() - m,
            {
                m = m + 1;
            }
            k = m;
        } else {
            k = k + 1;
        }
    }
    k
}

/// The end of the bare run starting at `i`.
fn end_of_run(s: &Vec<char>, i: usize) -> (r: usize)
    requires
        i <= s.len(),
    ensures
        r == run_end(s@, i as int),
        i <= r <= s.len(),
        (i < s.len() && is_wordy(s@[i as int])) ==> i < r,
        forall|j: int| i <= j < r ==> is_wordy(#[trigger] s@[j]),
{
    let mut k = i;
    while k < s.len() && wordy(s[k])
        invariant
            i <= k <= s.len(),
            run_end(s@, i as int) == run_end(s@, k as int),
            forall|j: int| i <= j < k ==> is_wordy(#[trigger] s@[j]),
        decreases s.len() - k,
    {
        k = k + 1;
    }
    k
}

/// Whether no glyph in `[a, b)` is a separator.
pub(crate) fn none_separating(s: &Vec<char>, a: usize, b: usize) -> (r: bool)
    requires
        a <= b <= s.len(),
    ensures
        r == no_separator(s@.subrange(a as int, b as int)),
{
    let ghost w = s@.subrange(a as int, b as int);
    let mut k = a;
    while k < b
        invariant
            a <= k <= b <= s.len(),
            w == s@.subrange(a as int, b as int),
            forall|j: int| 0 <= j < k - a ==> !is_separator(#[trigger] w[j]),
        decreases b - k,
    {
        if separator(s[k]).is_some() {
            assert(w[k - a] == s@[k as int]);
            return false;
        }
        assert(w[k - a] == s@[k as int]);
        k = k + 1;
    }
    true
}

/// Whether no piece between separators in `[a, b)` is empty at its start or inside.
fn no_empty_pieces(s: &Vec<char>, a: usize, b: usize) -> (r: bool)
    requires
        a <= b <= s.len(),
    ensures
        r == no_empty_piece(s@.subrange(a as int, b as int)),
{
    let ghost w = s@.subrange(a as int, b as int);
    if a == b {
        return false;
    }
    if separator(s[a]).is_some() {
        assert(w[0] == s@[a as int]);
        return false;
    }
    assert(w[0] == s@[a as int]);
    let mut k = a + 1;
    while k < b
        invariant
            a < k <= b <= s.len(),
            w == s@.subrange(a as int, b as int),
            !is_separator(w[0]),
            forall|j: int| 1 <= j < k - a && is_separator(#[trigger] w[j]) ==> !is_separator(w[j - 1]),
        decreases b - k,
    {
        assert(w[k - a] == s@[k as int]);
        assert(w[k - a - 1] == s@[k - 1]);
        if separator(s[k]).is_some() && separator(s[k - 1]).is_some() {
            return false;
        }
        k = k + 1;
    }
    true
}

/// Whether `[a, b)` is a chain prefix.
fn is_chain_prefix(s: &Vec<char>, a: usize, b: usize) -> (r: bool)
    requires
        a <= b <= s.len(),
    ensures
        r == chain_prefix(s@.subrange(a as int, b as int)),
{
    if !no_empty_pieces(s, a, b) {
        return false;
    }
    assert(s@.subrange(a as int, b as int).last() == s@[b - 1]);
    separator(s[b - 1]).is_some()
}

/// Whether `[a, b)` is a chained word.
pub(crate) fn is_chain_word(s: &Vec<char>, a: usize, b: usize) -> (r: bool)
    requires
        a <= b <= s.len(),
    ensures
        r == chain_word(s@.subrange(a as int, b as int)),
{
    if !no_empty_pieces(s, a, b) {
        return false;
    }
    assert(s@.subrange(a as int, b as int).last() == s@[b - 1]);
    separator(s[b - 1]).is_none() && !none_separating(s, a, b)
}

proof fn lemma_separator_count_bound(w: Seq<char>)
    ensures
        0 <= separator_count(w) <= w.len(),
    decreases w.len(),
{
    if w.len() > 0 {
        lemma_separator_count_bound(w.drop_last());
    }
}

/// The number of separators in `[a, b)`.
fn count_separators(s: &Vec<char>, a: usize, b: usize) -> (n: usize)
    requires
        a <= b <= s.len(),
    ensures
        n == separator_count(s@.subrange(a as int, b as int)),
{
    let mut n: usize = 0;
    let mut k = a;
    assert(s@.subrange(a as int, a as int) =~= Seq::<char>::empty());
    while k < b
        invariant
            a <= k <= b <= s.len(),
            n == separator_count(s@.subrange(a as int, k as int)),
            n <= k - a,
        decreases b - k,
    {
        assert(s@.subrange(a as int, k + 1).drop_last() =~= s@.subrange(a as int, k as int));
        assert(s@.subrange(a as int, k + 1).last() == s@[k as int]);
        if separator(s[k]).is_some() {
            n = n + 1;
        }
        k = k + 1;
    }
    n
}

/// The first separator index in `[a, b)`, or `b`.
pub(crate) fn find_first_separator(s: &Vec<char>, a: usize, b: usize) -> (m: usize)
    requires
        a <= b <= s.len(),
    ensures
        m == first_separator(s@, a as int, b as int),
        a <= m <= b,
        m < b ==> is_separator(s@[m as int]),
{
    let mut k = a;
    while k < b && separator(s[k]).is_none()
        invariant
            a <= k <= b <= s.len(),
            first_separator(s@, a as int, b as int) == first_separator(s@, k as int, b as int),
        decreases b - k,
    {
        k = k + 1;
    }
    k
}

/// The last separator index in `[a, b)`, when there is one.
fn find_last_separator(s: &Vec<char>, a: usize, b: usize) -> (l: usize)
    requires
        a <= b <= s.len(),
        !no_separator(s@.subrange(a as int, b as int)),
    ensures
        l == last_separator(s@, a as int, b as int),
        a <= l < b,
        is_separator(s@[l as int]),
{
    let ghost w = s@.subrange(a as int, b as int);
    let mut k = b;
    while k > a && separator(s[k - 1]).is_none()
        invariant
            a <= k <= b <= s.len(),
            w == s@.subrange(a as int, b as int),
            last_separator(s@, a as int, b as int) == last_separator(s@, a as int, k as int),
            forall|j: int| k <= j < b ==> !is_separator(#[trigger] s@[j]),
        decreases k - a,
    {
        k = k - 1;
    }
    if k == a {
        assert forall|j: int| 0 <= j < w.len() implies !is_separator(#[trigger] w[j]) by {
            assert(w[j] == s@[a + j]);
        }
        assert(false);
    }
    k - 1
}

/// A situation with no parts, at the glyph indices `[a, b)`.
fn leaf_at(o: &Vec<i64>, a: usize, b: usize) -> (at: Situation)
    requires
        a <= b < o.len(),
    ensures
        at.extent == Extent(o@[a as int], o@[b as int]),
        at.children@.len() == 0,
        at@ == (SpecSituation { extent: (o@[a as int] as int, o@[b as int] as int), children: Seq::empty() }),
{
    let at = Situation { extent: Extent(o[a], o[b]), children: Vec::new() };
    assert(situations_view(at.children@) =~= Seq::<SpecSituation>::empty());
    at
}

/// The view of a pair of situations.
proof fn lemma_situations_pair(x: Situation, y: Situation)
    ensures
        situations_view(seq![x, y]) == seq![x@, y@],
{
    let s = seq![x, y];
    assert(s.drop_first() =~= seq![y]);
    assert(seq![y].drop_first() =~= Seq::<Situation>::empty());
    assert(situations_view(Seq::<Situation>::empty()) =~= Seq::<SpecSituation>::empty());
    assert(situations_view(seq![y]) =~= seq![y@]);
    assert(situations_view(s) =~= seq![x@, y@]);
}

/// The chain of heads in `[a, b)`, ending in `body`.
fn build_chain(
    s: &Vec<char>,
    o: &Vec<i64>,
    a: usize,
    b: usize,
    body: Protoform,
    body_at: Situation,
    end: usize,
) -> (r: (Protoform, Situation))
    requires
        a <= b <= s.len(),
        end <= s.len(),
        offsets_of(s@, o@),
    ensures
        (r.0@, r.1@) == chain(s@, a as int, b as int, body@, body_at@, end as int),
    decreases b - a,
{
    if a >= b {
        return (body, body_at);
    }
    let m = find_first_separator(s, a, b);
    if m >= b {
        return (body, body_at);
    }
    let inner = build_chain(s, o, m + 1, b, body, body_at, end);
    let head = substring(s, a, m);
    let sep = separator(s[m]).unwrap();
    let head_at = leaf_at(o, a, m);
    let ghost inner_at = inner.1;
    let at = Situation { extent: Extent(o[a], o[end]), children: vec![head_at, inner.1] };
    proof {
        lemma_situations_pair(head_at, inner_at);
        assert(at.children@ =~= seq![head_at, inner_at]);
    }
    (Protoform::Headed(head, sep, Box::new(inner.0)), at)
}

/// Opaque content from `i`, with escapes resolved, and the index after its closer.
fn read_opaque(s: &Vec<char>, i: usize, b: Boundary) -> (r: Option<(Vec<char>, usize)>)
    requires
        i <= s.len(),
    ensures
        match r {
            Some((c, e)) => opaque(s@, i as int, b, 0, Seq::empty()) == Some((c@, e as int)) && i
                < e <= s.len(),
            None => opaque(s@, i as int, b, 0, Seq::empty()) is None,
        },
{
    let opener = boundary_glyph_open(b);
    let closer = boundary_glyph_close(b);
    let mut acc: Vec<char> = Vec::new();
    let mut depth: usize = 0;
    let mut k = i;
    while k < s.len()
        invariant
            i <= k <= s.len(),
            depth <= k,
            opener == boundary_opener(b),
            closer == boundary_closer(b),
            opaque(s@, i as int, b, 0, Seq::empty()) == opaque(s@, k as int, b, depth as int, acc@),
        decreases s.len() - k,
    {
        let c = s[k];
        if c == '\\' {
            if k + 1 < s.len() {
                acc.push(s[k + 1]);
                k = k + 2;
            } else {
                return None;
            }
        } else if c == closer {
            if depth == 0 {
                return Some((acc, k + 1));
            }
            depth = depth - 1;
            acc.push(c);
            k = k + 1;
        } else if c == opener {
            depth = depth + 1;
            acc.push(c);
            k = k + 1;
        } else {
            acc.push(c);
            k = k + 1;
        }
    }
    None
}

/// Whether an executable reading agrees with the reader's definition of a form.
pub open spec fn form_agrees(
    r: Result<(Protoform, Situation, usize), StructuralFault>,
    x: Result<(SpecForm, SpecSituation, int), StructuralFault>,
) -> bool {
    match r {
        Ok((f, at, e)) => x == Ok::<_, StructuralFault>((f@, at@, e as int)),
        Err(flt) => x == Err::<(SpecForm, SpecSituation, int), _>(flt),
    }
}

/// Whether an executable reading agrees with the reader's definition of items.
pub open spec fn items_agree(
    r: Result<(Vec<Protoform>, Vec<Situation>, usize), StructuralFault>,
    x: Result<(Seq<SpecForm>, Seq<SpecSituation>, int), StructuralFault>,
) -> bool {
    match r {
        Ok((fs, ats, e)) => x == Ok::<_, StructuralFault>(
            (forms_view(fs@), situations_view(ats@), e as int),
        ),
        Err(flt) => x == Err::<(Seq<SpecForm>, Seq<SpecSituation>, int), _>(flt),
    }
}

/// Items read so far, followed by the items still to read.
pub open spec fn glue(
    fs: Seq<SpecForm>,
    ats: Seq<SpecSituation>,
    x: Result<(Seq<SpecForm>, Seq<SpecSituation>, int), StructuralFault>,
) -> Result<(Seq<SpecForm>, Seq<SpecSituation>, int), StructuralFault> {
    match x {
        Ok((a, b, e)) => Ok((fs + a, ats + b, e)),
        Err(f) => Err(f),
    }
}

/// A structural fault between two glyph indices.
fn fault(o: &Vec<i64>, a: usize, b: usize, p: StructuralProblem) -> (f: StructuralFault)
    requires
        a < o.len(),
        b < o.len(),
    ensures
        f == (StructuralFault { extent: Extent(o@[a as int], o@[b as int]), problem: p }),
{
    StructuralFault { extent: Extent(o[a], o[b]), problem: p }
}

proof fn lemma_span(s: Seq<char>, o: Seq<i64>, a: int, b: int)
    requires
        offsets_of(s, o),
        0 <= a <= s.len(),
        0 <= b <= s.len(),
    ensures
        span(s, a, b) == Extent(o[a], o[b]),
{
}

pub proof fn lemma_forms_push(fs: Seq<Protoform>, f: Protoform)
    ensures
        forms_view(fs.push(f)) == forms_view(fs).push(f@),
    decreases fs.len(),
{
    if fs.len() == 0 {
        assert(fs.push(f).drop_first() =~= Seq::<Protoform>::empty());
        assert(forms_view(Seq::<Protoform>::empty()) =~= Seq::<SpecForm>::empty());
        assert(fs.push(f)[0] == f);
        assert(forms_view(fs.push(f)) == seq![f@] + forms_view(Seq::<Protoform>::empty()));
        assert(forms_view(fs.push(f)) =~= forms_view(fs).push(f@));
    } else {
        lemma_forms_push(fs.drop_first(), f);
        assert(fs.push(f).drop_first() =~= fs.drop_first().push(f));
        assert(fs.push(f)[0] == fs[0]);
        assert(forms_view(fs.push(f)) == seq![fs[0]@] + forms_view(fs.drop_first().push(f)));
        assert(forms_view(fs) == seq![fs[0]@] + forms_view(fs.drop_first()));
        assert(forms_view(fs.push(f)) =~= forms_view(fs).push(f@));
    }
}

pub proof fn lemma_situations_push(fs: Seq<Situation>, f: Situation)
    ensures
        situations_view(fs.push(f)) == situations_view(fs).push(f@),
    decreases fs.len(),
{
    if fs.len() == 0 {
        assert(fs.push(f).drop_first() =~= Seq::<Situation>::empty());
        assert(situations_view(Seq::<Situation>::empty()) =~= Seq::<SpecSituation>::empty());
        assert(fs.push(f)[0] == f);
        assert(situations_view(fs.push(f)) == seq![f@] + situations_view(Seq::<Situation>::empty()));
        assert(situations_view(fs.push(f)) =~= situations_view(fs).push(f@));
    } else {
        lemma_situations_push(fs.drop_first(), f);
        assert(fs.push(f).drop_first() =~= fs.drop_first().push(f));
        assert(fs.push(f)[0] == fs[0]);
        assert(situations_view(fs.push(f)) == seq![fs[0]@] + situations_view(fs.drop_first().push(f)));
        assert(situations_view(fs) == seq![fs[0]@] + situations_view(fs.drop_first()));
        assert(situations_view(fs.push(f)) =~= situations_view(fs).push(f@));
    }
}

/// The forms from `i` up to the closer of `close`, or to the end of the text.
fn read_items(
    s: &Vec<char>,
    o: &Vec<i64>,
    i: usize,
    close: Option<Enclosure>,
    open_at: usize,
    depth: usize,
) -> (r: Result<(Vec<Protoform>, Vec<Situation>, usize), StructuralFault>)
    requires
        i <= s.len(),
        open_at <= s.len(),
        offsets_of(s@, o@),
        s.len() <= usize::MAX / 8,
        depth <= MAX_DEPTH + 1,
    ensures
        items_agree(r, items(s@, i as int, close, open_at as int, depth as int)),
        r matches Ok((_, _, e)) ==> e <= s.len(),
    decreases s.len() - i, 2int,
{
    let mut fs: Vec<Protoform> = Vec::new();
    let mut ats: Vec<Situation> = Vec::new();
    let mut k = i;
    proof {
        assert(forms_view(fs@) =~= Seq::<SpecForm>::empty());
        assert(situations_view(ats@) =~= Seq::<SpecSituation>::empty());
        let x = items(s@, i as int, close, open_at as int, depth as int);
        assert(glue(Seq::empty(), Seq::empty(), x) =~= x) by {
            match x {
                Ok((a, b, e)) => {
                    assert(Seq::<SpecForm>::empty() + a =~= a);
                    assert(Seq::<SpecSituation>::empty() + b =~= b);
                },
                Err(_) => {},
            }
        }
    }
    loop
        invariant
            i <= k <= s.len(),
            open_at <= s.len(),
            offsets_of(s@, o@),
            s.len() <= usize::MAX / 8,
            depth <= MAX_DEPTH + 1,
            items(s@, i as int, close, open_at as int, depth as int) == glue(
                forms_view(fs@),
                situations_view(ats@),
                items(s@, k as int, close, open_at as int, depth as int),
            ),
        decreases s.len() - k,
    {
        let j = skip(s, k);
        proof {
            reveal(items);
            reveal(form);
            reveal(run);
        }
        if j == s.len() {
            match close {
                None => {
                    assert(forms_view(fs@) + Seq::<SpecForm>::empty() =~= forms_view(fs@));
                    assert(situations_view(ats@) + Seq::<SpecSituation>::empty() =~= situations_view(ats@));
                    return Ok((fs, ats, j));
                },
                Some(e) => {
                    proof {
                        lemma_span(s@, o@, open_at as int, s.len() as int);
                    }
                    return Err(fault(o, open_at, s.len(), StructuralProblem::Unclosed(e)));
                },
            }
        }
        if let Some(e2) = closed_enclosure(s[j]) {
            if close == Some(e2) {
                assert(forms_view(fs@) + Seq::<SpecForm>::empty() =~= forms_view(fs@));
                assert(situations_view(ats@) + Seq::<SpecSituation>::empty() =~= situations_view(ats@));
                return Ok((fs, ats, j + 1));
            } else {
                proof {
                    lemma_span(s@, o@, j as int, j + 1);
                }
                return Err(fault(o, j, j + 1, StructuralProblem::Unopened(e2)));
            }
        }
        if let Some(b) = closed_boundary(s[j]) {
            proof {
                lemma_span(s@, o@, j as int, j + 1);
            }
            return Err(fault(o, j, j + 1, StructuralProblem::Stray(b)));
        }
        match read_form(s, o, j, depth) {
            Err(f) => {
                return Err(f);
            },
            Ok((f, at, k2)) => {
                if k2 <= j || k2 > s.len() {
                    proof {
                        lemma_span(s@, o@, j as int, j as int);
                    }
                    return Err(fault(o, j, j, StructuralProblem::Depth));
                }
                let ghost before_fs = forms_view(fs@);
                let ghost before_ats = situations_view(ats@);
                let ghost fv = f@;
                let ghost atv = at@;
                proof {
                    lemma_forms_push(fs@, f);
                    lemma_situations_push(ats@, at);
                }
                fs.push(f);
                ats.push(at);
                proof {
                    let rest = items(s@, k2 as int, close, open_at as int, depth as int);
                    match rest {
                        Ok((a, bb, e)) => {
                            assert(before_fs + (seq![fv] + a) =~= before_fs.push(fv) + a);
                            assert(before_ats + (seq![atv] + bb) =~= before_ats.push(atv) + bb);
                        },
                        Err(_) => {},
                    }
                }
                k = k2;
            },
        }
    }
}

/// The form starting at `i`.
fn read_form(s: &Vec<char>, o: &Vec<i64>, i: usize, depth: usize) -> (r: Result<
    (Protoform, Situation, usize),
    StructuralFault,
>)
    requires
        i < s.len(),
        offsets_of(s@, o@),
        s.len() <= usize::MAX / 8,
        depth <= MAX_DEPTH + 1,
    ensures
        form_agrees(r, form(s@, i as int, depth as int)),
        r matches Ok((_, _, e)) ==> e <= s.len(),
    decreases s.len() - i, 1int,
{
    proof {
        reveal(form);
        reveal(items);
        reveal(run);
    }
    if depth > MAX_DEPTH {
        proof {
            lemma_span(s@, o@, i as int, i + 1);
        }
        return Err(fault(o, i, i + 1, StructuralProblem::Depth));
    }
    if let Some(e) = opened_enclosure(s[i]) {
        match read_items(s, o, i + 1, Some(e), i, depth + 1) {
            Err(f) => Err(f),
            Ok((fs, ats, end)) => {
                let at = Situation { extent: Extent(o[i], o[end]), children: ats };
                Ok((Protoform::Enclosed(e, fs), at, end))
            },
        }
    } else if let Some(b) = opened_boundary(s[i]) {
        match read_opaque(s, i + 1, b) {
            None => {
                proof {
                    lemma_span(s@, o@, i as int, s.len() as int);
                }
                Err(fault(o, i, s.len(), StructuralProblem::Unterminated(b)))
            },
            Some((c, end)) => {
                let content = string_of(c.as_slice());
                Ok((Protoform::Opaque(b, content), leaf_at(o, i, end), end))
            },
        }
    } else if wordy(s[i]) {
        read_run(s, o, i, depth)
    } else {
        proof {
            lemma_span(s@, o@, i as int, i as int);
        }
        Err(fault(o, i, i, StructuralProblem::Depth))
    }
}

/// The form of the bare run starting at `i`.
fn read_run(s: &Vec<char>, o: &Vec<i64>, i: usize, depth: usize) -> (r: Result<
    (Protoform, Situation, usize),
    StructuralFault,
>)
    requires
        i < s.len(),
        is_wordy(s@[i as int]),
        offsets_of(s@, o@),
        s.len() <= usize::MAX / 8,
        depth <= MAX_DEPTH,
    ensures
        form_agrees(r, run(s@, i as int, depth as int)),
        r matches Ok((_, _, e)) ==> e <= s.len(),
    decreases s.len() - i, 0int,
{
    proof {
        reveal(run);
        reveal(form);
        reveal(items);
    }
    let r = end_of_run(s, i);
    if r < s.len() && s[r] == '<' && none_separating(s, i, r) {
        match read_items(s, o, r + 1, Some(Enclosure::Angled), r, depth + 1) {
            Err(f) => Err(f),
            Ok((cs, ats, k)) => {
                if k <= r || k > s.len() {
                    proof {
                        lemma_span(s@, o@, i as int, i as int);
                    }
                    return Err(fault(o, i, i, StructuralProblem::Depth));
                }
                let params = Situation { extent: Extent(o[i], o[k]), children: ats };
                let head = substring(s, i, r);
                if k + 1 < s.len() && separator(s[k]).is_some() && (wordy(s[k + 1])
                    || opened_enclosure(s[k + 1]).is_some() || opened_boundary(s[k + 1]).is_some()) {
                    match read_form(s, o, k + 1, depth + 1) {
                        Err(f) => Err(f),
                        Ok((body, body_at, end)) => {
                            let sep = separator(s[k]).unwrap();
                            let ghost pv = params@;
                            let ghost bv = body_at@;
                            let at = Situation {
                                extent: Extent(o[i], o[end]),
                                children: vec![params, body_at],
                            };
                            proof {
                                assert(at.children@ =~= seq![params, body_at]);
                                lemma_situations_pair(params, body_at);
                            }
                            Ok((Protoform::QualifiedHeaded(head, cs, sep, Box::new(body)), at, end))
                        },
                    }
                } else {
                    Ok((Protoform::Qualified(head, cs), params, k))
                }
            },
        }
    } else if r < s.len() && (opened_enclosure(s[r]).is_some() || opened_boundary(s[r]).is_some())
        && is_chain_prefix(s, i, r) {
        let n = count_separators(s, i, r);
        proof {
            lemma_separator_count_bound(s@.subrange(i as int, r as int));
        }
        if depth + n > MAX_DEPTH {
            proof {
                lemma_span(s@, o@, i as int, r as int);
            }
            return Err(fault(o, i, r, StructuralProblem::Depth));
        }
        match read_form(s, o, r, depth + n) {
            Err(f) => Err(f),
            Ok((body, body_at, end)) => {
                let c = build_chain(s, o, i, r, body, body_at, end);
                Ok((c.0, c.1, end))
            },
        }
    } else if is_chain_word(s, i, r) {
        let n = count_separators(s, i, r);
        proof {
            lemma_separator_count_bound(s@.subrange(i as int, r as int));
        }
        if depth + n > MAX_DEPTH {
            proof {
                lemma_span(s@, o@, i as int, r as int);
            }
            return Err(fault(o, i, r, StructuralProblem::Depth));
        }
        let l = find_last_separator(s, i, r);
        let word = substring(s, l + 1, r);
        let c = build_chain(s, o, i, l + 1, Protoform::Bare(word), leaf_at(o, l + 1, r), r);
        Ok((c.0, c.1, r))
    } else {
        let word = substring(s, i, r);
        Ok((Protoform::Bare(word), leaf_at(o, i, r), r))
    }
}

/// The structures of a text, with their situations, in order.
#[derive(Debug)]
pub struct Delineation {
    /// The top-level structures.
    pub forms: Vec<Protoform>,
    /// Where each structure is.
    pub situations: Vec<Situation>,
}

/// The structure of a text: its top-level forms and where each is.
pub fn delineate(text: &str) -> (r: Result<Delineation, StructuralFault>)
    requires
        text@.len() <= usize::MAX / 8,
    ensures
        match r {
            Ok(d) => delineated(text@) == Ok::<_, StructuralFault>(
                (forms_view(d.forms@), situations_view(d.situations@)),
            ),
            Err(f) => delineated(text@) == Err::<(Seq<SpecForm>, Seq<SpecSituation>), _>(f),
        },
{
    let s = chars_of(text);
    let o = byte_offsets(&s);
    match read_items(&s, &o, 0, None, 0, 0) {
        Err(f) => Err(f),
        Ok((forms, situations, _)) => Ok(Delineation { forms, situations }),
    }
}

} // verus!

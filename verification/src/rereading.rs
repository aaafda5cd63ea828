//! Reading what was written: the reader gives back every well-formed protoform
//! from its canonical text.

use vstd::prelude::*;

use crate::form::{SpecForm, SpecSituation};
use crate::glyph::{
    boundary_closed, boundary_closer, boundary_opened, boundary_opener, closer_of,
    enclosure_closed, enclosure_opened, is_delimiter, is_plain, is_space, is_wordy, opener_of,
    separator_glyph, separator_of, Boundary, Enclosure, Separator,
};
use crate::reader::{
    chain, chain_prefix, chain_word, delineated, first_separator, form, is_separator, items,
    last_separator, lemma_form_enclosed, lemma_form_opaque, lemma_form_run, lemma_items_closes,
    lemma_items_ends, lemma_items_step, lemma_run_bare, lemma_run_body_chain,
    lemma_run_word_chain, no_empty_piece, no_separator, opaque, opens_body, run, run_end,
    separator_count, skip_trivia, starts_form, MAX_DEPTH,
};
use crate::writer::{balanced, escape, escaped, nesting, needs_escape, snug, written, written_all};

verus! {

/// A symbol: a non-empty run of plain glyphs.
pub open spec fn plain_symbol(w: Seq<char>) -> bool {
    w.len() > 0 && forall|j: int| 0 <= j < w.len() ==> is_plain(#[trigger] w[j])
}

/// A bare word that reads back as itself: word glyphs that do not form a chain.
pub open spec fn bare_word(w: Seq<char>) -> bool {
    w.len() > 0 && (forall|j: int| 0 <= j < w.len() ==> is_wordy(#[trigger] w[j])) && !chain_word(w)
}

/// What may follow a head and its separator.
pub open spec fn headed_body(b: SpecForm) -> bool {
    match b {
        SpecForm::Bare(w) => plain_symbol(w),
        SpecForm::Headed(..) => true,
        SpecForm::Enclosed(..) => true,
        SpecForm::Opaque(..) => true,
        _ => false,
    }
}

/// A protoform that the reader gives back from its canonical text, at a nesting depth.
pub open spec fn well_formed(f: SpecForm, depth: int) -> bool
    decreases f,
{
    0 <= depth <= MAX_DEPTH && match f {
        SpecForm::Bare(w) => bare_word(w),
        SpecForm::Headed(h, _, b) => plain_symbol(h) && headed_body(*b) && well_formed(
            *b,
            depth + 1,
        ),
        SpecForm::Enclosed(_, cs) => all_well_formed(cs, depth + 1),
        SpecForm::Opaque(..) => true,
        _ => false,
    }
}

/// Protoforms that are all well formed at a depth.
pub open spec fn all_well_formed(cs: Seq<SpecForm>, depth: int) -> bool
    decreases cs,
{
    if cs.len() == 0 {
        true
    } else {
        well_formed(cs[0], depth) && all_well_formed(cs.drop_first(), depth)
    }
}

/// Each protoform preceded by one space.
pub open spec fn spaced(cs: Seq<SpecForm>) -> Seq<char>
    decreases cs.len(),
{
    if cs.len() == 0 {
        Seq::empty()
    } else {
        seq![' '] + written(cs[0]) + spaced(cs.drop_first())
    }
}

/// What may follow a written form without joining it: nothing, a space, or a closer.
pub open spec fn ends_form(q: Seq<char>) -> bool {
    q.len() == 0 || is_space(q[0]) || enclosure_closed(q[0]) is Some
}

/// The heads of a chain, each with its separator.
pub open spec fn heads_text(f: SpecForm) -> Seq<char>
    decreases f,
{
    match f {
        SpecForm::Headed(h, s, b) => h.push(separator_glyph(s)) + heads_text(*b),
        _ => Seq::empty(),
    }
}

/// The body that ends a chain.
pub open spec fn final_body(f: SpecForm) -> SpecForm
    decreases f,
{
    match f {
        SpecForm::Headed(_, _, b) => final_body(*b),
        _ => f,
    }
}

/// The number of heads in a chain.
pub open spec fn head_count(f: SpecForm) -> nat
    decreases f,
{
    match f {
        SpecForm::Headed(_, _, b) => 1 + head_count(*b),
        _ => 0,
    }
}

/// The run end over a segment of word glyphs followed by a glyph outside any run.
proof fn lemma_run_end(s: Seq<char>, i: int, n: int)
    requires
        0 <= i,
        0 <= n,
        i + n <= s.len(),
        forall|j: int| i <= j < i + n ==> is_wordy(#[trigger] s[j]),
        i + n == s.len() || !is_wordy(s[i + n]),
    ensures
        run_end(s, i) == i + n,
    decreases n,
{
    if n > 0 {
        lemma_run_end(s, i + 1, n - 1);
    }
}

/// The first separator after a symbol is the glyph right after it.
proof fn lemma_first_separator(s: Seq<char>, a: int, n: int, b: int)
    requires
        0 <= a,
        0 <= n,
        a + n < b <= s.len(),
        forall|j: int| a <= j < a + n ==> is_plain(#[trigger] s[j]),
        is_separator(s[a + n]),
    ensures
        first_separator(s, a, b) == a + n,
    decreases n,
{
    if n > 0 {
        lemma_first_separator(s, a + 1, n - 1, b);
    }
}

/// The last separator before a symbol is the glyph right before it.
proof fn lemma_last_separator(s: Seq<char>, a: int, l: int, b: int)
    requires
        0 <= a <= l < b <= s.len(),
        forall|j: int| l < j < b ==> is_plain(#[trigger] s[j]),
        is_separator(s[l]),
    ensures
        last_separator(s, a, b) == l,
    decreases b - l,
{
    if b - 1 > l {
        lemma_last_separator(s, a, l, b - 1);
    }
}

/// A written well-formed protoform starts with a glyph that begins a form.
proof fn lemma_written_start(f: SpecForm, depth: int)
    requires
        well_formed(f, depth),
    ensures
        written(f).len() > 0,
        !is_space(written(f)[0]),
        written(f)[0] != ';',
        enclosure_closed(written(f)[0]) is None,
        boundary_closed(written(f)[0]) is None,
        starts_form(written(f)[0]),
{
    match f {
        SpecForm::Bare(w) => {
            assert(is_wordy(w[0]));
        },
        SpecForm::Headed(h, s, b) => {
            assert(is_plain(h[0]));
            assert(written(f)[0] == h[0]);
        },
        SpecForm::Enclosed(e, cs) => {
            assert(written(f)[0] == opener_of(e));
        },
        SpecForm::Opaque(b, c) => {
            assert(written(f)[0] == boundary_opener(b));
        },
        _ => {},
    }
}

/// Balanced opaque content reads back from its escaped text.
proof fn lemma_opaque_balanced(
    p: Seq<char>,
    c: Seq<char>,
    b: Boundary,
    d: int,
    acc: Seq<char>,
    q: Seq<char>,
)
    requires
        d >= 0,
        nesting(c, b, d) == Some(0int),
    ensures
        opaque(p + escape(c, b, false) + seq![boundary_closer(b)] + q, p.len() as int, b, d, acc)
            == Some((acc + c, (p.len() + escape(c, b, false).len() + 1) as int)),
    decreases c.len(),
{
    let s = p + escape(c, b, false) + seq![boundary_closer(b)] + q;
    let i = p.len() as int;
    if c.len() == 0 {
        assert(escape(c, b, false) =~= Seq::<char>::empty());
        assert(s[i] == boundary_closer(b));
        assert(acc + c =~= acc);
    } else {
        let x = c[0];
        let rest = c.drop_first();
        let head = if needs_escape(x, b, false) {
            seq!['\\', x]
        } else {
            seq![x]
        };
        assert(escape(c, b, false) == head + escape(rest, b, false));
        assert(s =~= (p + head) + escape(rest, b, false) + seq![boundary_closer(b)] + q);
        assert(acc.push(x) + rest =~= acc + c);
        if x == '\\' {
            assert(s[i] == '\\' && s[i + 1] == '\\');
            lemma_opaque_balanced(p + head, rest, b, d, acc.push(x), q);
        } else if x == boundary_closer(b) {
            assert(s[i] == x);
            lemma_opaque_balanced(p + head, rest, b, d - 1, acc.push(x), q);
        } else if x == boundary_opener(b) {
            assert(s[i] == x);
            lemma_opaque_balanced(p + head, rest, b, d + 1, acc.push(x), q);
        } else {
            assert(s[i] == x);
            lemma_opaque_balanced(p + head, rest, b, d, acc.push(x), q);
        }
    }
}

/// Fully escaped opaque content reads back from its text.
proof fn lemma_opaque_escaped(p: Seq<char>, c: Seq<char>, b: Boundary, acc: Seq<char>, q: Seq<char>)
    ensures
        opaque(p + escape(c, b, true) + seq![boundary_closer(b)] + q, p.len() as int, b, 0, acc)
            == Some((acc + c, (p.len() + escape(c, b, true).len() + 1) as int)),
    decreases c.len(),
{
    let s = p + escape(c, b, true) + seq![boundary_closer(b)] + q;
    let i = p.len() as int;
    if c.len() == 0 {
        assert(escape(c, b, true) =~= Seq::<char>::empty());
        assert(s[i] == boundary_closer(b));
        assert(acc + c =~= acc);
    } else {
        let x = c[0];
        let rest = c.drop_first();
        let head = if needs_escape(x, b, true) {
            seq!['\\', x]
        } else {
            seq![x]
        };
        assert(escape(c, b, true) == head + escape(rest, b, true));
        assert(s =~= (p + head) + escape(rest, b, true) + seq![boundary_closer(b)] + q);
        assert(acc.push(x) + rest =~= acc + c);
        if needs_escape(x, b, true) {
            assert(s[i] == '\\' && s[i + 1] == x);
        } else {
            assert(s[i] == x);
        }
        lemma_opaque_escaped(p + head, rest, b, acc.push(x), q);
    }
}

/// Opaque content reads back from its written text.
proof fn lemma_opaque_written(p: Seq<char>, b: Boundary, c: Seq<char>, q: Seq<char>)
    ensures
        opaque(
            p + seq![boundary_opener(b)] + escaped(b, c) + seq![boundary_closer(b)] + q,
            (p.len() + 1) as int,
            b,
            0,
            Seq::empty(),
        ) == Some((c, (p.len() + 1 + escaped(b, c).len() + 1) as int)),
{
    let p1 = p + seq![boundary_opener(b)];
    assert(p + seq![boundary_opener(b)] + escaped(b, c) + seq![boundary_closer(b)] + q == p1
        + escaped(b, c) + seq![boundary_closer(b)] + q);
    assert(Seq::<char>::empty() + c =~= c);
    if balanced(c, b) {
        lemma_opaque_balanced(p1, c, b, 0, Seq::empty(), q);
    } else {
        lemma_opaque_escaped(p1, c, b, Seq::empty(), q);
    }
}

/// The size of a protoform: one for each node.
pub open spec fn size(f: SpecForm) -> nat
    decreases f,
{
    match f {
        SpecForm::Headed(_, _, b) => 1 + size(*b),
        SpecForm::Enclosed(_, cs) => 1 + sizes(cs),
        _ => 1,
    }
}

/// The size of protoforms.
pub open spec fn sizes(cs: Seq<SpecForm>) -> nat
    decreases cs,
{
    if cs.len() == 0 {
        0
    } else {
        size(cs[0]) + sizes(cs.drop_first()) + 1
    }
}

/// A chain is written as its heads, then its final body.
proof fn lemma_written_heads(f: SpecForm)
    ensures
        written(f) == heads_text(f) + written(final_body(f)),
        size(final_body(f)) <= size(f),
        f is Headed ==> size(final_body(f)) < size(f),
    decreases f,
{
    match f {
        SpecForm::Headed(h, s, b) => {
            lemma_written_heads(*b);
            assert(written(f) =~= heads_text(f) + written(final_body(f)));
        },
        _ => {
            assert(heads_text(f) + written(f) =~= written(f));
        },
    }
}

/// Separators count over concatenation.
proof fn lemma_separator_count_concat(x: Seq<char>, y: Seq<char>)
    ensures
        separator_count(x + y) == separator_count(x) + separator_count(y),
    decreases y.len(),
{
    if y.len() == 0 {
        assert(x + y =~= x);
    } else {
        lemma_separator_count_concat(x, y.drop_last());
        assert((x + y).drop_last() =~= x + y.drop_last());
        assert((x + y).last() == y.last());
    }
}

/// A symbol has no separator.
proof fn lemma_separator_count_plain(w: Seq<char>)
    requires
        forall|j: int| 0 <= j < w.len() ==> is_plain(#[trigger] w[j]),
    ensures
        separator_count(w) == 0,
    decreases w.len(),
{
    if w.len() > 0 {
        assert(forall|j: int| 0 <= j < w.drop_last().len() ==> is_plain(#[trigger] w.drop_last()[j])
            ==> true);
        assert forall|j: int| 0 <= j < w.drop_last().len() implies is_plain(
            #[trigger] w.drop_last()[j],
        ) by {
            assert(w.drop_last()[j] == w[j]);
        }
        lemma_separator_count_plain(w.drop_last());
        assert(is_plain(w[w.len() - 1]));
    }
}

/// What the heads of a well-formed chain look like.
proof fn lemma_chain_text(f: SpecForm, depth: int)
    requires
        well_formed(f, depth),
        f is Headed,
    ensures
        ({
            let t = heads_text(f);
            &&& t.len() > 0
            &&& is_plain(t[0])
            &&& is_separator(t.last())
            &&& forall|j: int| 0 <= j < t.len() ==> is_wordy(#[trigger] t[j])
            &&& forall|j: int|
                1 <= j < t.len() && is_separator(#[trigger] t[j]) ==> !is_separator(t[j - 1])
            &&& separator_count(t) == head_count(f)
        }),
        head_count(f) >= 1,
        well_formed(final_body(f), depth + head_count(f)),
        !(final_body(f) is Headed),
        headed_body(final_body(f)),
    decreases f,
{
    match f {
        SpecForm::Headed(h, sep, b) => {
            let g = separator_glyph(sep);
            let x = h.push(g);
            let t = heads_text(f);
            let tb = heads_text(*b);
            assert(t == x + tb);
            assert(separator_of(g) == Some(sep));
            lemma_separator_count_plain(h);
            assert(x.drop_last() =~= h);
            assert(separator_count(x) == 1);
            lemma_separator_count_concat(x, tb);
            if *b is Headed {
                lemma_chain_text(*b, depth + 1);
                assert(t.last() == tb.last());
                assert forall|j: int| 0 <= j < t.len() implies is_wordy(#[trigger] t[j]) by {
                    if j < h.len() {
                        assert(t[j] == h[j]);
                    } else if j == h.len() {
                        assert(t[j] == g);
                    } else {
                        assert(t[j] == tb[j - h.len() - 1]);
                    }
                }
                assert forall|j: int|
                    1 <= j < t.len() && is_separator(#[trigger] t[j]) implies !is_separator(
                    t[j - 1],
                ) by {
                    if j < h.len() {
                        assert(t[j] == h[j]);
                    } else if j == h.len() {
                        assert(t[j - 1] == h[j - 1]);
                    } else if j == h.len() + 1 {
                        assert(t[j] == tb[0]);
                    } else {
                        assert(t[j] == tb[j - h.len() - 1]);
                        assert(t[j - 1] == tb[j - h.len() - 2]);
                    }
                }
                assert(t[0] == h[0]);
            } else {
                assert(tb =~= Seq::<char>::empty());
                assert(head_count(*b) == 0);
                assert(separator_count(tb) == 0);
                assert(t =~= x);
                assert forall|j: int| 0 <= j < t.len() implies is_wordy(#[trigger] t[j]) by {
                    if j < h.len() {
                        assert(t[j] == h[j]);
                    }
                }
                assert forall|j: int|
                    1 <= j < t.len() && is_separator(#[trigger] t[j]) implies !is_separator(
                    t[j - 1],
                ) by {
                    if j < h.len() {
                        assert(t[j] == h[j]);
                    } else {
                        assert(t[j - 1] == h[j - 1]);
                    }
                }
                assert(t[0] == h[0]);
            }
        },
        _ => {},
    }
}

/// The reader's chain of heads rebuilds a chain from its heads and final body.
proof fn lemma_chain(s: Seq<char>, a: int, f: SpecForm, body_at: SpecSituation, end: int)
    requires
        0 <= a,
        a + heads_text(f).len() <= s.len(),
        s.subrange(a, a + heads_text(f).len()) == heads_text(f),
        chain_heads(f),
    ensures
        chain(s, a, a + heads_text(f).len(), final_body(f), body_at, end).0 == f,
    decreases f,
{
    match f {
        SpecForm::Headed(h, sep, b) => {
            let t = heads_text(f);
            let tb = heads_text(*b);
            let g = separator_glyph(sep);
            assert(t == h.push(g) + tb);
            let n = h.len() as int;
            let m = a + n;
            assert forall|j: int| a <= j < a + n implies is_plain(#[trigger] s[j]) by {
                assert(s[j] == s.subrange(a, a + t.len())[j - a]);
                assert(t[j - a] == h[j - a]);
            }
            assert(s[m] == s.subrange(a, a + t.len())[n]);
            assert(t[n] == g);
            assert(separator_of(g) == Some(sep));
            lemma_first_separator(s, a, n, a + t.len());
            assert(s.subrange(m + 1, m + 1 + tb.len()) =~= tb) by {
                assert forall|j: int| 0 <= j < tb.len() implies s.subrange(m + 1, m + 1 + tb.len())[j]
                    == tb[j] by {
                    assert(s[m + 1 + j] == s.subrange(a, a + t.len())[n + 1 + j]);
                    assert(t[n + 1 + j] == tb[j]);
                }
            }
            lemma_chain(s, m + 1, *b, body_at, end);
            assert(s.subrange(a, m) =~= h) by {
                assert forall|j: int| 0 <= j < n implies s.subrange(a, m)[j] == h[j] by {
                    assert(s[a + j] == s.subrange(a, a + t.len())[j]);
                    assert(t[j] == h[j]);
                }
            }
        },
        _ => {},
    }
}

/// Every head of a chain is a symbol.
pub open spec fn chain_heads(f: SpecForm) -> bool
    decreases f,
{
    match f {
        SpecForm::Headed(h, _, b) => plain_symbol(h) && chain_heads(*b),
        _ => true,
    }
}

proof fn lemma_well_formed_chain_heads(f: SpecForm, depth: int)
    requires
        well_formed(f, depth),
    ensures
        chain_heads(f),
    decreases f,
{
    if let SpecForm::Headed(_, _, b) = f {
        lemma_well_formed_chain_heads(*b, depth + 1);
    }
}

/// Non-empty protoforms, one space apart, are the protoforms each preceded by a space.
proof fn lemma_spaced(cs: Seq<SpecForm>)
    requires
        cs.len() > 0,
    ensures
        spaced(cs) == seq![' '] + written_all(cs),
    decreases cs.len(),
{
    if cs.len() == 1 {
        assert(cs.drop_first() =~= Seq::<SpecForm>::empty());
        assert(spaced(cs.drop_first()) =~= Seq::<char>::empty());
        assert(spaced(cs) =~= seq![' '] + written(cs[0]));
    } else {
        lemma_spaced(cs.drop_first());
        assert(spaced(cs) =~= seq![' '] + written_all(cs));
    }
}

/// A well-formed protoform reads back from its written text, whatever follows
/// it that cannot join it.
pub proof fn lemma_form_rereads(p: Seq<char>, f: SpecForm, q: Seq<char>, depth: int)
    requires
        well_formed(f, depth),
        ends_form(q),
    ensures
        form(p + written(f) + q, p.len() as int, depth) matches Ok((g, _, end)) && g == f && end
            == p.len() + written(f).len(),
    decreases size(f), 2nat,
{
    match f {
        SpecForm::Bare(x) => lemma_bare_rereads(p, x, q, depth),
        SpecForm::Opaque(b, c) => lemma_opaque_rereads(p, b, c, q, depth),
        SpecForm::Enclosed(e, cs) => lemma_enclosed_rereads(p, f, q, depth),
        SpecForm::Headed(..) => {
            lemma_written_heads(f);
            lemma_chain_text(f, depth);
            if final_body(f) is Bare {
                lemma_chain_bare_rereads(p, f, q, depth);
            } else {
                lemma_chain_body_rereads(p, f, q, depth);
            }
        },
        _ => {},
    }
}

proof fn lemma_bare_rereads(p: Seq<char>, x: Seq<char>, q: Seq<char>, depth: int)
    requires
        well_formed(SpecForm::Bare(x), depth),
        ends_form(q),
    ensures
        form(p + x + q, p.len() as int, depth) matches Ok((g, _, end)) && g == SpecForm::Bare(x)
            && end == p.len() + x.len(),
{
    let s = p + x + q;
    let i = p.len() as int;
    assert(written(SpecForm::Bare(x)) == x);
    assert forall|j: int| i <= j < i + x.len() implies is_wordy(#[trigger] s[j]) by {
        assert(s[j] == x[j - i]);
    }
    if q.len() > 0 {
        assert(s[i + x.len()] == q[0]);
    }
    lemma_run_end(s, i, x.len() as int);
    assert(s.subrange(i, i + x.len()) =~= x);
    lemma_form_run(s, i, depth);
    lemma_run_bare(s, i, depth);
}

proof fn lemma_opaque_rereads(p: Seq<char>, b: Boundary, c: Seq<char>, q: Seq<char>, depth: int)
    requires
        well_formed(SpecForm::Opaque(b, c), depth),
    ensures
        form(p + written(SpecForm::Opaque(b, c)) + q, p.len() as int, depth) matches Ok(
            (g, _, end),
        ) && g == SpecForm::Opaque(b, c) && end == p.len() + written(
            SpecForm::Opaque(b, c),
        ).len(),
{
    let s = p + written(SpecForm::Opaque(b, c)) + q;
    let i = p.len() as int;
    assert(s =~= p + seq![boundary_opener(b)] + escaped(b, c) + seq![boundary_closer(b)] + q);
    assert(s[i] == boundary_opener(b));
    lemma_opaque_written(p, b, c, q);
    lemma_form_opaque(s, i, depth, b, c, (p.len() + 1 + escaped(b, c).len() + 1) as int);
}

proof fn lemma_enclosed_rereads(p: Seq<char>, f: SpecForm, q: Seq<char>, depth: int)
    requires
        well_formed(f, depth),
        f is Enclosed,
    ensures
        form(p + written(f) + q, p.len() as int, depth) matches Ok((g, _, end)) && g == f && end
            == p.len() + written(f).len(),
    decreases size(f), 1nat,
{
    let e = f->Enclosed_0;
    let cs = f->Enclosed_1;
    let w = written(f);
    let s = p + w + q;
    let i = p.len() as int;
    let sp: Seq<char> = if cs.len() == 0 {
        Seq::empty()
    } else {
        seq![' ']
    };
    if cs.len() == 0 {
        assert(spaced(cs) =~= Seq::<char>::empty());
    } else {
        lemma_spaced(cs);
    }
    assert(w =~= seq![opener_of(e)] + spaced(cs) + sp + seq![closer_of(e)]);
    assert(s =~= (p + seq![opener_of(e)]) + spaced(cs) + sp + seq![closer_of(e)] + q);
    assert(s[i] == opener_of(e));
    lemma_items_reread(p + seq![opener_of(e)], cs, sp, e, q, i, depth + 1);
    let r = items(s, i + 1, Some(e), i, depth + 1)->Ok_0;
    lemma_form_enclosed(s, i, depth, e, r.0, r.1, r.2);
}

#[verifier::rlimit(50)]
proof fn lemma_chain_bare_rereads(p: Seq<char>, f: SpecForm, q: Seq<char>, depth: int)
    requires
        well_formed(f, depth),
        f is Headed,
        final_body(f) is Bare,
        ends_form(q),
        written(f) == heads_text(f) + written(final_body(f)),
        ({
            let t = heads_text(f);
            &&& t.len() > 0
            &&& is_plain(t[0])
            &&& is_separator(t.last())
            &&& forall|j: int| 0 <= j < t.len() ==> is_wordy(#[trigger] t[j])
            &&& forall|j: int|
                1 <= j < t.len() && is_separator(#[trigger] t[j]) ==> !is_separator(t[j - 1])
            &&& separator_count(t) == head_count(f)
        }),
        well_formed(final_body(f), depth + head_count(f)),
        headed_body(final_body(f)),
    ensures
        form(p + written(f) + q, p.len() as int, depth) matches Ok((g, _, end)) && g == f && end
            == p.len() + written(f).len(),
{
    lemma_well_formed_chain_heads(f, depth);
    let t = heads_text(f);
    let x = final_body(f)->Bare_0;
    let w = written(f);
    let s = p + w + q;
    let i = p.len() as int;
    let r = i + t.len() + x.len();
    let run_text = t + x;
    assert(w =~= run_text);
    assert(s.subrange(i, i + t.len()) =~= t);
    assert forall|j: int| i <= j < r implies is_wordy(#[trigger] s[j]) by {
        if j >= i + t.len() {
            assert(s[j] == x[j - i - t.len()]);
        } else {
            assert(s[j] == t[j - i]);
        }
    }
    if q.len() > 0 {
        assert(s[r] == q[0]);
    }
    lemma_run_end(s, i, r - i);
    assert(s.subrange(i, r) =~= run_text);
    assert(!no_separator(run_text)) by {
        assert(run_text[t.len() - 1] == t.last());
    }
    assert(no_empty_piece(run_text)) by {
        assert(run_text[0] == t[0]);
        assert forall|j: int|
            1 <= j < run_text.len() && is_separator(#[trigger] run_text[j]) implies !is_separator(
            run_text[j - 1],
        ) by {
            if j < t.len() {
                assert(run_text[j] == t[j]);
                assert(run_text[j - 1] == t[j - 1]);
            } else {
                assert(run_text[j] == x[j - t.len()]);
            }
        }
    }
    assert(run_text.last() == x.last());
    assert(chain_word(run_text));
    lemma_separator_count_plain(x);
    lemma_separator_count_concat(t, x);
    let l = i + t.len() - 1;
    assert(s[l] == t.last());
    assert forall|j: int| l < j < r implies is_plain(#[trigger] s[j]) by {
        assert(s[j] == x[j - i - t.len()]);
    }
    lemma_last_separator(s, i, l, r);
    assert(s.subrange(l + 1, r) =~= x);
    assert(s[i] == t[0]);
    lemma_form_run(s, i, depth);
    lemma_run_word_chain(s, i, depth);
    lemma_chain(s, i, f, crate::reader::leaf(s, l + 1, r), r);
}

#[verifier::rlimit(50)]
proof fn lemma_chain_body_rereads(p: Seq<char>, f: SpecForm, q: Seq<char>, depth: int)
    requires
        well_formed(f, depth),
        f is Headed,
        !(final_body(f) is Bare),
        !(final_body(f) is Headed),
        ends_form(q),
        written(f) == heads_text(f) + written(final_body(f)),
        size(final_body(f)) < size(f),
        ({
            let t = heads_text(f);
            &&& t.len() > 0
            &&& is_plain(t[0])
            &&& is_separator(t.last())
            &&& forall|j: int| 0 <= j < t.len() ==> is_wordy(#[trigger] t[j])
            &&& forall|j: int|
                1 <= j < t.len() && is_separator(#[trigger] t[j]) ==> !is_separator(t[j - 1])
            &&& separator_count(t) == head_count(f)
        }),
        well_formed(final_body(f), depth + head_count(f)),
        headed_body(final_body(f)),
    ensures
        form(p + written(f) + q, p.len() as int, depth) matches Ok((g, _, end)) && g == f && end
            == p.len() + written(f).len(),
    decreases size(f), 1nat,
{
    lemma_well_formed_chain_heads(f, depth);
    let t = heads_text(f);
    let body = final_body(f);
    let k = head_count(f);
    let wb = written(body);
    let w = written(f);
    let s = p + w + q;
    let i = p.len() as int;
    let r = i + t.len();
    assert(s.subrange(i, i + t.len()) =~= t);
    assert forall|j: int| i <= j < r implies is_wordy(#[trigger] s[j]) by {
        assert(s[j] == t[j - i]);
    }
    lemma_written_start(body, depth + k);
    assert(s[r] == wb[0]);
    lemma_run_end(s, i, t.len() as int);
    assert(no_empty_piece(t));
    assert(!no_separator(t)) by {
        assert(t[t.len() - 1] == t.last());
    }
    assert(opens_body(s[r]));
    assert(s =~= (p + t) + wb + q);
    lemma_form_rereads(p + t, body, q, depth + k);
    let res = form(s, r, depth + k)->Ok_0;
    assert(s[i] == t[0]);
    lemma_form_run(s, i, depth);
    lemma_run_body_chain(s, i, depth, res.0, res.1, res.2);
    lemma_chain(s, i, f, res.1, res.2);
}

/// Well-formed protoforms, each after a space, read back up to the closer that follows.
pub proof fn lemma_items_reread(
    p: Seq<char>,
    cs: Seq<SpecForm>,
    sp: Seq<char>,
    e: Enclosure,
    q: Seq<char>,
    open_at: int,
    depth: int,
)
    requires
        all_well_formed(cs, depth),
        sp == Seq::<char>::empty() || sp == seq![' '],
    ensures
        items(p + spaced(cs) + sp + seq![closer_of(e)] + q, p.len() as int, Some(e), open_at, depth)
            matches Ok((gs, _, end)) && gs == cs && end == p.len() + spaced(cs).len() + sp.len()
            + 1,
    decreases sizes(cs), 0nat,
{
    let s = p + spaced(cs) + sp + seq![closer_of(e)] + q;
    let i = p.len() as int;
    if cs.len() == 0 {
        assert(spaced(cs) =~= Seq::<char>::empty());
        if sp.len() == 1 {
            assert(s[i] == ' ');
            assert(s[i + 1] == closer_of(e));
            assert(skip_trivia(s, i + 1) == i + 1);
        } else {
            assert(s[i] == closer_of(e));
        }
        assert(skip_trivia(s, i) == i + sp.len());
        lemma_items_closes(s, i, e, open_at, depth);
        assert(Seq::<SpecForm>::empty() =~= cs);
    } else {
        let c = cs[0];
        let rest = cs.drop_first();
        let wc = written(c);
        lemma_written_start(c, depth);
        let q1 = spaced(rest) + sp + seq![closer_of(e)] + q;
        assert(s =~= (p + seq![' ']) + wc + q1);
        assert(s[i] == ' ');
        assert(s[i + 1] == wc[0]);
        assert(skip_trivia(s, i + 1) == i + 1);
        assert(skip_trivia(s, i) == i + 1);
        if rest.len() > 0 {
            assert(q1[0] == ' ');
        } else {
            assert(spaced(rest) =~= Seq::<char>::empty());
            if sp.len() == 1 {
                assert(q1[0] == ' ');
            } else {
                assert(q1[0] == closer_of(e));
            }
        }
        lemma_form_rereads(p + seq![' '], c, q1, depth);
        let p2 = p + seq![' '] + wc;
        assert(s =~= p2 + spaced(rest) + sp + seq![closer_of(e)] + q);
        lemma_items_reread(p2, rest, sp, e, q, open_at, depth);
        let fr = form(s, i + 1, depth)->Ok_0;
        let ir = items(s, p2.len() as int, Some(e), open_at, depth)->Ok_0;
        lemma_items_step(s, i, Some(e), open_at, depth, fr.0, fr.1, fr.2, ir.0, ir.1, ir.2);
        assert(seq![c] + rest =~= cs);
    }
}

/// Reading the written text of a well-formed protoform gives back that protoform, alone.
pub proof fn lemma_text_rereads(f: SpecForm)
    requires
        well_formed(f, 0),
    ensures
        delineated(written(f)) matches Ok((fs, _)) && fs == seq![f],
{
    let s = written(f);
    lemma_written_start(f, 0);
    assert(skip_trivia(s, 0) == 0);
    assert(Seq::<char>::empty() + s + Seq::<char>::empty() =~= s);
    lemma_form_rereads(Seq::empty(), f, Seq::empty(), 0);
    assert(skip_trivia(s, s.len() as int) == s.len());
    lemma_items_ends(s, s.len() as int, 0, 0);
    let fr = form(s, 0, 0)->Ok_0;
    lemma_items_step(
        s,
        0,
        None,
        0,
        0,
        fr.0,
        fr.1,
        fr.2,
        Seq::empty(),
        Seq::empty(),
        s.len() as int,
    );
    assert(seq![f] + Seq::<SpecForm>::empty() =~= seq![f]);
}

/// Reading the snug text of a well-formed protoform gives back that
/// protoform, alone: the reader needs no space just inside an enclosure.
pub proof fn lemma_snug_text_rereads(f: SpecForm)
    requires
        well_formed(f, 0),
    ensures
        delineated(snug(f)) matches Ok((fs, _)) && fs == seq![f],
{
    if f is Enclosed && f->Enclosed_1.len() > 0 {
        let e = f->Enclosed_0;
        let cs = f->Enclosed_1;
        let s = snug(f);
        let c = cs[0];
        let rest = cs.drop_first();
        assert(all_well_formed(cs, 1));
        assert(well_formed(c, 1) && all_well_formed(rest, 1));
        lemma_spaced(cs);
        assert(spaced(cs) =~= seq![' '] + written(c) + spaced(rest));
        assert(written_all(cs) =~= written(c) + spaced(rest)) by {
            assert(seq![' '] + written_all(cs) =~= seq![' '] + (written(c) + spaced(rest)));
            assert((seq![' '] + written_all(cs)).drop_first() =~= written_all(cs));
            assert((seq![' '] + (written(c) + spaced(rest))).drop_first() =~= written(c) + spaced(rest));
        }
        let p = seq![opener_of(e)];
        let q1 = spaced(rest) + seq![closer_of(e)];
        assert(s =~= p + written(c) + q1);
        lemma_written_start(c, 1);
        assert(s[1] == written(c)[0]);
        assert(skip_trivia(s, 1) == 1);
        if rest.len() > 0 {
            assert(q1[0] == ' ');
        } else {
            assert(spaced(rest) =~= Seq::<char>::empty());
            assert(q1[0] == closer_of(e));
        }
        lemma_form_rereads(p, c, q1, 1);
        let p2 = p + written(c);
        assert(s =~= p2 + spaced(rest) + Seq::<char>::empty() + seq![closer_of(e)] + Seq::<char>::empty());
        lemma_items_reread(p2, rest, Seq::<char>::empty(), e, Seq::<char>::empty(), 0, 1);
        let fr = form(s, 1, 1)->Ok_0;
        let ir = items(s, p2.len() as int, Some(e), 0, 1)->Ok_0;
        lemma_items_step(s, 1, Some(e), 0, 1, fr.0, fr.1, fr.2, ir.0, ir.1, ir.2);
        assert(seq![c] + rest =~= cs);
        assert(s[0] == opener_of(e));
        let r = items(s, 1, Some(e), 0, 1)->Ok_0;
        lemma_form_enclosed(s, 0, 0, e, r.0, r.1, r.2);
        assert(r.2 == s.len());
        assert(skip_trivia(s, 0) == 0);
        assert(skip_trivia(s, s.len() as int) == s.len());
        lemma_items_ends(s, s.len() as int, 0, 0);
        let top = form(s, 0, 0)->Ok_0;
        lemma_items_step(
            s,
            0,
            None,
            0,
            0,
            top.0,
            top.1,
            top.2,
            Seq::empty(),
            Seq::empty(),
            s.len() as int,
        );
        assert(seq![f] + Seq::<SpecForm>::empty() =~= seq![f]);
    } else {
        lemma_text_rereads(f);
    }
}

} // verus!

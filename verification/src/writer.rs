//! The writer: the canonical text of a protoform.

use vstd::prelude::*;

use crate::form::{forms_view, Protoform, SpecForm};
use crate::glyph::{
    boundary_closer, boundary_opener, chars_of, closer_of, glyph_of_separator, opener_of,
    separator_glyph, Boundary, Enclosure,
};

verus! {

/// The depth reached while scanning opaque content from `depth`: `None` once it
/// would fall below zero.
pub open spec fn nesting(c: Seq<char>, b: Boundary, depth: int) -> Option<int>
    decreases c.len(),
{
    if c.len() == 0 {
        Some(depth)
    } else {
        let x = c[0];
        let next = if x == boundary_opener(b) {
            depth + 1
        } else if x == boundary_closer(b) {
            depth - 1
        } else {
            depth
        };
        if next < 0 {
            None
        } else {
            nesting(c.drop_first(), b, next)
        }
    }
}

/// Whether the boundary glyphs in the content pair up: no closer before its
/// opener, and none left open.
pub open spec fn balanced(c: Seq<char>, b: Boundary) -> bool {
    nesting(c, b, 0) == Some(0int)
}

/// Whether a glyph is escaped inside opaque content.
pub open spec fn needs_escape(x: char, b: Boundary, all: bool) -> bool {
    x == '\\' || (all && (x == boundary_opener(b) || x == boundary_closer(b)))
}

/// The content with a backslash before every glyph that needs one.
pub open spec fn escape(c: Seq<char>, b: Boundary, all: bool) -> Seq<char>
    decreases c.len(),
{
    if c.len() == 0 {
        Seq::empty()
    } else {
        (if needs_escape(c[0], b, all) {
            seq!['\\', c[0]]
        } else {
            seq![c[0]]
        }) + escape(c.drop_first(), b, all)
    }
}

/// Opaque content as written: balanced content keeps its boundary glyphs, other
/// content escapes them; a backslash is always escaped.
pub open spec fn escaped(b: Boundary, c: Seq<char>) -> Seq<char> {
    escape(c, b, !balanced(c, b))
}

/// The canonical text of a protoform.
pub open spec fn written(f: SpecForm) -> Seq<char>
    decreases f,
{
    match f {
        SpecForm::Bare(w) => w,
        SpecForm::Headed(h, s, body) => h.push(separator_glyph(s)) + written(*body),
        SpecForm::Qualified(h, cs) => h.push('<') + written_all(cs) + seq!['>'],
        SpecForm::QualifiedHeaded(h, cs, s, body) => h.push('<') + written_all(cs) + seq![
            '>',
            separator_glyph(s),
        ] + written(*body),
        SpecForm::Enclosed(e, cs) => if cs.len() == 0 {
            seq![opener_of(e), closer_of(e)]
        } else {
            seq![opener_of(e), ' '] + written_all(cs) + seq![' ', closer_of(e)]
        },
        SpecForm::Opaque(b, c) => seq![boundary_opener(b)] + escaped(b, c) + seq![
            boundary_closer(b),
        ],
    }
}

/// The canonical texts of protoforms, one space apart.
pub open spec fn written_all(cs: Seq<SpecForm>) -> Seq<char>
    decreases cs,
{
    if cs.len() == 0 {
        Seq::empty()
    } else if cs.len() == 1 {
        written(cs[0])
    } else {
        written(cs[0]) + seq![' '] + written_all(cs.drop_first())
    }
}

/// The snug text of a protoform: an enclosure that has children is written
/// with no space just inside its glyphs, its children as the writer writes
/// them; any other protoform as the writer writes it.
pub open spec fn snug(f: SpecForm) -> Seq<char> {
    match f {
        SpecForm::Enclosed(e, cs) => if cs.len() == 0 {
            written(f)
        } else {
            seq![opener_of(e)] + written_all(cs) + seq![closer_of(e)]
        },
        _ => written(f),
    }
}

/// Appends the characters of a string.
fn push_str(out: &mut Vec<char>, s: &String)
    ensures
        final(out)@ == old(out)@ + s@,
{
    let cs = chars_of(s.as_str());
    let mut i: usize = 0;
    while i < cs.len()
        invariant
            0 <= i <= cs.len(),
            out@ == old(out)@ + cs@.take(i as int),
        decreases cs.len() - i,
    {
        out.push(cs[i]);
        i = i + 1;
        assert(cs@.take(i as int) =~= cs@.take(i - 1).push(cs@[i - 1]));
    }
    assert(cs@.take(cs.len() as int) =~= s@);
}

/// Whether opaque content is balanced for its boundary.
fn is_balanced(c: &Vec<char>, b: Boundary) -> (r: bool)
    ensures
        r == balanced(c@, b),
{
    let opener = boundary_glyph_open(b);
    let closer = boundary_glyph_close(b);
    let mut depth: u64 = 0;
    let mut i: usize = 0;
    assert(c@.skip(0) =~= c@);
    while i < c.len()
        invariant
            0 <= i <= c.len(),
            depth <= i,
            opener == boundary_opener(b),
            closer == boundary_closer(b),
            nesting(c@, b, 0) == nesting(c@.skip(i as int), b, depth as int),
        decreases c.len() - i,
    {
        let x = c[i];
        assert(c@.skip(i as int)[0] == x);
        assert(c@.skip(i as int).drop_first() =~= c@.skip(i + 1));
        if x == opener {
            depth = depth + 1;
        } else if x == closer {
            if depth == 0 {
                return false;
            }
            depth = depth - 1;
        }
        i = i + 1;
    }
    assert(c@.skip(i as int) =~= Seq::<char>::empty());
    depth == 0
}

/// The glyph opening a boundary.
pub fn boundary_glyph_open(b: Boundary) -> (c: char)
    ensures
        c == boundary_opener(b),
{
    match b {
        Boundary::CurlyQuotes => '“',
        Boundary::Parentheses => '(',
    }
}

/// The glyph closing a boundary.
pub fn boundary_glyph_close(b: Boundary) -> (c: char)
    ensures
        c == boundary_closer(b),
{
    match b {
        Boundary::CurlyQuotes => '”',
        Boundary::Parentheses => ')',
    }
}

/// The glyph opening an enclosure.
pub fn enclosure_glyph_open(e: Enclosure) -> (c: char)
    ensures
        c == opener_of(e),
{
    match e {
        Enclosure::Braced => '{',
        Enclosure::Bracketed => '[',
        Enclosure::Angled => '<',
        Enclosure::Guillemets => '«',
    }
}

/// The glyph closing an enclosure.
pub fn enclosure_glyph_close(e: Enclosure) -> (c: char)
    ensures
        c == closer_of(e),
{
    match e {
        Enclosure::Braced => '}',
        Enclosure::Bracketed => ']',
        Enclosure::Angled => '>',
        Enclosure::Guillemets => '»',
    }
}

/// Appends opaque content, escaped as written.
fn push_escaped(out: &mut Vec<char>, b: Boundary, s: &String)
    ensures
        final(out)@ == old(out)@ + escaped(b, s@),
{
    let c = chars_of(s.as_str());
    let all = !is_balanced(&c, b);
    let opener = boundary_glyph_open(b);
    let closer = boundary_glyph_close(b);
    let mut i: usize = 0;
    proof {
        lemma_escape_split(c@, 0, b, all);
        assert(c@.take(0) =~= Seq::<char>::empty());
        assert(escape(Seq::<char>::empty(), b, all) =~= Seq::<char>::empty());
        assert(out@ =~= old(out)@ + escape(c@.take(0), b, all));
    }
    while i < c.len()
        invariant
            0 <= i <= c.len(),
            c@ == s@,
            all == !balanced(c@, b),
            opener == boundary_opener(b),
            closer == boundary_closer(b),
            escape(c@, b, all) == escape(c@.take(i as int), b, all) + escape(
                c@.skip(i as int),
                b,
                all,
            ),
            out@ == old(out)@ + escape(c@.take(i as int), b, all),
        decreases c.len() - i,
    {
        let x = c[i];
        proof {
            lemma_escape_split(c@, i as int, b, all);
        }
        if x == '\\' || (all && (x == opener || x == closer)) {
            out.push('\\');
        }
        out.push(x);
        i = i + 1;
        proof {
            lemma_escape_split(c@, i as int, b, all);
        }
    }
    assert(c@.take(c.len() as int) =~= c@);
}

/// Escaping distributes over a split of the content.
proof fn lemma_escape_split(c: Seq<char>, i: int, b: Boundary, all: bool)
    requires
        0 <= i <= c.len(),
    ensures
        escape(c, b, all) == escape(c.take(i), b, all) + escape(c.skip(i), b, all),
        i < c.len() ==> escape(c.take(i + 1), b, all) == escape(c.take(i), b, all) + (if needs_escape(
            c[i],
            b,
            all,
        ) {
            seq!['\\', c[i]]
        } else {
            seq![c[i]]
        }),
    decreases c.len(),
{
    lemma_escape_append(c.take(i), c.skip(i), b, all);
    assert(c.take(i) + c.skip(i) =~= c);
    if i < c.len() {
        lemma_escape_append(c.take(i), seq![c[i]], b, all);
        assert(c.take(i) + seq![c[i]] =~= c.take(i + 1));
        let one = seq![c[i]];
        assert(one.drop_first() =~= Seq::<char>::empty());
        assert(escape(Seq::<char>::empty(), b, all) =~= Seq::<char>::empty());
        assert(escape(one, b, all) =~= (if needs_escape(c[i], b, all) {
            seq!['\\', c[i]]
        } else {
            seq![c[i]]
        }));
    }
}

/// Escaping two contents one after the other escapes their concatenation.
pub proof fn lemma_escape_append(x: Seq<char>, y: Seq<char>, b: Boundary, all: bool)
    ensures
        escape(x + y, b, all) == escape(x, b, all) + escape(y, b, all),
    decreases x.len(),
{
    if x.len() == 0 {
        assert(x + y =~= y);
        assert(escape(x, b, all) =~= Seq::<char>::empty());
        assert(Seq::<char>::empty() + escape(y, b, all) =~= escape(y, b, all));
    } else {
        lemma_escape_append(x.drop_first(), y, b, all);
        assert((x + y).drop_first() =~= x.drop_first() + y);
        assert((x + y)[0] == x[0]);
        let head = if needs_escape(x[0], b, all) {
            seq!['\\', x[0]]
        } else {
            seq![x[0]]
        };
        assert(escape(x + y, b, all) =~= head + (escape(x.drop_first(), b, all) + escape(y, b, all)));
        assert(escape(x, b, all) =~= head + escape(x.drop_first(), b, all));
    }
}

/// Appends the canonical text of a protoform.
pub fn write_form(f: &Protoform, out: &mut Vec<char>)
    ensures
        final(out)@ == old(out)@ + written(f@),
    decreases f,
{
    match f {
        Protoform::Bare(w) => {
            push_str(out, w);
        },
        Protoform::Headed(h, s, body) => {
            push_str(out, h);
            out.push(glyph_of_separator(*s));
            let ghost mid = out@;
            write_form(body, out);
            assert(out@ =~= old(out)@ + (h@.push(separator_glyph(*s)) + written((**body)@)));
        },
        Protoform::Qualified(h, cs) => {
            push_str(out, h);
            out.push('<');
            write_all(cs, out);
            out.push('>');
            assert(out@ =~= old(out)@ + (h@.push('<') + written_all(forms_view(cs@)) + seq!['>']));
        },
        Protoform::QualifiedHeaded(h, cs, s, body) => {
            push_str(out, h);
            out.push('<');
            write_all(cs, out);
            out.push('>');
            out.push(glyph_of_separator(*s));
            write_form(body, out);
            assert(out@ =~= old(out)@ + (h@.push('<') + written_all(forms_view(cs@)) + seq![
                '>',
                separator_glyph(*s),
            ] + written((**body)@)));
        },
        Protoform::Enclosed(e, cs) => {
            out.push(enclosure_glyph_open(*e));
            if cs.len() == 0 {
                out.push(enclosure_glyph_close(*e));
                assert(forms_view(cs@).len() == 0) by {
                    lemma_forms_view_len(cs@);
                }
                assert(out@ =~= old(out)@ + seq![opener_of(*e), closer_of(*e)]);
            } else {
                out.push(' ');
                write_all(cs, out);
                out.push(' ');
                out.push(enclosure_glyph_close(*e));
                assert(forms_view(cs@).len() != 0) by {
                    lemma_forms_view_len(cs@);
                }
                assert(out@ =~= old(out)@ + (seq![opener_of(*e), ' '] + written_all(
                    forms_view(cs@),
                ) + seq![' ', closer_of(*e)]));
            }
        },
        Protoform::Opaque(b, c) => {
            out.push(boundary_glyph_open(*b));
            push_escaped(out, *b, c);
            out.push(boundary_glyph_close(*b));
            assert(out@ =~= old(out)@ + (seq![boundary_opener(*b)] + escaped(*b, c@) + seq![
                boundary_closer(*b),
            ]));
        },
    }
}

/// The view of a sequence of protoforms has one entry for each.
pub proof fn lemma_forms_view_len(cs: Seq<Protoform>)
    ensures
        forms_view(cs).len() == cs.len(),
        forall|i: int| 0 <= i < cs.len() ==> #[trigger] forms_view(cs)[i] == cs[i]@,
    decreases cs.len(),
{
    if cs.len() > 0 {
        lemma_forms_view_len(cs.drop_first());
        assert(forms_view(cs) == seq![cs[0]@] + forms_view(cs.drop_first()));
        assert forall|i: int| 0 <= i < cs.len() implies #[trigger] forms_view(cs)[i] == cs[i]@ by {
            if i > 0 {
                assert(forms_view(cs)[i] == forms_view(cs.drop_first())[i - 1]);
            }
        }
    }
}

/// Appends the canonical texts of protoforms, one space apart.
pub(crate) fn write_all(cs: &Vec<Protoform>, out: &mut Vec<char>)
    ensures
        final(out)@ == old(out)@ + written_all(forms_view(cs@)),
    decreases cs,
{
    proof {
        lemma_forms_view_len(cs@);
    }
    let ghost views = forms_view(cs@);
    let mut i: usize = 0;
    proof {
        lemma_written_all_split(views, 0);
        assert(views.take(0) =~= Seq::<SpecForm>::empty());
        assert(out@ =~= old(out)@ + written_all(views.take(0)));
    }
    while i < cs.len()
        invariant
            0 <= i <= cs.len(),
            views == forms_view(cs@),
            views.len() == cs.len(),
            forall|j: int| 0 <= j < cs.len() ==> #[trigger] views[j] == cs@[j]@,
            written_all(views) == written_all(views.take(i as int)) + (if 0 < i < cs.len() {
                seq![' ']
            } else {
                Seq::empty()
            }) + written_all(views.skip(i as int)),
            out@ == old(out)@ + written_all(views.take(i as int)),
        decreases cs.len() - i,
    {
        if i > 0 {
            out.push(' ');
        }
        write_form(&cs[i], out);
        i = i + 1;
        proof {
            lemma_written_all_split(views, i as int);
            lemma_written_all_split(views.take(i as int), i - 1);
            assert(views.take(i as int).take(i - 1) =~= views.take(i - 1));
            assert(views.take(i as int).skip(i - 1) =~= seq![views[i - 1]]);
            assert(written_all(seq![views[i - 1]]) == written(views[i - 1]));
        }
    }
    assert(views.take(cs.len() as int) =~= views);
}

/// The written sequence splits where the sequence of protoforms splits.
pub proof fn lemma_written_all_split(cs: Seq<SpecForm>, i: int)
    requires
        0 <= i <= cs.len(),
    ensures
        written_all(cs) == written_all(cs.take(i)) + (if 0 < i < cs.len() {
            seq![' ']
        } else {
            Seq::empty()
        }) + written_all(cs.skip(i)),
    decreases cs.len(),
{
    if i == 0 {
        assert(cs.take(0) =~= Seq::<SpecForm>::empty());
        assert(cs.skip(0) =~= cs);
        assert(Seq::<char>::empty() + Seq::<char>::empty() + written_all(cs) =~= written_all(cs));
    } else if i == cs.len() {
        assert(cs.take(i) =~= cs);
        assert(cs.skip(i) =~= Seq::<SpecForm>::empty());
        assert(written_all(cs) + Seq::<char>::empty() + Seq::<char>::empty() =~= written_all(cs));
    } else {
        let t = cs.drop_first();
        lemma_written_all_split(t, i - 1);
        assert(t.skip(i - 1) =~= cs.skip(i));
        assert(cs.take(i).drop_first() =~= t.take(i - 1));
        assert(cs.take(i)[0] == cs[0]);
        if i == 1 {
            assert(cs.take(1) =~= seq![cs[0]]);
            assert(t.take(0) =~= Seq::<SpecForm>::empty());
            assert(written_all(t) =~= Seq::<char>::empty() + Seq::<char>::empty() + written_all(
                cs.skip(1),
            ));
            assert(written_all(cs) =~= written_all(cs.take(1)) + seq![' '] + written_all(cs.skip(1)));
        } else {
            assert(written_all(cs.take(i)) == written(cs[0]) + seq![' '] + written_all(
                t.take(i - 1),
            ));
            assert(written_all(cs) =~= written_all(cs.take(i)) + seq![' '] + written_all(
                cs.skip(i),
            ));
        }
    }
}

/// The canonical text of a protoform.
pub fn textualize_form(f: &Protoform) -> (text: Vec<char>)
    ensures
        text@ == written(f@),
{
    let mut out: Vec<char> = Vec::new();
    write_form(f, &mut out);
    assert(out@ =~= written(f@));
    out
}

/// The snug text of a protoform.
pub fn textualize_snug_form(f: &Protoform) -> (text: Vec<char>)
    ensures
        text@ == snug(f@),
{
    let mut out: Vec<char> = Vec::new();
    match f {
        Protoform::Enclosed(e, cs) => {
            proof {
                lemma_forms_view_len(cs@);
            }
            if cs.len() == 0 {
                write_form(f, &mut out);
            } else {
                out.push(enclosure_glyph_open(*e));
                write_all(cs, &mut out);
                out.push(enclosure_glyph_close(*e));
                assert(out@ =~= seq![opener_of(*e)] + written_all(forms_view(cs@)) + seq![closer_of(*e)]);
            }
        },
        _ => {
            write_form(f, &mut out);
        },
    }
    assert(out@ =~= Seq::<char>::empty() + out@);
    out
}

} // verus!

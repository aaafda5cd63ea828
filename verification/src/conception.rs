//! Conception: the situated protoform becomes the situated datom.

use vstd::prelude::*;

use crate::anatomy::{
    datoms_view, lemma_datoms_push, lemma_datoms_view, Datom, Fault, Found, Locus, Problem,
    SpecDatom, SpecFault, SpecProblem,
};
use crate::delineation::Delineation;
use crate::form::{
    forms_view, situations_view, Extent, Protoform, Situation, SpecForm, SpecSituation,
};
use crate::glyph::{string_of, Boundary, Enclosure, Separator};
use crate::writer::{lemma_forms_view_len, textualize_form, written};

verus! {

/// The extent of a situation.
pub open spec fn extent_of(at: SpecSituation) -> Extent {
    Extent(at.extent.0 as i64, at.extent.1 as i64)
}

/// The situation of the part at `k`, or the whole when there is no such part.
pub open spec fn part(at: SpecSituation, k: int) -> SpecSituation {
    if 0 <= k < at.children.len() {
        at.children[k]
    } else {
        at
    }
}

/// The situation with the same extent and no parts.
pub open spec fn bare_situation(at: SpecSituation) -> SpecSituation {
    SpecSituation { extent: at.extent, children: Seq::empty() }
}

/// Whether a headed structure is a chain of bare words.
pub open spec fn word_chain(f: SpecForm) -> bool
    decreases f,
{
    match f {
        SpecForm::Bare(_) => true,
        SpecForm::Headed(_, _, b) => word_chain(*b),
        _ => false,
    }
}

/// A conceptual fault at a situation.
pub open spec fn formless(at: SpecSituation, path: Seq<i64>, found: Found) -> SpecFault {
    SpecFault::Conceptual(path, extent_of(at), SpecProblem::Formless(found))
}

/// The datom of a protoform at its situation, and the datom's situation.
pub open spec fn conceived(f: SpecForm, at: SpecSituation, path: Seq<i64>) -> Result<
    (SpecDatom, SpecSituation),
    SpecFault,
>
    decreases f, 0int,
{
    match f {
        SpecForm::Bare(w) => Ok((SpecDatom::Word(w), bare_situation(at))),
        SpecForm::Headed(h, s, b) => if s == Separator::Period {
            match conceived(*b, part(at, 1), path.push(1)) {
                Err(e) => Err(e),
                Ok((d, bat)) => Ok(
                    (
                        SpecDatom::Variant(h, Box::new(d)),
                        SpecSituation {
                            extent: at.extent,
                            children: seq![bare_situation(part(at, 0)), bat],
                        },
                    ),
                ),
            }
        } else if word_chain(f) {
            Ok((SpecDatom::Word(written(f)), bare_situation(at)))
        } else {
            Err(formless(at, path, Found::Chain))
        },
        SpecForm::Qualified(..) => Err(formless(at, path, Found::Qualified)),
        SpecForm::QualifiedHeaded(..) => Err(formless(at, path, Found::Qualified)),
        SpecForm::Enclosed(e, cs) => if e == Enclosure::Angled {
            Err(formless(at, path, Found::Angled))
        } else {
            match conceived_all(cs, at, path, 0) {
                Err(x) => Err(x),
                Ok((ds, ats)) => Ok(
                    (
                        if e == Enclosure::Braced {
                            SpecDatom::Struct(ds)
                        } else if e == Enclosure::Guillemets {
                            SpecDatom::Mapping(ds)
                        } else {
                            SpecDatom::Vector(ds)
                        },
                        SpecSituation { extent: at.extent, children: ats },
                    ),
                ),
            }
        },
        SpecForm::Opaque(b, c) => Ok(
            (
                if b == Boundary::CurlyQuotes {
                    SpecDatom::Text(c)
                } else {
                    SpecDatom::Meaning(c)
                },
                bare_situation(at),
            ),
        ),
    }
}

/// The datoms of the children from `k` on, and their situations.
pub open spec fn conceived_all(cs: Seq<SpecForm>, at: SpecSituation, path: Seq<i64>, k: int) -> Result<
    (Seq<SpecDatom>, Seq<SpecSituation>),
    SpecFault,
>
    decreases cs, cs.len() - k,
{
    if k < 0 || k >= cs.len() {
        Ok((Seq::empty(), Seq::empty()))
    } else {
        match conceived(cs[k], part(at, k), path.push(k as i64)) {
            Err(e) => Err(e),
            Ok((d, dat)) => match conceived_all(cs, at, path, k + 1) {
                Err(e) => Err(e),
                Ok((ds, ats)) => Ok((seq![d] + ds, seq![dat] + ats)),
            },
        }
    }
}

/// The situation of the part at `k`, or the whole when there is no such part.
pub fn part_at(at: &Situation, k: usize) -> (p: &Situation)
    ensures
        p@ == part(at@, k as int),
{
    proof {
        lemma_situations_view(at.children@);
    }
    if k < at.children.len() {
        &at.children[k]
    } else {
        at
    }
}

/// The view of a sequence of situations has one entry for each.
pub proof fn lemma_situations_view(cs: Seq<Situation>)
    ensures
        situations_view(cs).len() == cs.len(),
        forall|i: int| 0 <= i < cs.len() ==> #[trigger] situations_view(cs)[i] == cs[i]@,
    decreases cs.len(),
{
    if cs.len() > 0 {
        lemma_situations_view(cs.drop_first());
        assert(situations_view(cs) == seq![cs[0]@] + situations_view(cs.drop_first()));
        assert forall|i: int| 0 <= i < cs.len() implies #[trigger] situations_view(cs)[i] == cs[i]@ by {
            if i > 0 {
                assert(situations_view(cs)[i] == situations_view(cs.drop_first())[i - 1]);
            }
        }
    }
}

/// A situation with the same extent and no parts.
fn bare_at(at: &Situation) -> (r: Situation)
    ensures
        r@ == bare_situation(at@),
{
    let r = Situation { extent: at.extent, children: Vec::new() };
    assert(situations_view(r.children@) =~= Seq::<SpecSituation>::empty());
    r
}

/// Whether a headed structure is a chain of bare words.
fn is_word_chain(f: &Protoform) -> (r: bool)
    ensures
        r == word_chain(f@),
    decreases f,
{
    match f {
        Protoform::Bare(_) => true,
        Protoform::Headed(_, _, b) => is_word_chain(b),
        _ => false,
    }
}

/// A conceptual fault at a situation.
fn formless_at(at: &Situation, path: &Vec<i64>, found: Found) -> (f: Fault)
    ensures
        f@ == formless(at@, path@, found),
{
    Fault::Conceptual(Locus { path: path.clone(), extent: at.extent }, Problem::Formless(found))
}

/// The datom of a protoform at its situation, and the datom's situation.
pub fn conceive_form(f: &Protoform, at: &Situation, path: &Vec<i64>) -> (r: Result<
    (Datom, Situation),
    Fault,
>)
    ensures
        match r {
            Ok((d, dat)) => conceived(f@, at@, path@) == Ok::<_, SpecFault>((d@, dat@)),
            Err(e) => conceived(f@, at@, path@) == Err::<(SpecDatom, SpecSituation), _>(e@),
        },
    decreases f,
{
    match f {
        Protoform::Bare(w) => Ok((Datom::Word(w.clone()), bare_at(at))),
        Protoform::Headed(h, s, b) => {
            if *s == Separator::Period {
                let mut p = path.clone();
                p.push(1);
                match conceive_form(b, part_at(at, 1), &p) {
                    Err(e) => Err(e),
                    Ok((d, bat)) => {
                        let head_at = bare_at(part_at(at, 0));
                        let ghost hv = head_at@;
                        let ghost bv = bat@;
                        let dat = Situation { extent: at.extent, children: vec![head_at, bat] };
                        proof {
                            assert(dat.children@ =~= seq![head_at, bat]);
                            lemma_situations_view(dat.children@);
                            assert(situations_view(dat.children@) =~= seq![hv, bv]);
                        }
                        Ok((Datom::Variant(h.clone(), Box::new(d)), dat))
                    },
                }
            } else if is_word_chain(f) {
                let text = textualize_form(f);
                Ok((Datom::Word(string_of(text.as_slice())), bare_at(at)))
            } else {
                Err(formless_at(at, path, Found::Chain))
            }
        },
        Protoform::Qualified(..) => Err(formless_at(at, path, Found::Qualified)),
        Protoform::QualifiedHeaded(..) => Err(formless_at(at, path, Found::Qualified)),
        Protoform::Enclosed(e, cs) => {
            if *e == Enclosure::Angled {
                return Err(formless_at(at, path, Found::Angled));
            }
            match conceive_all(cs, at, path) {
                Err(x) => Err(x),
                Ok((ds, ats)) => {
                    let dat = Situation { extent: at.extent, children: ats };
                    if *e == Enclosure::Braced {
                        Ok((Datom::Struct(ds), dat))
                    } else if *e == Enclosure::Guillemets {
                        Ok((Datom::Mapping(ds), dat))
                    } else {
                        Ok((Datom::Vector(ds), dat))
                    }
                },
            }
        },
        Protoform::Opaque(b, c) => {
            if *b == Boundary::CurlyQuotes {
                Ok((Datom::Text(c.clone()), bare_at(at)))
            } else {
                Ok((Datom::Meaning(c.clone()), bare_at(at)))
            }
        },
    }
}

/// The datoms of the children of an enclosure, and their situations.
fn conceive_all(cs: &Vec<Protoform>, at: &Situation, path: &Vec<i64>) -> (r: Result<
    (Vec<Datom>, Vec<Situation>),
    Fault,
>)
    ensures
        match r {
            Ok((ds, ats)) => conceived_all(forms_view(cs@), at@, path@, 0) == Ok::<_, SpecFault>(
                (datoms_view(ds@), situations_view(ats@)),
            ),
            Err(e) => conceived_all(forms_view(cs@), at@, path@, 0) == Err::<
                (Seq<SpecDatom>, Seq<SpecSituation>),
                _,
            >(e@),
        },
    decreases cs,
{
    let ghost fs = forms_view(cs@);
    proof {
        lemma_forms_view_len(cs@);
    }
    let mut ds: Vec<Datom> = Vec::new();
    let mut ats: Vec<Situation> = Vec::new();
    let mut k: usize = 0;
    proof {
        lemma_datoms_view(ds@);
        lemma_situations_view(ats@);
        let x = conceived_all(fs, at@, path@, 0);
        match x {
            Ok((a, b)) => {
                assert(datoms_view(ds@) + a =~= a);
                assert(situations_view(ats@) + b =~= b);
            },
            Err(_) => {},
        }
    }
    while k < cs.len()
        invariant
            0 <= k <= cs.len(),
            fs == forms_view(cs@),
            fs.len() == cs.len(),
            forall|j: int| 0 <= j < cs.len() ==> #[trigger] fs[j] == cs@[j]@,
            conceived_all(fs, at@, path@, 0) == match conceived_all(fs, at@, path@, k as int) {
                Ok((a, b)) => Ok::<_, SpecFault>(
                    (datoms_view(ds@) + a, situations_view(ats@) + b),
                ),
                Err(e) => Err(e),
            },
        decreases cs.len() - k,
    {
        let mut p = path.clone();
        p.push(k as i64);
        match conceive_form(&cs[k], part_at(at, k), &p) {
            Err(e) => {
                return Err(e);
            },
            Ok((d, dat)) => {
                let ghost before_d = datoms_view(ds@);
                let ghost before_s = situations_view(ats@);
                let ghost dv = d@;
                let ghost sv = dat@;
                proof {
                    lemma_datoms_push(ds@, d);
                    crate::delineation::lemma_situations_push(ats@, dat);
                }
                ds.push(d);
                ats.push(dat);
                proof {
                    match conceived_all(fs, at@, path@, k + 1) {
                        Ok((a, b)) => {
                            assert(before_d + (seq![dv] + a) =~= before_d.push(dv) + a);
                            assert(before_s + (seq![sv] + b) =~= before_s.push(sv) + b);
                        },
                        Err(_) => {},
                    }
                }
                k = k + 1;
            },
        }
    }
    proof {
        assert(datoms_view(ds@) + Seq::<SpecDatom>::empty() =~= datoms_view(ds@));
        assert(situations_view(ats@) + Seq::<SpecSituation>::empty() =~= situations_view(ats@));
    }
    Ok((ds, ats))
}

/// A count as the dialect's integers hold it: the largest integer stands for any larger count.
pub open spec fn counted(n: int) -> int {
    if n <= i64::MAX {
        n
    } else {
        i64::MAX as int
    }
}

/// A count as the dialect's integers hold it.
pub fn count_of(n: usize) -> (c: i64)
    ensures
        c == counted(n as int),
{
    if n as u64 <= i64::MAX as u64 {
        n as i64
    } else {
        i64::MAX
    }
}

/// The situation at `k` of a sequence, or nowhere when there is none.
pub open spec fn situation_at(ats: Seq<SpecSituation>, k: int) -> SpecSituation {
    if 0 <= k < ats.len() {
        ats[k]
    } else {
        SpecSituation { extent: (0, 0), children: Seq::empty() }
    }
}

/// The datom of a text's structures: the datom of its one structure, or a
/// fault naming how many structures the text holds.
pub open spec fn conceived_one(fs: Seq<SpecForm>, ats: Seq<SpecSituation>) -> Result<
    (SpecDatom, SpecSituation),
    SpecFault,
> {
    if fs.len() == 1 {
        conceived(fs[0], situation_at(ats, 0), Seq::empty())
    } else if fs.len() == 0 {
        Err(SpecFault::Conceptual(Seq::empty(), Extent(0, 0), SpecProblem::OneValue(0)))
    } else {
        Err(
            SpecFault::Conceptual(
                Seq::empty(),
                Extent(
                    situation_at(ats, 0).extent.0 as i64,
                    situation_at(ats, fs.len() - 1).extent.1 as i64,
                ),
                SpecProblem::OneValue(counted(fs.len() as int) as i64),
            ),
        )
    }
}

/// The extent of the situation at `k`, or nowhere when there is none.
fn extent_at(ats: &Vec<Situation>, k: usize) -> (e: Extent)
    ensures
        e == extent_of(situation_at(situations_view(ats@), k as int)),
{
    proof {
        lemma_situations_view(ats@);
    }
    if k < ats.len() {
        ats[k].extent
    } else {
        Extent(0, 0)
    }
}

/// The datom of a delineated text: the datom of its one structure, and the datom's situation.
pub fn conceive(d: &Delineation) -> (r: Result<(Datom, Situation), Fault>)
    ensures
        match r {
            Ok((x, at)) => conceived_one(forms_view(d.forms@), situations_view(d.situations@))
                == Ok::<_, SpecFault>((x@, at@)),
            Err(e) => conceived_one(forms_view(d.forms@), situations_view(d.situations@)) == Err::<
                (SpecDatom, SpecSituation),
                _,
            >(e@),
        },
{
    proof {
        lemma_forms_view_len(d.forms@);
        crate::anatomy::lemma_datoms_view(Seq::empty());
    }
    let n = d.forms.len();
    if n == 1 {
        proof {
            lemma_situations_view(d.situations@);
        }
        if d.situations.len() > 0 {
            conceive_form(&d.forms[0], &d.situations[0], &Vec::new())
        } else {
            let nowhere = Situation { extent: Extent(0, 0), children: Vec::new() };
            assert(situations_view(nowhere.children@) =~= Seq::<SpecSituation>::empty());
            conceive_form(&d.forms[0], &nowhere, &Vec::new())
        }
    } else if n == 0 {
        Err(Fault::Conceptual(Locus { path: Vec::new(), extent: Extent(0, 0) }, Problem::OneValue(0)))
    } else {
        let first = extent_at(&d.situations, 0);
        let last = extent_at(&d.situations, n - 1);
        Err(
            Fault::Conceptual(
                Locus { path: Vec::new(), extent: Extent(first.0, last.1) },
                Problem::OneValue(count_of(n)),
            ),
        )
    }
}

} // verus!

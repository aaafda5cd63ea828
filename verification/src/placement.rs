//! Datoms whose every node carries the path it sits at.

use vstd::prelude::*;

use crate::anatomy::{datoms_view, lemma_datoms_view, Datom, SpecDatom};
use crate::kinds::Datomic;

verus! {

/// A datom node together with the path it sits at.
#[derive(Debug, PartialEq, Eq)]
pub struct PathDatom {
    /// The path from the root.
    pub path: Vec<i64>,
    /// The form of the node, with its children placed.
    pub form: Form,
}

/// The form of a placed node.
#[derive(Debug, PartialEq, Eq)]
pub enum Form {
    /// A head, the dot, and a placed body.
    Variant(String, Box<PathDatom>),
    /// Positional fields, each with its path.
    Struct(Vec<PathDatom>),
    /// Elements, each with its path.
    Vector(Vec<PathDatom>),
    /// Map entries, each with its path.
    Mapping(Vec<PathDatom>),
    /// Quoted text.
    String(String),
    /// Parenthesized meaning.
    Meaning(String),
    /// A bare word.
    Bare(String),
}

/// The mathematical placed node.
pub struct SpecPathDatom {
    pub path: Seq<i64>,
    pub form: SpecPathForm,
}

/// The mathematical form of a placed node.
pub enum SpecPathForm {
    Variant(Seq<char>, Box<SpecPathDatom>),
    Struct(Seq<SpecPathDatom>),
    Vector(Seq<SpecPathDatom>),
    Mapping(Seq<SpecPathDatom>),
    String(Seq<char>),
    Meaning(Seq<char>),
    Bare(Seq<char>),
}

impl View for PathDatom {
    type V = SpecPathDatom;

    open spec fn view(&self) -> SpecPathDatom
        decreases self,
    {
        SpecPathDatom {
            path: self.path@,
            form: match &self.form {
                Form::Variant(h, b) => SpecPathForm::Variant(h@, Box::new((**b).view())),
                Form::Struct(cs) => SpecPathForm::Struct(placeds_view(cs@)),
                Form::Vector(cs) => SpecPathForm::Vector(placeds_view(cs@)),
                Form::Mapping(cs) => SpecPathForm::Mapping(placeds_view(cs@)),
                Form::String(t) => SpecPathForm::String(t@),
                Form::Meaning(t) => SpecPathForm::Meaning(t@),
                Form::Bare(w) => SpecPathForm::Bare(w@),
            },
        }
    }
}

/// The mathematical placed nodes of a sequence of placed nodes.
pub open spec fn placeds_view(cs: Seq<PathDatom>) -> Seq<SpecPathDatom>
    decreases cs,
{
    if cs.len() == 0 {
        Seq::empty()
    } else {
        seq![cs[0].view()] + placeds_view(cs.drop_first())
    }
}

/// The view of a sequence of placed nodes has one entry for each.
pub proof fn lemma_placeds_view(cs: Seq<PathDatom>)
    ensures
        placeds_view(cs).len() == cs.len(),
        forall|i: int| 0 <= i < cs.len() ==> #[trigger] placeds_view(cs)[i] == cs[i]@,
    decreases cs.len(),
{
    if cs.len() > 0 {
        lemma_placeds_view(cs.drop_first());
        assert(placeds_view(cs) == seq![cs[0]@] + placeds_view(cs.drop_first()));
        assert forall|i: int| 0 <= i < cs.len() implies #[trigger] placeds_view(cs)[i] == cs[i]@ by {
            if i > 0 {
                assert(placeds_view(cs)[i] == placeds_view(cs.drop_first())[i - 1]);
            }
        }
    }
}

/// A datom placed at a path: a variant's body sits at the path's child one,
/// and the `i`-th field or element at its child `i`.
pub open spec fn placed(d: SpecDatom, at: Seq<i64>) -> SpecPathDatom
    decreases d, 0int,
{
    SpecPathDatom {
        path: at,
        form: match d {
            SpecDatom::Variant(h, b) => SpecPathForm::Variant(h, Box::new(placed(*b, at.push(1)))),
            SpecDatom::Struct(ds) => SpecPathForm::Struct(placed_from(ds, at, 0)),
            SpecDatom::Vector(ds) => SpecPathForm::Vector(placed_from(ds, at, 0)),
            SpecDatom::Mapping(ds) => SpecPathForm::Mapping(placed_from(ds, at, 0)),
            SpecDatom::Text(t) => SpecPathForm::String(t),
            SpecDatom::Meaning(t) => SpecPathForm::Meaning(t),
            SpecDatom::Word(w) => SpecPathForm::Bare(w),
        },
    }
}

/// The datoms from the `k`-th on, each placed at its own child of the path.
pub open spec fn placed_from(ds: Seq<SpecDatom>, at: Seq<i64>, k: int) -> Seq<SpecPathDatom>
    decreases ds, ds.len() - k,
{
    if k < 0 || k >= ds.len() {
        Seq::empty()
    } else {
        seq![placed(ds[k], at.push(k as i64))] + placed_from(ds, at, k + 1)
    }
}

/// The datoms placed from the `k`-th on have one entry for each, placed at its index.
proof fn lemma_placed_from(ds: Seq<SpecDatom>, at: Seq<i64>, k: int)
    requires
        0 <= k <= ds.len(),
    ensures
        placed_from(ds, at, k).len() == ds.len() - k,
        forall|j: int|
            0 <= j < ds.len() - k ==> #[trigger] placed_from(ds, at, k)[j] == placed(
                ds[k + j],
                at.push((k + j) as i64),
            ),
    decreases ds.len() - k,
{
    if k < ds.len() {
        lemma_placed_from(ds, at, k + 1);
        assert forall|j: int| 0 <= j < ds.len() - k implies #[trigger] placed_from(ds, at, k)[j]
            == placed(ds[k + j], at.push((k + j) as i64)) by {
            if j > 0 {
                assert(placed_from(ds, at, k)[j] == placed_from(ds, at, k + 1)[j - 1]);
            }
        }
    }
}

/// Every node of a placed datom sits at its path: the root at `at`, and each
/// child at its parent's path extended by its index.
pub open spec fn sits_at(p: SpecPathDatom, at: Seq<i64>) -> bool
    decreases p, 0int,
{
    &&& p.path == at
    &&& match p.form {
        SpecPathForm::Variant(_, b) => sits_at(*b, at.push(1)),
        SpecPathForm::Struct(cs) => all_sit_from(cs, at, 0),
        SpecPathForm::Vector(cs) => all_sit_from(cs, at, 0),
        SpecPathForm::Mapping(cs) => all_sit_from(cs, at, 0),
        _ => true,
    }
}

/// The placed nodes from the `k`-th on each sit at their own child of the path.
pub open spec fn all_sit_from(cs: Seq<SpecPathDatom>, at: Seq<i64>, k: int) -> bool
    decreases cs, cs.len() - k,
{
    if k < 0 || k >= cs.len() {
        true
    } else {
        sits_at(cs[k], at.push(k as i64)) && all_sit_from(cs, at, k + 1)
    }
}

/// The datom a placed node stands for, its paths forgotten.
pub open spec fn unplaced(p: SpecPathDatom) -> SpecDatom
    decreases p, 0int,
{
    match p.form {
        SpecPathForm::Variant(h, b) => SpecDatom::Variant(h, Box::new(unplaced(*b))),
        SpecPathForm::Struct(cs) => SpecDatom::Struct(unplaced_from(cs, 0)),
        SpecPathForm::Vector(cs) => SpecDatom::Vector(unplaced_from(cs, 0)),
        SpecPathForm::Mapping(cs) => SpecDatom::Mapping(unplaced_from(cs, 0)),
        SpecPathForm::String(t) => SpecDatom::Text(t),
        SpecPathForm::Meaning(t) => SpecDatom::Meaning(t),
        SpecPathForm::Bare(w) => SpecDatom::Word(w),
    }
}

/// The datoms that placed nodes from the `k`-th on stand for.
pub open spec fn unplaced_from(cs: Seq<SpecPathDatom>, k: int) -> Seq<SpecDatom>
    decreases cs, cs.len() - k,
{
    if k < 0 || k >= cs.len() {
        Seq::empty()
    } else {
        seq![unplaced(cs[k])] + unplaced_from(cs, k + 1)
    }
}

/// Appending a placed node appends its view.
pub proof fn lemma_placeds_push(cs: Seq<PathDatom>, p: PathDatom)
    ensures
        placeds_view(cs.push(p)) == placeds_view(cs).push(p@),
{
    lemma_placeds_view(cs);
    lemma_placeds_view(cs.push(p));
    assert(placeds_view(cs.push(p)) =~= placeds_view(cs).push(p@));
}

/// The datom placed at a path.
pub fn place(d: &Datom, at: Vec<i64>) -> (p: PathDatom)
    ensures
        p@ == placed(d@, at@),
    decreases d,
{
    match d {
        Datom::Variant(h, b) => {
            let mut child = at.clone();
            child.push(1);
            let body = place(b, child);
            PathDatom { path: at, form: Form::Variant(h.clone(), Box::new(body)) }
        },
        Datom::Struct(ds) => {
            let ps = place_all(ds, &at);
            PathDatom { path: at, form: Form::Struct(ps) }
        },
        Datom::Vector(ds) => {
            let ps = place_all(ds, &at);
            PathDatom { path: at, form: Form::Vector(ps) }
        },
        Datom::Mapping(ds) => {
            let ps = place_all(ds, &at);
            PathDatom { path: at, form: Form::Mapping(ps) }
        },
        Datom::Text(t) => PathDatom { path: at, form: Form::String(t.clone()) },
        Datom::Meaning(t) => PathDatom { path: at, form: Form::Meaning(t.clone()) },
        Datom::Word(w) => PathDatom { path: at, form: Form::Bare(w.clone()) },
    }
}

/// The datoms placed each at its own child of a path.
fn place_all(ds: &Vec<Datom>, at: &Vec<i64>) -> (ps: Vec<PathDatom>)
    ensures
        placeds_view(ps@) == placed_from(datoms_view(ds@), at@, 0),
    decreases ds,
{
    let ghost dv = datoms_view(ds@);
    proof {
        lemma_datoms_view(ds@);
        lemma_placed_from(dv, at@, 0);
    }
    let mut ps: Vec<PathDatom> = Vec::new();
    let mut k: usize = 0;
    proof {
        lemma_placeds_view(ps@);
    }
    while k < ds.len()
        invariant
            0 <= k <= ds.len(),
            ds.len() <= usize::MAX,
            dv == datoms_view(ds@),
            dv.len() == ds.len(),
            forall|j: int| 0 <= j < ds.len() ==> #[trigger] dv[j] == ds@[j]@,
            placed_from(dv, at@, 0).len() == dv.len(),
            forall|j: int|
                0 <= j < dv.len() ==> #[trigger] placed_from(dv, at@, 0)[j] == placed(
                    dv[j],
                    at@.push(j as i64),
                ),
            placeds_view(ps@) =~= placed_from(dv, at@, 0).subrange(0, k as int),
        decreases ds.len() - k,
    {
        let mut child = at.clone();
        child.push(k as i64);
        let p = place(&ds[k], child);
        proof {
            lemma_placeds_push(ps@, p);
        }
        ps.push(p);
        k = k + 1;
    }
    assert(placed_from(dv, at@, 0).subrange(0, ds.len() as int) =~= placed_from(dv, at@, 0));
    ps
}

// ----- the law -----

/// Every node of a placed datom carries the path it sits at, and forgetting
/// the paths gives the datom back.
pub proof fn lemma_placed_sits(d: SpecDatom, at: Seq<i64>)
    ensures
        sits_at(placed(d, at), at),
        unplaced(placed(d, at)) == d,
    decreases d, 0int,
{
    match d {
        SpecDatom::Variant(h, b) => {
            lemma_placed_sits(*b, at.push(1));
        },
        SpecDatom::Struct(ds) => {
            lemma_placed_all_sit(ds, at, 0);
            assert(ds.subrange(0, ds.len() as int) =~= ds);
        },
        SpecDatom::Vector(ds) => {
            lemma_placed_all_sit(ds, at, 0);
            assert(ds.subrange(0, ds.len() as int) =~= ds);
        },
        SpecDatom::Mapping(ds) => {
            lemma_placed_all_sit(ds, at, 0);
            assert(ds.subrange(0, ds.len() as int) =~= ds);
        },
        _ => {},
    }
}

/// The placed datoms from the `k`-th on sit at their own children of the
/// path, and stand for those datoms.
proof fn lemma_placed_all_sit(ds: Seq<SpecDatom>, at: Seq<i64>, k: int)
    requires
        0 <= k <= ds.len(),
    ensures
        all_sit_from(placed_from(ds, at, 0), at, k),
        unplaced_from(placed_from(ds, at, 0), k) == ds.subrange(k, ds.len() as int),
    decreases ds, ds.len() - k,
{
    lemma_placed_from(ds, at, 0);
    let cs = placed_from(ds, at, 0);
    if k < ds.len() {
        assert(cs[k] == placed(ds[k], at.push(k as i64)));
        lemma_placed_sits(ds[k], at.push(k as i64));
        lemma_placed_all_sit(ds, at, k + 1);
        assert(ds.subrange(k, ds.len() as int) =~= seq![ds[k]] + ds.subrange(
            k + 1,
            ds.len() as int,
        ));
    } else {
        assert(ds.subrange(k, ds.len() as int) =~= Seq::<SpecDatom>::empty());
    }
}

// ----- the kind -----

/// The kind a value bears to be written as a datom whose every node carries
/// the path it sits at.
pub trait Datomizable {
    /// What the value becomes.
    type Output;

    /// The value's placed datom, rooted at `at`.
    fn datomize(&self, at: Vec<i64>) -> Self::Output;
}

impl<T: Datomic> Datomizable for T {
    type Output = PathDatom;

    fn datomize(&self, at: Vec<i64>) -> (p: PathDatom)
        ensures
            p@ == placed(T::concept(self.model()), at@),
    {
        let d = self.conceive();
        place(&d, at)
    }
}

} // verus!

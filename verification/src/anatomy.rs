//! The types of the dialect: the concept, the meaning, and the faults.

use vstd::prelude::*;

use vstd::std_specs::cmp::PartialEqSpecImpl;

use crate::form::Extent;
use crate::protosization::{is_word_run, word_run};
use crate::reader::StructuralFault;

verus! {

/// The datom concept: what a protoform means in the dialect, before a type is known.
#[derive(Debug)]
pub enum Datom {
    /// A head, the dot, and a body: a variant carrying data.
    Variant(String, Box<Datom>),
    /// Positional fields between braces.
    Struct(Vec<Datom>),
    /// Elements between brackets.
    Vector(Vec<Datom>),
    /// Entries between guillemets.
    Mapping(Vec<Datom>),
    /// Quoted text.
    Text(String),
    /// Parenthesized meaning.
    Meaning(String),
    /// A bare word: the position decides what it is.
    Word(String),
}

/// The mathematical datom.
pub enum SpecDatom {
    Variant(Seq<char>, Box<SpecDatom>),
    Struct(Seq<SpecDatom>),
    Vector(Seq<SpecDatom>),
    Mapping(Seq<SpecDatom>),
    Text(Seq<char>),
    Meaning(Seq<char>),
    Word(Seq<char>),
}

impl View for Datom {
    type V = SpecDatom;

    open spec fn view(&self) -> SpecDatom
        decreases self,
    {
        match self {
            Datom::Variant(h, b) => SpecDatom::Variant(h@, Box::new((**b).view())),
            Datom::Struct(cs) => SpecDatom::Struct(datoms_view(cs@)),
            Datom::Vector(cs) => SpecDatom::Vector(datoms_view(cs@)),
            Datom::Mapping(cs) => SpecDatom::Mapping(datoms_view(cs@)),
            Datom::Text(t) => SpecDatom::Text(t@),
            Datom::Meaning(t) => SpecDatom::Meaning(t@),
            Datom::Word(w) => SpecDatom::Word(w@),
        }
    }
}

/// The mathematical datoms of a sequence of datoms.
pub open spec fn datoms_view(cs: Seq<Datom>) -> Seq<SpecDatom>
    decreases cs,
{
    if cs.len() == 0 {
        Seq::empty()
    } else {
        seq![cs[0].view()] + datoms_view(cs.drop_first())
    }
}

/// The view of a sequence of datoms has one entry for each.
pub proof fn lemma_datoms_view(cs: Seq<Datom>)
    ensures
        datoms_view(cs).len() == cs.len(),
        forall|i: int| 0 <= i < cs.len() ==> #[trigger] datoms_view(cs)[i] == cs[i]@,
    decreases cs.len(),
{
    if cs.len() > 0 {
        lemma_datoms_view(cs.drop_first());
        assert(datoms_view(cs) == seq![cs[0]@] + datoms_view(cs.drop_first()));
        assert forall|i: int| 0 <= i < cs.len() implies #[trigger] datoms_view(cs)[i] == cs[i]@ by {
            if i > 0 {
                assert(datoms_view(cs)[i] == datoms_view(cs.drop_first())[i - 1]);
            }
        }
    }
}

/// Appending a datom appends its view.
pub proof fn lemma_datoms_push(cs: Seq<Datom>, d: Datom)
    ensures
        datoms_view(cs.push(d)) == datoms_view(cs).push(d@),
{
    lemma_datoms_view(cs);
    lemma_datoms_view(cs.push(d));
    assert(datoms_view(cs.push(d)) =~= datoms_view(cs).push(d@));
}

impl Clone for Datom {
    fn clone(&self) -> (c: Datom)
        ensures
            c@ == self@,
    {
        crate::copying::copy_datom(self)
    }
}

/// The number of nodes of a datom.
pub open spec fn datom_size(d: SpecDatom) -> nat
    decreases d, 0int,
{
    match d {
        SpecDatom::Variant(_, b) => 1 + datom_size(*b),
        SpecDatom::Struct(ds) => 1 + sizes_upto(ds, ds.len() as int),
        SpecDatom::Vector(ds) => 1 + sizes_upto(ds, ds.len() as int),
        SpecDatom::Mapping(ds) => 1 + sizes_upto(ds, ds.len() as int),
        _ => 1,
    }
}

/// The number of nodes of the first `k` datoms.
pub open spec fn sizes_upto(ds: Seq<SpecDatom>, k: int) -> nat
    decreases ds, k,
{
    if k <= 0 || k > ds.len() {
        0
    } else {
        sizes_upto(ds, k - 1) + datom_size(ds[k - 1])
    }
}

/// The views of pairs of datoms.
pub open spec fn pairs_view<'a>(w: Seq<(&'a Datom, &'a Datom)>) -> Seq<(SpecDatom, SpecDatom)> {
    w.map_values(|p: (&'a Datom, &'a Datom)| (p.0@, p.1@))
}

/// Whether every pair is of the same datom twice.
pub open spec fn all_same(w: Seq<(SpecDatom, SpecDatom)>) -> bool {
    forall|i: int| 0 <= i < w.len() ==> #[trigger] w[i].0 == w[i].1
}

/// The nodes still to compare: those of the first datom of each pair.
pub open spec fn pending(w: Seq<(SpecDatom, SpecDatom)>) -> nat
    decreases w.len(),
{
    if w.len() == 0 {
        0
    } else {
        pending(w.drop_last()) + datom_size(w.last().0)
    }
}

/// Puts the pairs of corresponding children on the work list, last first.
fn push_pairs<'a>(work: &mut Vec<(&'a Datom, &'a Datom)>, xs: &'a Vec<Datom>, ys: &'a Vec<Datom>)
    requires
        xs.len() == ys.len(),
    ensures
        all_same(pairs_view(final(work)@)) == (all_same(pairs_view(old(work)@)) && datoms_view(xs@)
            == datoms_view(ys@)),
        pending(pairs_view(final(work)@)) == pending(pairs_view(old(work)@)) + sizes_upto(
            datoms_view(xs@),
            xs.len() as int,
        ),
{
    let ghost w0 = pairs_view(work@);
    let ghost dv = datoms_view(xs@);
    let ghost ev = datoms_view(ys@);
    proof {
        lemma_datoms_view(xs@);
        lemma_datoms_view(ys@);
    }
    let mut k: usize = 0;
    while k < xs.len()
        invariant
            0 <= k <= xs.len(),
            xs.len() == ys.len(),
            dv == datoms_view(xs@),
            ev == datoms_view(ys@),
            dv.len() == xs.len(),
            ev.len() == ys.len(),
            forall|j: int| 0 <= j < xs.len() ==> #[trigger] dv[j] == xs@[j]@,
            forall|j: int| 0 <= j < ys.len() ==> #[trigger] ev[j] == ys@[j]@,
            pairs_view(work@).len() == w0.len() + k,
            forall|j: int| 0 <= j < w0.len() ==> #[trigger] pairs_view(work@)[j] == w0[j],
            forall|j: int|
                0 <= j < k ==> #[trigger] pairs_view(work@)[w0.len() + j] == (
                    dv[xs.len() - 1 - j],
                    ev[xs.len() - 1 - j],
                ),
            pending(pairs_view(work@)) == pending(w0) + sizes_upto(dv, xs.len() as int)
                - sizes_upto(dv, xs.len() - k),
            sizes_upto(dv, xs.len() - k) <= sizes_upto(dv, xs.len() as int),
        decreases xs.len() - k,
    {
        let i = xs.len() - 1 - k;
        let ghost before = pairs_view(work@);
        work.push((&xs[i], &ys[i]));
        proof {
            assert(pairs_view(work@).drop_last() =~= before);
            assert(pairs_view(work@).last() == (dv[i as int], ev[i as int]));
            assert forall|j: int| 0 <= j < before.len() implies #[trigger] pairs_view(work@)[j]
                == before[j] by {
                assert(pairs_view(work@).drop_last()[j] == before[j]);
            }
            assert(sizes_upto(dv, i + 1) == sizes_upto(dv, i as int) + datom_size(dv[i as int]));
        }
        k = k + 1;
    }
    proof {
        let w1 = pairs_view(work@);
        let n = xs.len() as int;
        if dv == ev {
            if all_same(w0) {
                assert forall|j: int| 0 <= j < w1.len() implies #[trigger] w1[j].0 == w1[j].1 by {
                    if j < w0.len() {
                        assert(w1[j] == w0[j]);
                    } else {
                        assert(w1[w0.len() + (j - w0.len())] == (dv[n - 1 - (j - w0.len())], ev[n
                            - 1 - (j - w0.len())]));
                    }
                }
            }
        }
        if all_same(w1) {
            assert forall|j: int| 0 <= j < w0.len() implies #[trigger] w0[j].0 == w0[j].1 by {
                assert(w1[j] == w0[j]);
            }
            assert forall|j: int| 0 <= j < n implies dv[j] == ev[j] by {
                let ii = w0.len() + (n - 1 - j);
                assert(w1[ii] == (dv[n - 1 - (n - 1 - j)], ev[n - 1 - (n - 1 - j)]));
                assert(w1[ii].0 == w1[ii].1);
            }
            assert(dv =~= ev);
        }
    }
}

/// Whether two datoms are the same datom, compared node by node with a work
/// list rather than by recursion, so that no depth of nesting exhausts the stack.
pub fn same_datom(a: &Datom, b: &Datom) -> (r: bool)
    ensures
        r == (a@ == b@),
{
    let mut work: Vec<(&Datom, &Datom)> = Vec::new();
    work.push((a, b));
    proof {
        let w = pairs_view(work@);
        assert(w.len() == 1);
        assert(w[0] == (a@, b@));
        if a@ == b@ {
            assert forall|i: int| 0 <= i < w.len() implies #[trigger] w[i].0 == w[i].1 by {
                assert(i == 0);
            }
        }
        if all_same(w) {
            assert(w[0].0 == w[0].1);
        }
    }
    while work.len() > 0
        invariant
            (a@ == b@) == all_same(pairs_view(work@)),
        decreases pending(pairs_view(work@)),
    {
        let ghost before = pairs_view(work@);
        let pair = work.pop().unwrap();
        let (x, y) = pair;
        let ghost rest = pairs_view(work@);
        proof {
            assert(before.drop_last() =~= rest);
            assert(before.last() == (x@, y@));
            assert(pending(before) == pending(rest) + datom_size(x@));
            assert(all_same(before) == (x@ == y@ && all_same(rest))) by {
                if all_same(rest) && x@ == y@ {
                    assert forall|i: int| 0 <= i < before.len() implies #[trigger] before[i].0
                        == before[i].1 by {
                        if i < rest.len() {
                            assert(before[i] == rest[i]);
                        }
                    }
                }
                if all_same(before) {
                    assert(before[before.len() - 1].0 == before[before.len() - 1].1);
                    assert forall|i: int| 0 <= i < rest.len() implies #[trigger] rest[i].0
                        == rest[i].1 by {
                        assert(before[i] == rest[i]);
                    }
                }
            }
        }
        match (x, y) {
            (Datom::Variant(h, bx), Datom::Variant(k, by)) => {
                if *h != *k {
                    return false;
                }
                work.push((&**bx, &**by));
                proof {
                    assert(x@ == SpecDatom::Variant(h@, Box::new((**bx)@)));
                    assert(datom_size(x@) == 1 + datom_size((**bx)@));
                    assert(pending(pairs_view(work@)) == pending(rest) + datom_size((**bx)@)) by {
                        assert(pairs_view(work@).drop_last() =~= rest);
                    }
                    assert(pairs_view(work@).drop_last() =~= rest);
                    assert(pairs_view(work@).last() == ((**bx)@, (**by)@));
                    assert(all_same(pairs_view(work@)) == ((**bx)@ == (**by)@ && all_same(rest)))
                        by {
                        let w = pairs_view(work@);
                        if all_same(w) {
                            assert(w[w.len() - 1].0 == w[w.len() - 1].1);
                            assert forall|i: int| 0 <= i < rest.len() implies #[trigger] rest[i].0
                                == rest[i].1 by {
                                assert(w[i] == rest[i]);
                            }
                        }
                        if all_same(rest) && (**bx)@ == (**by)@ {
                            assert forall|i: int| 0 <= i < w.len() implies #[trigger] w[i].0
                                == w[i].1 by {
                                if i < rest.len() {
                                    assert(w[i] == rest[i]);
                                }
                            }
                        }
                    }
                }
            },
            (Datom::Struct(xs), Datom::Struct(ys)) => {
                proof {
                    lemma_datoms_view(xs@);
                    lemma_datoms_view(ys@);
                }
                if xs.len() != ys.len() {
                    return false;
                }
                push_pairs(&mut work, xs, ys);
                proof {
                    assert(x@ == SpecDatom::Struct(datoms_view(xs@)));
                    assert(datom_size(x@) == 1 + sizes_upto(datoms_view(xs@), xs.len() as int));
                }
            },
            (Datom::Vector(xs), Datom::Vector(ys)) => {
                proof {
                    lemma_datoms_view(xs@);
                    lemma_datoms_view(ys@);
                }
                if xs.len() != ys.len() {
                    return false;
                }
                push_pairs(&mut work, xs, ys);
                proof {
                    assert(x@ == SpecDatom::Vector(datoms_view(xs@)));
                    assert(datom_size(x@) == 1 + sizes_upto(datoms_view(xs@), xs.len() as int));
                }
            },
            (Datom::Mapping(xs), Datom::Mapping(ys)) => {
                proof {
                    lemma_datoms_view(xs@);
                    lemma_datoms_view(ys@);
                }
                if xs.len() != ys.len() {
                    return false;
                }
                push_pairs(&mut work, xs, ys);
                proof {
                    assert(x@ == SpecDatom::Mapping(datoms_view(xs@)));
                    assert(datom_size(x@) == 1 + sizes_upto(datoms_view(xs@), xs.len() as int));
                }
            },
            (Datom::Text(t), Datom::Text(u)) => {
                if *t != *u {
                    return false;
                }
            },
            (Datom::Meaning(t), Datom::Meaning(u)) => {
                if *t != *u {
                    return false;
                }
            },
            (Datom::Word(t), Datom::Word(u)) => {
                if *t != *u {
                    return false;
                }
            },
            _ => {
                return false;
            },
        }
    }
    true
}

impl PartialEq for Datom {
    fn eq(&self, other: &Datom) -> (r: bool) {
        same_datom(self, other)
    }
}

impl PartialEqSpecImpl for Datom {
    open spec fn obeys_eq_spec() -> bool {
        true
    }

    open spec fn eq_spec(&self, other: &Datom) -> bool {
        self@ == other@
    }
}

impl Eq for Datom {

}

/// A structured string; today a plain text.
#[derive(Clone, Debug, PartialEq, Eq)]
pub enum Meaning {
    /// Plain text.
    Plain(String),
}

/// What a position expected.
#[derive(Clone, Copy, Debug, PartialEq, Eq, Hash, Structural)]
pub enum Expected {
    /// A variant carrying data.
    Variant,
    /// A struct.
    Struct,
    /// A vector.
    Vector,
    /// A map.
    Mapping,
    /// Text, bare or quoted.
    Text,
    /// A meaning.
    Meaning,
    /// An integer.
    Integer,
    /// A decimal.
    Decimal,
    /// A boolean.
    Boolean,
    /// A bare word: a variant carrying nothing.
    Word,
}

/// What a position found.
#[derive(Clone, Copy, Debug, PartialEq, Eq, Hash, Structural)]
pub enum Found {
    /// A variant carrying data.
    Variant,
    /// A struct.
    Struct,
    /// A vector.
    Vector,
    /// A map.
    Mapping,
    /// Quoted text.
    Text,
    /// A meaning.
    Meaning,
    /// A bare word.
    Word,
    /// An angled enclosure: no datom form.
    Angled,
    /// A qualified head: no datom form.
    Qualified,
    /// A headed structure with a separator other than the dot whose chain is not all words.
    Chain,
}

/// A bare word: a non-empty run of word glyphs.
#[derive(Debug, PartialEq, Eq)]
pub struct Word {
    text: String,
}

impl View for Word {
    type V = Seq<char>;

    closed spec fn view(&self) -> Seq<char> {
        self.text@
    }
}

impl Word {
    #[verifier::type_invariant]
    closed spec fn is_a_word(&self) -> bool {
        word_run(self.text@)
    }

    /// The word a text spells; `None` when the text is not a run of word glyphs.
    pub fn new(text: String) -> (r: Option<Word>)
        ensures
            word_run(text@) <==> r is Some,
            r matches Some(w) ==> w@ == text@,
    {
        if is_word_run(&text) {
            Some(Word { text })
        } else {
            None
        }
    }

    /// The word's text.
    pub fn as_string(&self) -> (s: &String)
        ensures
            s@ == self@,
            word_run(self@),
    {
        proof {
            use_type_invariant(self);
        }
        &self.text
    }

    /// The word's text.
    pub fn as_str(&self) -> (s: &str)
        ensures
            s@ == self@,
            word_run(self@),
    {
        proof {
            use_type_invariant(self);
        }
        self.text.as_str()
    }
}

impl Clone for Word {
    fn clone(&self) -> (c: Word)
        ensures
            c@ == self@,
    {
        proof {
            use_type_invariant(self);
        }
        Word { text: self.text.clone() }
    }
}

/// The problem of a name that is not one of a type's variants: the unknown
/// variant when the name is a word, the name as a value otherwise.
pub open spec fn unknown(name: Seq<char>) -> SpecProblem {
    if word_run(name) {
        SpecProblem::UnknownVariant(name)
    } else {
        SpecProblem::Value(name)
    }
}

/// The problem of a name that is not one of a type's variants.
pub fn unknown_variant(name: &String) -> (p: Problem)
    ensures
        p@ == unknown(name@),
{
    match Word::new(name.clone()) {
        Some(w) => Problem::UnknownVariant(w),
        None => Problem::Value(name.clone()),
    }
}

/// The names a problem holds are words.
pub open spec fn problem_sound(p: SpecProblem) -> bool {
    match p {
        SpecProblem::UnknownVariant(n) => word_run(n),
        SpecProblem::DuplicateKey(k) => word_run(k),
        _ => true,
    }
}

/// What can go wrong between the protoform and the corporate value.
#[derive(Clone, Debug, PartialEq, Eq)]
pub enum Problem {
    /// The position expected one form and found another.
    Shape(Expected, Found),
    /// The struct has the wrong number of positions: expected, found.
    Arity(i64, i64),
    /// The variant name is not one of the type's.
    UnknownVariant(Word),
    /// The word is not a value of the scalar.
    Value(String),
    /// A structure with no datom form.
    Formless(Found),
    /// The text holds this many top-level structures, not one.
    OneValue(i64),
    /// A positional reader was asked for an absent position.
    Exhausted,
    /// The caller's incorporation allowance is exhausted.
    BudgetExhausted,
    /// A keyed map names this key twice.
    DuplicateKey(Word),
}

/// The mathematical problem.
pub enum SpecProblem {
    Shape(Expected, Found),
    Arity(i64, i64),
    UnknownVariant(Seq<char>),
    Value(Seq<char>),
    Formless(Found),
    OneValue(i64),
    Exhausted,
    BudgetExhausted,
    DuplicateKey(Seq<char>),
}

impl View for Problem {
    type V = SpecProblem;

    open spec fn view(&self) -> SpecProblem {
        match self {
            Problem::Shape(e, f) => SpecProblem::Shape(*e, *f),
            Problem::Arity(e, f) => SpecProblem::Arity(*e, *f),
            Problem::UnknownVariant(w) => SpecProblem::UnknownVariant(w@),
            Problem::Value(v) => SpecProblem::Value(v@),
            Problem::Formless(f) => SpecProblem::Formless(*f),
            Problem::OneValue(n) => SpecProblem::OneValue(*n),
            Problem::Exhausted => SpecProblem::Exhausted,
            Problem::BudgetExhausted => SpecProblem::BudgetExhausted,
            Problem::DuplicateKey(k) => SpecProblem::DuplicateKey(k@),
        }
    }
}

/// The layer of the descent a fault comes from.
#[derive(Clone, Copy, Debug, PartialEq, Eq, Hash, Structural)]
pub enum ErrorLayer {
    /// The text has no structure.
    Protos,
    /// The structure has no datom form.
    Datom,
    /// The datom is not a value of the type.
    Composition,
}

/// Where a fault is: its path from the root datom, and its extent in the text.
#[derive(Clone, Debug, PartialEq, Eq)]
pub struct Locus {
    /// The path from the root datom.
    pub path: Vec<i64>,
    /// The span in the text.
    pub extent: Extent,
}

/// A fault of the descent, at the layer that raised it.
#[derive(Clone, Debug, PartialEq, Eq)]
pub enum Fault {
    /// The text has no structure.
    Unstructured(StructuralFault),
    /// The structure has no datom form.
    Conceptual(Locus, Problem),
    /// The datom is not a value of the type.
    Corporate(Locus, Problem),
}

/// The mathematical fault.
pub enum SpecFault {
    Unstructured(StructuralFault),
    Conceptual(Seq<i64>, Extent, SpecProblem),
    Corporate(Seq<i64>, Extent, SpecProblem),
}

impl View for Fault {
    type V = SpecFault;

    open spec fn view(&self) -> SpecFault {
        match self {
            Fault::Unstructured(f) => SpecFault::Unstructured(*f),
            Fault::Conceptual(l, p) => SpecFault::Conceptual(l.path@, l.extent, p@),
            Fault::Corporate(l, p) => SpecFault::Corporate(l.path@, l.extent, p@),
        }
    }
}

/// The fault one level further from the root: the index is put before its path.
pub open spec fn within(f: SpecFault, index: int) -> SpecFault {
    match f {
        SpecFault::Unstructured(s) => SpecFault::Unstructured(s),
        SpecFault::Conceptual(p, e, q) => SpecFault::Conceptual(seq![index as i64] + p, e, q),
        SpecFault::Corporate(p, e, q) => SpecFault::Corporate(seq![index as i64] + p, e, q),
    }
}

/// The path of a fault from the root datom.
pub open spec fn fault_path(f: SpecFault) -> Seq<i64> {
    match f {
        SpecFault::Unstructured(_) => Seq::empty(),
        SpecFault::Conceptual(p, _, _) => p,
        SpecFault::Corporate(p, _, _) => p,
    }
}

/// The layer a fault comes from.
pub open spec fn layer_of(f: SpecFault) -> ErrorLayer {
    match f {
        SpecFault::Unstructured(_) => ErrorLayer::Protos,
        SpecFault::Conceptual(..) => ErrorLayer::Datom,
        SpecFault::Corporate(..) => ErrorLayer::Composition,
    }
}

impl Fault {
    /// The layer the fault comes from.
    pub fn layer(&self) -> (l: ErrorLayer)
        ensures
            l == layer_of(self@),
    {
        match self {
            Fault::Unstructured(_) => ErrorLayer::Protos,
            Fault::Conceptual(..) => ErrorLayer::Datom,
            Fault::Corporate(..) => ErrorLayer::Composition,
        }
    }

    /// The path of the fault from the root datom.
    pub fn path(&self) -> (p: Vec<i64>)
        ensures
            p@ == fault_path(self@),
    {
        match self {
            Fault::Unstructured(_) => Vec::new(),
            Fault::Conceptual(l, _) => l.path.clone(),
            Fault::Corporate(l, _) => l.path.clone(),
        }
    }

    /// The fault as seen from the parent: the index is put before its path.
    pub fn within(self, index: i64) -> (f: Fault)
        ensures
            f@ == within(self@, index as int),
    {
        match self {
            Fault::Unstructured(s) => Fault::Unstructured(s),
            Fault::Conceptual(l, p) => {
                let mut path = l.path;
                path.insert(0, index);
                assert(path@ =~= seq![index] + l.path@);
                Fault::Conceptual(Locus { path, extent: l.extent }, p)
            },
            Fault::Corporate(l, p) => {
                let mut path = l.path;
                path.insert(0, index);
                assert(path@ =~= seq![index] + l.path@);
                Fault::Corporate(Locus { path, extent: l.extent }, p)
            },
        }
    }
}

/// Caller-owned allowance for corporate incorporation: one unit for each value read.
#[derive(Clone, Copy, Debug, PartialEq, Eq)]
pub struct IncorporationBudget {
    remaining: i64,
}

impl View for IncorporationBudget {
    type V = nat;

    closed spec fn view(&self) -> nat {
        self.remaining as nat
    }
}

impl IncorporationBudget {
    #[verifier::type_invariant]
    closed spec fn non_negative(&self) -> bool {
        self.remaining >= 0
    }

    /// An allowance of `value` units; `None` when `value` is negative.
    pub fn new(value: i64) -> (r: Option<IncorporationBudget>)
        ensures
            value >= 0 <==> r is Some,
            r matches Some(b) ==> b@ == value,
    {
        if value >= 0 {
            Some(IncorporationBudget { remaining: value })
        } else {
            None
        }
    }

    /// The units left.
    pub fn remaining(&self) -> (n: i64)
        ensures
            n == self@,
    {
        proof {
            use_type_invariant(self);
        }
        self.remaining
    }

    /// Spends one unit: `false`, spending nothing, when none is left.
    pub fn consume(&mut self) -> (spent: bool)
        ensures
            spent == (old(self)@ > 0),
            final(self)@ == if old(self)@ > 0 {
                (old(self)@ - 1) as nat
            } else {
                old(self)@
            },
    {
        proof {
            use_type_invariant(&*self);
        }
        if self.remaining == 0 {
            false
        } else {
            self.remaining = self.remaining - 1;
            true
        }
    }
}

} // verus!

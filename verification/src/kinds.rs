//! The kinds of the dialect: what a corporate type bears, and the reader it is handed.

use vstd::prelude::*;

use crate::anatomy::{
    datoms_view, lemma_datoms_view, within, Datom, Expected, Fault, Found, IncorporationBudget,
    Locus, Problem, SpecDatom, SpecFault, SpecProblem,
};
use crate::conception::{count_of, counted, extent_of, part, part_at};
use crate::form::{Situation, SpecSituation};
use crate::glyph::string_of;
use crate::protosization::{carriable, protosized, settled, textualize_datom};
use crate::writer::written;

verus! {

/// The form a position finds a datom in.
pub open spec fn found_of(d: SpecDatom) -> Found {
    match d {
        SpecDatom::Variant(..) => Found::Variant,
        SpecDatom::Struct(_) => Found::Struct,
        SpecDatom::Vector(_) => Found::Vector,
        SpecDatom::Mapping(_) => Found::Mapping,
        SpecDatom::Text(_) => Found::Text,
        SpecDatom::Meaning(_) => Found::Meaning,
        SpecDatom::Word(_) => Found::Word,
    }
}

/// A corporate fault at a situation: the problem at its extent, on the empty path.
pub open spec fn refusal(at: SpecSituation, p: SpecProblem) -> SpecFault {
    SpecFault::Corporate(Seq::empty(), extent_of(at), p)
}

/// A variant's body made unambiguous after its head: a word that would blur
/// the variant's boundary is carried as quoted text.
pub open spec fn carried(d: SpecDatom) -> SpecDatom {
    match d {
        SpecDatom::Word(w) => if carriable(d) {
            d
        } else {
            SpecDatom::Text(w)
        },
        _ => d,
    }
}

/// The word of a bare word, or of a chain of words rejoined with the dot.
pub open spec fn rejoined(d: SpecDatom) -> Option<Seq<char>>
    decreases d,
{
    match d {
        SpecDatom::Word(w) => Some(w),
        SpecDatom::Variant(h, b) => match rejoined(*b) {
            Some(r) => Some(h.push('.') + r),
            None => None,
        },
        _ => None,
    }
}

/// The word at a position expecting a scalar.
pub open spec fn worded(d: SpecDatom, at: SpecSituation, expected: Expected) -> Result<
    Seq<char>,
    SpecFault,
> {
    match rejoined(d) {
        Some(w) => Ok(w),
        None => Err(refusal(at, SpecProblem::Shape(expected, found_of(d)))),
    }
}

/// The text at a position expecting text: quoted text, a word, or a chain of words rejoined.
pub open spec fn texted(d: SpecDatom, at: SpecSituation) -> Result<Seq<char>, SpecFault> {
    match d {
        SpecDatom::Text(t) => Ok(t),
        _ => worded(d, at, Expected::Text),
    }
}

/// The fields of a struct of exactly `arity` positions.
pub open spec fn fields(d: SpecDatom, at: SpecSituation, arity: int) -> Result<
    Seq<SpecDatom>,
    SpecFault,
> {
    match d {
        SpecDatom::Struct(ds) => if ds.len() == arity {
            Ok(ds)
        } else {
            Err(refusal(at, SpecProblem::Arity(arity as i64, counted(ds.len() as int) as i64)))
        },
        _ => Err(refusal(at, SpecProblem::Shape(Expected::Struct, found_of(d)))),
    }
}

/// The elements of a vector.
pub open spec fn elements_of(d: SpecDatom, at: SpecSituation) -> Result<Seq<SpecDatom>, SpecFault> {
    match d {
        SpecDatom::Vector(ds) => Ok(ds),
        _ => Err(refusal(at, SpecProblem::Shape(Expected::Vector, found_of(d)))),
    }
}

/// A variant: its name, and its body when it carries one.
pub open spec fn variant_of(d: SpecDatom, at: SpecSituation) -> Result<
    (Seq<char>, Option<SpecDatom>),
    SpecFault,
> {
    match d {
        SpecDatom::Word(w) => Ok((w, None)),
        SpecDatom::Variant(h, b) => Ok((h, Some(*b))),
        _ => Err(refusal(at, SpecProblem::Shape(Expected::Variant, found_of(d)))),
    }
}

/// The outcome of a reader, as mathematics sees it.
pub open spec fn outcome<T: Datomic>(r: Result<T, Fault>) -> Result<T::Model, SpecFault> {
    match r {
        Ok(v) => Ok(v.model()),
        Err(e) => Err(e@),
    }
}

/// Reading a datom as a `T`, after spending one unit of the budget for it.
pub open spec fn incorporated<T: Datomic>(d: SpecDatom, at: SpecSituation, budget: nat) -> (
    Result<T::Model, SpecFault>,
    nat,
) {
    if budget == 0 {
        (Err(refusal(at, SpecProblem::BudgetExhausted)), 0)
    } else {
        T::reading(d, at, (budget - 1) as nat)
    }
}

/// Reading the position `k` of a struct or a vector as a `T`; a fault there is
/// put at the position, and at the variant body when the positions are inline.
pub open spec fn positioned<T: Datomic>(
    ds: Seq<SpecDatom>,
    at: SpecSituation,
    k: int,
    body: bool,
    budget: nat,
) -> (Result<T::Model, SpecFault>, nat) {
    if k < 0 || k >= ds.len() {
        (Err(refusal(at, SpecProblem::Exhausted)), budget)
    } else {
        let (r, left) = incorporated::<T>(ds[k], part(at, k), budget);
        match r {
            Ok(m) => (Ok(m), left),
            Err(e) => (
                Err(
                    if body {
                        within(within(e, k), 1)
                    } else {
                        within(e, k)
                    },
                ),
                left,
            ),
        }
    }
}

/// Reading a variant's body as a `T`; a fault there is put at the body.
pub open spec fn bodied<T: Datomic>(body: Option<SpecDatom>, at: SpecSituation, budget: nat) -> (
    Result<T::Model, SpecFault>,
    nat,
) {
    match body {
        Some(b) => {
            let (r, left) = incorporated::<T>(b, part(at, 1), budget);
            match r {
                Ok(m) => (Ok(m), left),
                Err(e) => (Err(within(e, 1)), left),
            }
        },
        None => (Err(refusal(at, SpecProblem::Shape(Expected::Variant, Found::Word))), budget),
    }
}

/// The positions of a variant's body, as an inline struct of `arity` positions.
pub open spec fn inline_fields(body: Option<SpecDatom>, at: SpecSituation, arity: int) -> Result<
    Seq<SpecDatom>,
    SpecFault,
> {
    match body {
        Some(b) => match fields(b, part(at, 1), arity) {
            Ok(ds) => Ok(ds),
            Err(e) => Err(within(e, 1)),
        },
        None => Err(refusal(at, SpecProblem::Shape(Expected::Variant, Found::Word))),
    }
}

/// A variant that must carry nothing.
pub open spec fn bare_variant(body: Option<SpecDatom>, at: SpecSituation) -> Result<(), SpecFault> {
    match body {
        None => Ok(()),
        Some(_) => Err(refusal(at, SpecProblem::Shape(Expected::Word, Found::Variant))),
    }
}

/// The kind every corporate type of the dialect bears: it reads itself from
/// a datom at its situation, and writes itself as a datom.
pub trait Datomic: Sized {
    /// The value, as mathematics sees it.
    type Model;

    /// The model of a value.
    spec fn model(&self) -> Self::Model;

    /// The datom a value writes.
    spec fn concept(m: Self::Model) -> SpecDatom;

    /// What reading a datom at its situation gives, and the budget it leaves.
    spec fn reading(d: SpecDatom, at: SpecSituation, budget: nat) -> (
        Result<Self::Model, SpecFault>,
        nat,
    );

    /// The units that reading a value's datom spends.
    spec fn cost(m: Self::Model) -> nat;

    /// The models that values of the type have.
    spec fn sound(m: Self::Model) -> bool;

    /// The value, from a datom at its situation.
    fn incorporate(datom: &Datom, at: &Situation, budget: &mut IncorporationBudget) -> (r: Result<
        Self,
        Fault,
    >)
        ensures
            Self::reading(datom@, at@, old(budget)@) == (
                match r {
                    Ok(v) => Ok::<Self::Model, SpecFault>(v.model()),
                    Err(e) => Err(e@),
                },
                final(budget)@,
            ),
    ;

    /// The datom of the value; the value's model is one that values have.
    fn conceive(&self) -> (d: Datom)
        ensures
            d@ == Self::concept(self.model()),
            Self::sound(self.model()),
    ;

    /// The canonical text of the value: its datom, protosized and written.
    fn textualize(&self) -> (text: String)
        ensures
            text@ == written(protosized(Self::concept(self.model()))),
            Self::sound(self.model()),
    {
        let d = self.conceive();
        textualize_datom(&d)
    }

    /// A value's datom is settled, and reading it, carried or not, gives the
    /// value back and spends the value's cost.
    proof fn lemma_reads_back(m: Self::Model, at: SpecSituation, budget: nat)
        requires
            Self::sound(m),
            budget >= Self::cost(m),
        ensures
            settled(Self::concept(m)),
            Self::reading(Self::concept(m), at, budget) == (
                Ok::<Self::Model, SpecFault>(m),
                (budget - Self::cost(m)) as nat,
            ),
            Self::reading(carried(Self::concept(m)), at, budget) == (
                Ok::<Self::Model, SpecFault>(m),
                (budget - Self::cost(m)) as nat,
            ),
    ;
}

/// The value of a datom at its situation, after spending one unit of the
/// budget for it; refused when none is left.
pub fn corporate<T: Datomic>(datom: &Datom, at: &Situation, budget: &mut IncorporationBudget) -> (r:
    Result<T, Fault>)
    ensures
        incorporated::<T>(datom@, at@, old(budget)@) == (outcome::<T>(r), final(budget)@),
{
    if !budget.consume() {
        return Err(refuse_at(at, Problem::BudgetExhausted));
    }
    T::incorporate(datom, at, budget)
}

/// A corporate fault at a situation.
pub fn refuse_at(at: &Situation, problem: Problem) -> (f: Fault)
    ensures
        f@ == refusal(at@, problem@),
{
    let f = Fault::Corporate(Locus { path: Vec::new(), extent: at.extent }, problem);
    assert(f@->Corporate_0 =~= Seq::<i64>::empty());
    f
}

/// The form a datom is in.
pub fn found(d: &Datom) -> (f: Found)
    ensures
        f == found_of(d@),
{
    match d {
        Datom::Variant(..) => Found::Variant,
        Datom::Struct(_) => Found::Struct,
        Datom::Vector(_) => Found::Vector,
        Datom::Mapping(_) => Found::Mapping,
        Datom::Text(_) => Found::Text,
        Datom::Meaning(_) => Found::Meaning,
        Datom::Word(_) => Found::Word,
    }
}

/// Appends the glyphs of a string.
fn push_glyphs(out: &mut Vec<char>, s: &String)
    ensures
        final(out)@ == old(out)@ + s@,
{
    let cs = crate::glyph::chars_of(s.as_str());
    let mut k: usize = 0;
    while k < cs.len()
        invariant
            0 <= k <= cs.len(),
            cs@ == s@,
            out@ == old(out)@ + cs@.subrange(0, k as int),
        decreases cs.len() - k,
    {
        out.push(cs[k]);
        k = k + 1;
        assert(cs@.subrange(0, k as int) =~= cs@.subrange(0, k - 1).push(cs@[k - 1]));
    }
    assert(cs@.subrange(0, cs.len() as int) =~= cs@);
}

/// Appends the word of a datom that is a word or a chain of words, rejoined with the dot.
fn rejoin(d: &Datom, out: &mut Vec<char>) -> (joined: bool)
    ensures
        joined == rejoined(d@) is Some,
        joined ==> final(out)@ == old(out)@ + rejoined(d@)->0,
    decreases d,
{
    match d {
        Datom::Word(w) => {
            push_glyphs(out, w);
            true
        },
        Datom::Variant(h, b) => {
            push_glyphs(out, h);
            out.push('.');
            let joined = rejoin(b, out);
            proof {
                if joined {
                    assert(final(out)@ =~= old(out)@ + (h@.push('.') + rejoined(b@)->0));
                }
            }
            joined
        },
        _ => false,
    }
}

/// A datom at its situation: what a corporate reader is handed.
pub struct Site<'a> {
    /// The datom.
    pub datom: &'a Datom,
    /// Where it is.
    pub at: &'a Situation,
}

/// The positions of a struct or the elements of a vector, read in turn.
pub struct Positions<'a> {
    datoms: &'a Vec<Datom>,
    at: &'a Situation,
    index: usize,
    body: bool,
}

/// The positions as mathematics sees them: the datoms, where they are, the
/// index of the next one, and whether they are a variant's inline body.
pub struct SpecPositions {
    pub datoms: Seq<SpecDatom>,
    pub at: SpecSituation,
    pub index: int,
    pub body: bool,
}

impl<'a> View for Positions<'a> {
    type V = SpecPositions;

    closed spec fn view(&self) -> SpecPositions {
        SpecPositions {
            datoms: datoms_view(self.datoms@),
            at: self.at@,
            index: self.index as int,
            body: self.body,
        }
    }
}

/// A variant: its name, and its body if it carries one.
pub struct Variant<'a> {
    /// The variant's name.
    pub name: &'a String,
    body: Option<&'a Datom>,
    at: &'a Situation,
}

/// The variant as mathematics sees it.
pub struct SpecVariant {
    pub name: Seq<char>,
    pub body: Option<SpecDatom>,
    pub at: SpecSituation,
}

impl<'a> View for Variant<'a> {
    type V = SpecVariant;

    closed spec fn view(&self) -> SpecVariant {
        SpecVariant {
            name: self.name@,
            body: match self.body {
                Some(b) => Some(b@),
                None => None,
            },
            at: self.at@,
        }
    }
}

impl<'a> Site<'a> {
    /// The site of a datom at its situation.
    pub fn new(datom: &'a Datom, at: &'a Situation) -> (s: Site<'a>)
        ensures
            s.datom == datom,
            s.at == at,
    {
        Site { datom, at }
    }

    /// The form found here.
    pub fn found(&self) -> (f: Found)
        ensures
            f == found_of(self.datom@),
    {
        found(self.datom)
    }

    /// A corporate fault here.
    pub fn refuse(&self, problem: Problem) -> (f: Fault)
        ensures
            f@ == refusal(self.at@, problem@),
    {
        refuse_at(self.at, problem)
    }

    /// The positions of a struct of exactly this arity.
    pub fn positions(&self, arity: i64) -> (r: Result<Positions<'a>, Fault>)
        ensures
            match r {
                Ok(p) => fields(self.datom@, self.at@, arity as int) == Ok::<_, SpecFault>(
                    p@.datoms,
                ) && p@.at == self.at@ && p@.index == 0 && !p@.body,
                Err(e) => fields(self.datom@, self.at@, arity as int) == Err::<
                    Seq<SpecDatom>,
                    _,
                >(e@),
            },
    {
        match self.datom {
            Datom::Struct(ds) => {
                proof {
                    lemma_datoms_view(ds@);
                }
                if arity >= 0 && ds.len() as u64 == arity as u64 {
                    Ok(Positions { datoms: ds, at: self.at, index: 0, body: false })
                } else {
                    Err(self.refuse(Problem::Arity(arity, count_of(ds.len()))))
                }
            },
            _ => Err(self.refuse(Problem::Shape(Expected::Struct, self.found()))),
        }
    }

    /// The elements of a vector.
    pub fn elements(&self) -> (r: Result<Positions<'a>, Fault>)
        ensures
            match r {
                Ok(p) => elements_of(self.datom@, self.at@) == Ok::<_, SpecFault>(p@.datoms)
                    && p@.at == self.at@ && p@.index == 0 && !p@.body,
                Err(e) => elements_of(self.datom@, self.at@) == Err::<Seq<SpecDatom>, _>(e@),
            },
    {
        match self.datom {
            Datom::Vector(ds) => Ok(Positions { datoms: ds, at: self.at, index: 0, body: false }),
            _ => Err(self.refuse(Problem::Shape(Expected::Vector, self.found()))),
        }
    }

    /// The variant: a bare word, or a head with its body.
    pub fn variant(&self) -> (r: Result<Variant<'a>, Fault>)
        ensures
            match r {
                Ok(v) => variant_of(self.datom@, self.at@) == Ok::<_, SpecFault>(
                    (v@.name, v@.body),
                ) && v@.at == self.at@,
                Err(e) => variant_of(self.datom@, self.at@) == Err::<
                    (Seq<char>, Option<SpecDatom>),
                    _,
                >(e@),
            },
    {
        match self.datom {
            Datom::Word(w) => Ok(Variant { name: w, body: None, at: self.at }),
            Datom::Variant(h, b) => Ok(Variant { name: h, body: Some(&**b), at: self.at }),
            _ => Err(self.refuse(Problem::Shape(Expected::Variant, self.found()))),
        }
    }

    /// The bare word, or a chain of bare words rejoined, in a position expecting a scalar.
    pub fn word(&self, expected: Expected) -> (r: Result<String, Fault>)
        ensures
            worded(self.datom@, self.at@, expected) == match r {
                Ok(w) => Ok::<_, SpecFault>(w@),
                Err(e) => Err(e@),
            },
    {
        let mut out: Vec<char> = Vec::new();
        if rejoin(self.datom, &mut out) {
            assert(out@ =~= rejoined(self.datom@)->0);
            Ok(string_of(out.as_slice()))
        } else {
            Err(self.refuse(Problem::Shape(expected, self.found())))
        }
    }

    /// The text: quoted text, a word, or a chain of words rejoined.
    pub fn text(&self) -> (r: Result<String, Fault>)
        ensures
            texted(self.datom@, self.at@) == match r {
                Ok(w) => Ok::<_, SpecFault>(w@),
                Err(e) => Err(e@),
            },
    {
        match self.datom {
            Datom::Text(t) => Ok(t.clone()),
            _ => self.word(Expected::Text),
        }
    }
}

impl<'a> Positions<'a> {
    #[verifier::type_invariant]
    closed spec fn within_bounds(&self) -> bool {
        self.index <= self.datoms.len()
    }

    /// How many positions remain.
    pub fn remaining(&self) -> (n: i64)
        ensures
            0 <= self@.index <= self@.datoms.len(),
            n == counted(self@.datoms.len() - self@.index),
    {
        proof {
            use_type_invariant(self);
            lemma_datoms_view(self.datoms@);
        }
        count_of(self.datoms.len() - self.index)
    }

    /// The next position, as its type.
    pub fn position<T: Datomic>(&mut self, budget: &mut IncorporationBudget) -> (r: Result<
        T,
        Fault,
    >)
        ensures
            positioned::<T>(
                old(self)@.datoms,
                old(self)@.at,
                old(self)@.index,
                old(self)@.body,
                old(budget)@,
            ) == (outcome::<T>(r), final(budget)@),
            final(self)@.datoms == old(self)@.datoms,
            final(self)@.at == old(self)@.at,
            final(self)@.body == old(self)@.body,
            final(self)@.index == if old(self)@.index < old(self)@.datoms.len() {
                old(self)@.index + 1
            } else {
                old(self)@.index
            },
    {
        proof {
            use_type_invariant(&*self);
            lemma_datoms_view(self.datoms@);
        }
        let index = self.index;
        if index >= self.datoms.len() {
            return Err(refuse_at(self.at, Problem::Exhausted));
        }
        self.index = index + 1;
        match corporate::<T>(&self.datoms[index], part_at(self.at, index), budget) {
            Ok(value) => Ok(value),
            Err(fault) => {
                let fault = fault.within(index as i64);
                if self.body {
                    Err(fault.within(1))
                } else {
                    Err(fault)
                }
            },
        }
    }
}

impl<'a> Variant<'a> {
    /// The variant's name.
    pub fn name(&self) -> (n: &'a String)
        ensures
            n@ == self@.name,
    {
        self.name
    }

    /// The body, as its type.
    pub fn body<T: Datomic>(self, budget: &mut IncorporationBudget) -> (r: Result<T, Fault>)
        ensures
            bodied::<T>(self@.body, self@.at, old(budget)@) == (outcome::<T>(r), final(budget)@),
    {
        match self.body {
            Some(b) => match corporate::<T>(b, part_at(self.at, 1), budget) {
                Ok(value) => Ok(value),
                Err(fault) => Err(fault.within(1)),
            },
            None => Err(refuse_at(self.at, Problem::Shape(Expected::Variant, Found::Word))),
        }
    }

    /// The body's positions, as an inline struct of this arity.
    pub fn positions(self, arity: i64) -> (r: Result<Positions<'a>, Fault>)
        ensures
            match r {
                Ok(p) => inline_fields(self@.body, self@.at, arity as int) == Ok::<_, SpecFault>(
                    p@.datoms,
                ) && p@.at == part(self@.at, 1) && p@.index == 0 && p@.body,
                Err(e) => inline_fields(self@.body, self@.at, arity as int) == Err::<
                    Seq<SpecDatom>,
                    _,
                >(e@),
            },
    {
        match self.body {
            Some(b) => {
                let site = Site { datom: b, at: part_at(self.at, 1) };
                match site.positions(arity) {
                    Ok(p) => Ok(Positions { datoms: p.datoms, at: p.at, index: 0, body: true }),
                    Err(fault) => Err(fault.within(1)),
                }
            },
            None => Err(refuse_at(self.at, Problem::Shape(Expected::Variant, Found::Word))),
        }
    }

    /// Nothing: the variant must be bare.
    pub fn nothing(&self) -> (r: Result<(), Fault>)
        ensures
            bare_variant(self@.body, self@.at) == match r {
                Ok(()) => Ok::<(), SpecFault>(()),
                Err(e) => Err(e@),
            },
    {
        match self.body {
            None => Ok(()),
            Some(_) => Err(refuse_at(self.at, Problem::Shape(Expected::Word, Found::Variant))),
        }
    }

    /// A corporate fault at the variant.
    pub fn reject(&self, problem: Problem) -> (f: Fault)
        ensures
            f@ == refusal(self@.at, problem@),
    {
        refuse_at(self.at, problem)
    }
}

/// Whether a name is the given word.
pub fn is_named(name: &String, word: &str) -> (r: bool)
    ensures
        r == (name@ == word@),
{
    let w: String = word.to_owned();
    *name == w
}

/// Whether a variant can carry a word as it is.
pub fn carriable_word(w: &String) -> (r: bool)
    ensures
        r == carriable(SpecDatom::Word(w@)),
{
    let cs = crate::glyph::chars_of(w.as_str());
    let n = cs.len();
    assert(cs@.subrange(0, n as int) =~= cs@);
    crate::delineation::is_chain_word(&cs, 0, n) || crate::delineation::none_separating(&cs, 0, n)
}

/// A variant's body made unambiguous after its head.
pub fn carry(d: Datom) -> (r: Datom)
    ensures
        r@ == carried(d@),
{
    match d {
        Datom::Word(w) => {
            if carriable_word(&w) {
                Datom::Word(w)
            } else {
                Datom::Text(w)
            }
        },
        other => other,
    }
}

/// A variant datom: a head and its body.
pub fn variant_datom(head: &str, body: Datom) -> (d: Datom)
    ensures
        d@ == SpecDatom::Variant(head@, Box::new(body@)),
{
    Datom::Variant(head.to_owned(), Box::new(body))
}

/// A word datom.
pub fn word_datom(word: &str) -> (d: Datom)
    ensures
        d@ == SpecDatom::Word(word@),
{
    Datom::Word(word.to_owned())
}

/// Reading the first two positions as an `A` and a `B`.
pub open spec fn pair_reading<A: Datomic, B: Datomic>(
    ds: Seq<SpecDatom>,
    at: SpecSituation,
    body: bool,
    budget: nat,
) -> (Result<(A::Model, B::Model), SpecFault>, nat) {
    let (ra, left) = positioned::<A>(ds, at, 0, body, budget);
    match ra {
        Err(e) => (Err(e), left),
        Ok(a) => {
            let (rb, rest) = positioned::<B>(ds, at, 1, body, left);
            match rb {
                Err(e) => (Err(e), rest),
                Ok(b) => (Ok((a, b)), rest),
            }
        },
    }
}

/// Reading a struct of two positions, an `A` and a `B`.
pub open spec fn struct_pair<A: Datomic, B: Datomic>(d: SpecDatom, at: SpecSituation, budget: nat) -> (
    Result<(A::Model, B::Model), SpecFault>,
    nat,
) {
    match fields(d, at, 2) {
        Err(e) => (Err(e), budget),
        Ok(ds) => pair_reading::<A, B>(ds, at, false, budget),
    }
}

/// Reading a variant's body as an inline struct of two positions, an `A` and a `B`.
pub open spec fn inline_pair<A: Datomic, B: Datomic>(
    body: Option<SpecDatom>,
    at: SpecSituation,
    budget: nat,
) -> (Result<(A::Model, B::Model), SpecFault>, nat) {
    match inline_fields(body, at, 2) {
        Err(e) => (Err(e), budget),
        Ok(ds) => pair_reading::<A, B>(ds, part(at, 1), true, budget),
    }
}

/// The datom of a pair of values: a struct of two positions.
pub open spec fn pair_concept<A: Datomic, B: Datomic>(a: A::Model, b: B::Model) -> SpecDatom {
    SpecDatom::Struct(seq![A::concept(a), B::concept(b)])
}

/// The outcome of a pair reader, as mathematics sees it.
pub open spec fn pair_outcome<A: Datomic, B: Datomic>(r: Result<(A, B), Fault>) -> Result<
    (A::Model, B::Model),
    SpecFault,
> {
    match r {
        Ok((a, b)) => Ok((a.model(), b.model())),
        Err(e) => Err(e@),
    }
}

/// The next two positions, as an `A` and a `B`.
pub fn read_pair<A: Datomic, B: Datomic>(p: &mut Positions, budget: &mut IncorporationBudget) -> (r:
    Result<(A, B), Fault>)
    requires
        old(p)@.index == 0,
    ensures
        pair_reading::<A, B>(old(p)@.datoms, old(p)@.at, old(p)@.body, old(budget)@) == (
            pair_outcome::<A, B>(r),
            final(budget)@,
        ),
{
    let a = match p.position::<A>(budget) {
        Ok(a) => a,
        Err(e) => {
            return Err(e);
        },
    };
    let b = match p.position::<B>(budget) {
        Ok(b) => b,
        Err(e) => {
            return Err(e);
        },
    };
    Ok((a, b))
}

/// A struct of two positions, an `A` and a `B`.
pub fn incorporate_pair<A: Datomic, B: Datomic>(
    datom: &Datom,
    at: &Situation,
    budget: &mut IncorporationBudget,
) -> (r: Result<(A, B), Fault>)
    ensures
        struct_pair::<A, B>(datom@, at@, old(budget)@) == (pair_outcome::<A, B>(r), final(budget)@),
{
    match Site::new(datom, at).positions(2) {
        Err(e) => Err(e),
        Ok(mut p) => read_pair::<A, B>(&mut p, budget),
    }
}

/// A variant's body, as an inline struct of two positions, an `A` and a `B`.
pub fn incorporate_inline_pair<A: Datomic, B: Datomic>(
    v: Variant,
    budget: &mut IncorporationBudget,
) -> (r: Result<(A, B), Fault>)
    ensures
        inline_pair::<A, B>(v@.body, v@.at, old(budget)@) == (pair_outcome::<A, B>(r), final(budget)@),
{
    match v.positions(2) {
        Err(e) => Err(e),
        Ok(mut p) => read_pair::<A, B>(&mut p, budget),
    }
}

/// The datom of a pair of values.
pub fn conceive_pair<A: Datomic, B: Datomic>(a: &A, b: &B) -> (d: Datom)
    ensures
        d@ == pair_concept::<A, B>(a.model(), b.model()),
        A::sound(a.model()),
        B::sound(b.model()),
{
    let da = a.conceive();
    let db = b.conceive();
    let ghost va = da@;
    let ghost vb = db@;
    let ds = vec![da, db];
    proof {
        lemma_datoms_view(ds@);
        assert(datoms_view(ds@) =~= seq![va, vb]);
    }
    Datom::Struct(ds)
}

/// Reading the datoms of a pair gives the pair back, spending one unit for
/// each position and each value's cost.
pub proof fn lemma_pair_reads_back<A: Datomic, B: Datomic>(
    a: A::Model,
    b: B::Model,
    at: SpecSituation,
    body: bool,
    budget: nat,
)
    requires
        A::sound(a),
        B::sound(b),
        budget >= 2 + A::cost(a) + B::cost(b),
    ensures
        pair_reading::<A, B>(seq![A::concept(a), B::concept(b)], at, body, budget) == (
            Ok::<(A::Model, B::Model), SpecFault>((a, b)),
            (budget - 2 - A::cost(a) - B::cost(b)) as nat,
        ),
        settled(pair_concept::<A, B>(a, b)),
{
    A::lemma_reads_back(a, part(at, 0), (budget - 1) as nat);
    B::lemma_reads_back(b, part(at, 1), (budget - 2 - A::cost(a)) as nat);
    let ds = seq![A::concept(a), B::concept(b)];
    assert(ds.drop_first() =~= seq![B::concept(b)]);
    assert(ds.drop_first().drop_first() =~= Seq::<SpecDatom>::empty());
    crate::protosization::lemma_all_settled(ds);
    assert(settled(ds[0]) && settled(ds[1]));
}

} // verus!

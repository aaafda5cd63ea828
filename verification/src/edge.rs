//! The public edge: text becomes a typed value through the datom concept, and
//! a typed value becomes its canonical text.

use std::marker::PhantomData;

use vstd::prelude::*;

use crate::anatomy::{Datom, Fault, IncorporationBudget, SpecDatom, SpecFault, SpecProblem};
use crate::conception::{conceive, conceived_one, extent_of};
use crate::delineation::delineate;
use crate::form::{Situation, SpecSituation};
use crate::kinds::{corporate, incorporated, outcome, refusal, Datomic};
use crate::kinds::carried;
use crate::protosization::{
    bare_form, lemma_conceived_protosized, lemma_datom_text_rereads, lemma_well_formed_protosized,
    nesting, project_word, protosize, protosized, settled, word_run,
};
use crate::reader::{chain_word, first_separator};
use crate::scalars::text_concept;
use crate::reader::{delineated, MAX_DEPTH};
use crate::writer::{snug, textualize_snug_form, written};
use crate::rereading::lemma_snug_text_rereads;
use crate::glyph::string_of;
use crate::conception::situation_at;

verus! {

/// What the datom of a text is: its structures, read, and their one datom.
pub open spec fn datom_of_text(text: Seq<char>) -> Result<(SpecDatom, SpecSituation), SpecFault> {
    match delineated(text) {
        Err(f) => Err(SpecFault::Unstructured(f)),
        Ok((fs, ats)) => conceived_one(fs, ats),
    }
}

/// What actualizing a text as a `T` gives: the value read from the text's one
/// datom, after spending one unit of the budget for it.
pub open spec fn actualized<T: Datomic>(text: Seq<char>, budget: nat) -> Result<
    T::Model,
    SpecFault,
> {
    match datom_of_text(text) {
        Err(e) => Err(e),
        Ok((d, at)) => incorporated::<T>(d, at, budget).0,
    }
}

/// The canonical text of a value.
pub open spec fn textualized<T: Datomic>(m: T::Model) -> Seq<char> {
    written(protosized(T::concept(m)))
}

/// The datom of a text, and where it is.
pub fn read_datom(text: &str) -> (r: Result<(Datom, Situation), Fault>)
    requires
        text@.len() <= usize::MAX / 8,
    ensures
        match r {
            Ok((d, at)) => datom_of_text(text@) == Ok::<_, SpecFault>((d@, at@)),
            Err(e) => datom_of_text(text@) == Err::<(SpecDatom, SpecSituation), _>(e@),
        },
{
    match delineate(text) {
        Err(f) => Err(Fault::Unstructured(f)),
        Ok(d) => conceive(&d),
    }
}

/// The value of a text as a `T`, within a caller-owned budget.
pub fn actualize<T: Datomic>(text: &str, budget: IncorporationBudget) -> (r: Result<T, Fault>)
    requires
        text@.len() <= usize::MAX / 8,
    ensures
        outcome::<T>(r) == actualized::<T>(text@, budget@),
{
    match read_datom(text) {
        Err(e) => Err(e),
        Ok((d, at)) => {
            let mut budget = budget;
            corporate::<T>(&d, &at, &mut budget)
        },
    }
}

/// The canonical text of a value. It reads back as the value under every
/// budget that covers the reading, whenever its datom nests within the
/// reader's depth.
pub fn textualize<T: Datomic>(value: &T) -> (text: String)
    ensures
        text@ == textualized::<T>(value.model()),
        nesting(protosized(T::concept(value.model()))) <= MAX_DEPTH ==> forall|budget: nat|
            budget >= 1 + T::cost(value.model()) ==> #[trigger] actualized::<T>(text@, budget)
                == Ok::<T::Model, SpecFault>(value.model()),
{
    let text = value.textualize();
    proof {
        if nesting(protosized(T::concept(value.model()))) <= MAX_DEPTH {
            assert forall|budget: nat| budget >= 1 + T::cost(value.model()) implies #[trigger] actualized::<T>(
                text@,
                budget,
            ) == Ok::<T::Model, SpecFault>(value.model()) by {
                lemma_actualize_textualized::<T>(value.model(), budget);
            }
        }
    }
    text
}

/// The snug text of a value: its canonical text with no space just inside
/// the enclosure that holds its positions.
pub open spec fn snug_textualized<T: Datomic>(m: T::Model) -> Seq<char> {
    snug(protosized(T::concept(m)))
}

/// The snug text of a value, as records are written: `{“a” “b”}` where the
/// canonical text is `{ “a” “b” }`. It reads back as the value under every
/// budget that covers the reading, whenever its datom nests within the
/// reader's depth.
pub fn textualize_snug<T: Datomic>(value: &T) -> (text: String)
    ensures
        text@ == snug_textualized::<T>(value.model()),
        nesting(protosized(T::concept(value.model()))) <= MAX_DEPTH ==> forall|budget: nat|
            budget >= 1 + T::cost(value.model()) ==> #[trigger] actualized::<T>(text@, budget)
                == Ok::<T::Model, SpecFault>(value.model()),
{
    let d = value.conceive();
    let f = protosize(&d);
    let cs = textualize_snug_form(&f);
    let text = string_of(cs.as_slice());
    proof {
        if nesting(protosized(T::concept(value.model()))) <= MAX_DEPTH {
            assert forall|budget: nat| budget >= 1 + T::cost(value.model()) implies #[trigger] actualized::<T>(
                text@,
                budget,
            ) == Ok::<T::Model, SpecFault>(value.model()) by {
                lemma_actualize_snug_textualized::<T>(value.model(), budget);
            }
        }
    }
    text
}

/// Actualizing the snug text of a value gives the value back, whenever the
/// budget covers the reading and the written datom nests within the reader's
/// depth.
pub proof fn lemma_actualize_snug_textualized<T: Datomic>(m: T::Model, budget: nat)
    requires
        T::sound(m),
        budget >= 1 + T::cost(m),
        nesting(protosized(T::concept(m))) <= MAX_DEPTH,
    ensures
        actualized::<T>(snug_textualized::<T>(m), budget) == Ok::<T::Model, SpecFault>(m),
{
    let nowhere = SpecSituation { extent: (0, 0), children: Seq::empty() };
    T::lemma_reads_back(m, nowhere, T::cost(m));
    let d = T::concept(m);
    lemma_well_formed_protosized(d, 0);
    lemma_snug_text_rereads(protosized(d));
    let ats = delineated(snug(protosized(d)))->Ok_0.1;
    lemma_conceived_protosized(d, situation_at(ats, 0), Seq::empty());
    let (x, at) = datom_of_text(snug_textualized::<T>(m))->Ok_0;
    T::lemma_reads_back(m, at, (budget - 1) as nat);
}

/// The snug text of a value is stable: actualizing it and writing the value
/// snugly again gives the same text.
pub proof fn lemma_snug_text_is_stable<T: Datomic>(m: T::Model, budget: nat)
    requires
        T::sound(m),
        budget >= 1 + T::cost(m),
        nesting(protosized(T::concept(m))) <= MAX_DEPTH,
    ensures
        actualized::<T>(snug_textualized::<T>(m), budget) matches Ok(n) && snug_textualized::<T>(n)
            == snug_textualized::<T>(m),
{
    lemma_actualize_snug_textualized::<T>(m, budget);
}

/// Text that may become a `T` through the datom concept.
pub struct Potential<T> {
    text: String,
    marker: PhantomData<T>,
}

impl<T> View for Potential<T> {
    type V = Seq<char>;

    closed spec fn view(&self) -> Seq<char> {
        self.text@
    }
}

impl<T: Datomic> Potential<T> {
    /// The potential of a text.
    pub fn from(text: &str) -> (p: Potential<T>)
        ensures
            p@ == text@,
    {
        Potential { text: text.to_owned(), marker: PhantomData }
    }

    /// The text itself.
    pub fn text(&self) -> (t: &str)
        ensures
            t@ == self@,
    {
        self.text.as_str()
    }

    /// The value the text holds, within a caller-owned budget.
    pub fn actualize(&self, budget: IncorporationBudget) -> (r: Result<T, Fault>)
        requires
            self@.len() <= usize::MAX / 8,
        ensures
            outcome::<T>(r) == actualized::<T>(self@, budget@),
    {
        actualize::<T>(self.text.as_str(), budget)
    }
}

/// Actualizing the canonical text of a value gives the value back, whenever
/// the budget covers the reading and the written datom nests within the
/// reader's depth.
pub proof fn lemma_actualize_textualized<T: Datomic>(m: T::Model, budget: nat)
    requires
        T::sound(m),
        budget >= 1 + T::cost(m),
        nesting(protosized(T::concept(m))) <= MAX_DEPTH,
    ensures
        actualized::<T>(textualized::<T>(m), budget) == Ok::<T::Model, SpecFault>(m),
{
    let nowhere = SpecSituation { extent: (0, 0), children: Seq::empty() };
    T::lemma_reads_back(m, nowhere, T::cost(m));
    lemma_datom_text_rereads(T::concept(m));
    let (d, at) = datom_of_text(textualized::<T>(m))->Ok_0;
    T::lemma_reads_back(m, at, (budget - 1) as nat);
}

/// The canonical text of a value is stable: actualizing it and writing the
/// value again gives the same text.
pub proof fn lemma_canonical_text_is_stable<T: Datomic>(m: T::Model, budget: nat)
    requires
        T::sound(m),
        budget >= 1 + T::cost(m),
        nesting(protosized(T::concept(m))) <= MAX_DEPTH,
    ensures
        actualized::<T>(textualized::<T>(m), budget) matches Ok(n) && textualized::<T>(n)
            == textualized::<T>(m),
{
    lemma_actualize_textualized::<T>(m, budget);
}

/// With no budget left, every text that has one datom is refused before it is
/// read, at the datom's extent.
pub proof fn lemma_empty_budget_refuses<T: Datomic>(text: Seq<char>)
    requires
        datom_of_text(text) is Ok,
    ensures
        actualized::<T>(text, 0) == Err::<T::Model, SpecFault>(
            refusal(datom_of_text(text)->Ok_0.1, SpecProblem::BudgetExhausted),
        ),
{
}

// ----- how deep the text of a string nests -----

/// A run's structure nests no deeper than the run is long.
pub proof fn lemma_bare_form_nesting(w: Seq<char>)
    ensures
        nesting(bare_form(w)) <= w.len(),
    decreases w.len(),
{
    if chain_word(w) {
        let m = first_separator(w, 0, w.len() as int);
        if 0 < m < w.len() {
            lemma_bare_form_nesting(w.subrange(m + 1, w.len() as int));
        }
    }
}

/// A word's datom nests no deeper than the word is long.
proof fn lemma_project_word_nesting(w: Seq<char>)
    ensures
        nesting(protosized(project_word(w))) <= w.len(),
    decreases w.len(),
{
    if chain_word(w) {
        let m = first_separator(w, 0, w.len() as int);
        if 0 < m < w.len() && w[m] == '.' {
            lemma_project_word_nesting(w.subrange(m + 1, w.len() as int));
        } else {
            lemma_bare_form_nesting(w);
        }
    } else {
        lemma_bare_form_nesting(w);
    }
}

/// The datom of a text nests no deeper than the text is long, carried or not.
pub proof fn lemma_text_nesting(t: Seq<char>)
    ensures
        nesting(protosized(text_concept(t))) <= t.len(),
        nesting(protosized(carried(text_concept(t)))) <= t.len(),
{
    if word_run(t) {
        lemma_project_word_nesting(t);
    }
}

/// A string of fewer glyphs than the reader's depth reads back from its
/// canonical text, alone or carried by `Some`.
pub proof fn lemma_string_round_trip(t: Seq<char>, budget: nat)
    requires
        t.len() < MAX_DEPTH,
        budget >= 2,
    ensures
        actualized::<String>(textualized::<String>(t), budget) == Ok::<Seq<char>, SpecFault>(t),
        actualized::<Option<String>>(textualized::<Option<String>>(Some(t)), budget) == Ok::<
            Option<Seq<char>>,
            SpecFault,
        >(Some(t)),
{
    lemma_text_nesting(t);
    lemma_actualize_textualized::<String>(t, budget);
    assert(nesting(protosized(<Option<String> as Datomic>::concept(Some(t)))) == 1 + nesting(
        protosized(carried(text_concept(t))),
    ));
    lemma_actualize_textualized::<Option<String>>(Some(t), budget);
}

} // verus!

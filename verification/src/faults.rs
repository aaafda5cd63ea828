//! The faults are themselves datomic: every fault writes as a datom and reads back.

use vstd::prelude::*;

use crate::anatomy::{
    Datom, Expected, Fault, Found, IncorporationBudget, Locus, Meaning, Problem, SpecDatom, SpecFault,
    SpecProblem, Word, unknown, unknown_variant, problem_sound,
};
use crate::containers::{lemma_carried, lemma_name, letters, models};
use crate::form::{Extent, Situation, SpecSituation};
use crate::glyph::{Boundary, Enclosure, Separator};
use crate::kinds::{
    bare_variant, bodied, carried, carry, conceive_pair, incorporate_inline_pair, incorporate_pair,
    inline_pair, is_named, lemma_pair_reads_back, pair_concept, refusal, struct_pair, variant_datom,
    variant_of, word_datom, Datomic, Site,
};
use crate::edge::{
    actualized, lemma_actualize_textualized, lemma_bare_form_nesting, lemma_text_nesting,
    textualized,
};
use crate::form::SpecForm;
use crate::protosization::{deepest, lemma_protosized_all, nesting, protosized, protosized_all, settled};
use crate::reader::{chain_word, is_separator, no_separator, StructuralFault, StructuralProblem, MAX_DEPTH};
use crate::words::{integer_word, is_digit, lemma_integer_word_glyphs};
use crate::worded::Worded;
use crate::scalars::{conceive_text, lemma_text_reads_back, text_concept};

verus! {

/// The integers of a path, as values, are the path.
proof fn lemma_path_models(p: Seq<i64>)
    ensures
        models::<i64>(p) == p,
{
    assert(models::<i64>(p) =~= p);
}

impl Datomic for Extent {
    type Model = Extent;

    open spec fn model(&self) -> Extent {
        *self
    }

    open spec fn concept(m: Extent) -> SpecDatom {
        pair_concept::<i64, i64>(m.0, m.1)
    }

    open spec fn reading(d: SpecDatom, at: SpecSituation, budget: nat) -> (
        Result<Extent, SpecFault>,
        nat,
    ) {
        let (r, left) = struct_pair::<i64, i64>(d, at, budget);
        (
            match r {
                Ok((a, b)) => Ok(Extent(a, b)),
                Err(e) => Err(e),
            },
            left,
        )
    }

    open spec fn cost(m: Extent) -> nat {
        2
    }

    open spec fn sound(m: Extent) -> bool {
        true
    }

    fn incorporate(datom: &Datom, at: &Situation, budget: &mut IncorporationBudget) -> (r: Result<
        Extent,
        Fault,
    >) {
        match incorporate_pair::<i64, i64>(datom, at, budget) {
            Ok((a, b)) => Ok(Extent(a, b)),
            Err(e) => Err(e),
        }
    }

    fn conceive(&self) -> (d: Datom) {
        let d = conceive_pair::<i64, i64>(&self.0, &self.1);
        assert(Self::sound(self.model()));
        d
    }

    proof fn lemma_reads_back(m: Extent, at: SpecSituation, budget: nat) {
        lemma_pair_reads_back::<i64, i64>(m.0, m.1, at, false, budget);
    }
}

impl Datomic for Locus {
    type Model = (Seq<i64>, Extent);

    open spec fn model(&self) -> (Seq<i64>, Extent) {
        (self.path@, self.extent)
    }

    open spec fn concept(m: (Seq<i64>, Extent)) -> SpecDatom {
        pair_concept::<Vec<i64>, Extent>(m.0, m.1)
    }

    open spec fn reading(d: SpecDatom, at: SpecSituation, budget: nat) -> (
        Result<(Seq<i64>, Extent), SpecFault>,
        nat,
    ) {
        struct_pair::<Vec<i64>, Extent>(d, at, budget)
    }

    open spec fn cost(m: (Seq<i64>, Extent)) -> nat {
        2 + <Vec<i64> as Datomic>::cost(m.0) + 2
    }

    open spec fn sound(m: (Seq<i64>, Extent)) -> bool {
        true
    }

    fn incorporate(datom: &Datom, at: &Situation, budget: &mut IncorporationBudget) -> (r: Result<
        Locus,
        Fault,
    >) {
        match incorporate_pair::<Vec<i64>, Extent>(datom, at, budget) {
            Ok((path, extent)) => {
                proof {
                    lemma_path_models(path@);
                }
                Ok(Locus { path, extent })
            },
            Err(e) => Err(e),
        }
    }

    fn conceive(&self) -> (d: Datom) {
        proof {
            assert(Self::sound(self.model()));
        }
        proof {
            lemma_path_models(self.path@);
        }
        conceive_pair::<Vec<i64>, Extent>(&self.path, &self.extent)
    }

    proof fn lemma_reads_back(m: (Seq<i64>, Extent), at: SpecSituation, budget: nat) {
        lemma_pair_reads_back::<Vec<i64>, Extent>(m.0, m.1, at, false, budget);
    }
}

impl Datomic for StructuralProblem {
    type Model = StructuralProblem;

    open spec fn model(&self) -> StructuralProblem {
        *self
    }

    open spec fn concept(m: StructuralProblem) -> SpecDatom {
        match m {
            StructuralProblem::Unclosed(e) => SpecDatom::Variant(
                "Unclosed"@,
                Box::new(<Enclosure as Datomic>::concept(e)),
            ),
            StructuralProblem::Unopened(e) => SpecDatom::Variant(
                "Unopened"@,
                Box::new(<Enclosure as Datomic>::concept(e)),
            ),
            StructuralProblem::Unterminated(b) => SpecDatom::Variant(
                "Unterminated"@,
                Box::new(<Boundary as Datomic>::concept(b)),
            ),
            StructuralProblem::Stray(b) => SpecDatom::Variant(
                "Stray"@,
                Box::new(<Boundary as Datomic>::concept(b)),
            ),
            StructuralProblem::Depth => SpecDatom::Word("Depth"@),
        }
    }

    open spec fn reading(d: SpecDatom, at: SpecSituation, budget: nat) -> (
        Result<StructuralProblem, SpecFault>,
        nat,
    ) {
        match variant_of(d, at) {
            Err(e) => (Err(e), budget),
            Ok((name, body)) => if name == "Unclosed"@ {
                let (r, left) = bodied::<Enclosure>(body, at, budget);
                (
                    match r {
                        Ok(e) => Ok(StructuralProblem::Unclosed(e)),
                        Err(e) => Err(e),
                    },
                    left,
                )
            } else if name == "Unopened"@ {
                let (r, left) = bodied::<Enclosure>(body, at, budget);
                (
                    match r {
                        Ok(e) => Ok(StructuralProblem::Unopened(e)),
                        Err(e) => Err(e),
                    },
                    left,
                )
            } else if name == "Unterminated"@ {
                let (r, left) = bodied::<Boundary>(body, at, budget);
                (
                    match r {
                        Ok(b) => Ok(StructuralProblem::Unterminated(b)),
                        Err(e) => Err(e),
                    },
                    left,
                )
            } else if name == "Stray"@ {
                let (r, left) = bodied::<Boundary>(body, at, budget);
                (
                    match r {
                        Ok(b) => Ok(StructuralProblem::Stray(b)),
                        Err(e) => Err(e),
                    },
                    left,
                )
            } else if name == "Depth"@ {
                (
                    match bare_variant(body, at) {
                        Ok(_) => Ok(StructuralProblem::Depth),
                        Err(e) => Err(e),
                    },
                    budget,
                )
            } else {
                (Err(refusal(at, unknown(name))), budget)
            },
        }
    }

    open spec fn cost(m: StructuralProblem) -> nat {
        match m {
            StructuralProblem::Depth => 0,
            _ => 1,
        }
    }

    open spec fn sound(m: StructuralProblem) -> bool {
        true
    }

    fn incorporate(datom: &Datom, at: &Situation, budget: &mut IncorporationBudget) -> (r: Result<
        StructuralProblem,
        Fault,
    >) {
        let v = match Site::new(datom, at).variant() {
            Ok(v) => v,
            Err(e) => {
                return Err(e);
            },
        };
        let name = v.name();
        if is_named(name, "Unclosed") {
            match v.body::<Enclosure>(budget) {
                Ok(e) => Ok(StructuralProblem::Unclosed(e)),
                Err(e) => Err(e),
            }
        } else if is_named(name, "Unopened") {
            match v.body::<Enclosure>(budget) {
                Ok(e) => Ok(StructuralProblem::Unopened(e)),
                Err(e) => Err(e),
            }
        } else if is_named(name, "Unterminated") {
            match v.body::<Boundary>(budget) {
                Ok(b) => Ok(StructuralProblem::Unterminated(b)),
                Err(e) => Err(e),
            }
        } else if is_named(name, "Stray") {
            match v.body::<Boundary>(budget) {
                Ok(b) => Ok(StructuralProblem::Stray(b)),
                Err(e) => Err(e),
            }
        } else if is_named(name, "Depth") {
            match v.nothing() {
                Ok(()) => Ok(StructuralProblem::Depth),
                Err(e) => Err(e),
            }
        } else {
            Err(v.reject(unknown_variant(name)))
        }
    }

    fn conceive(&self) -> (d: Datom) {
        proof {
            assert(Self::sound(self.model()));
        }
        match self {
            StructuralProblem::Unclosed(e) => variant_datom("Unclosed", e.conceive()),
            StructuralProblem::Unopened(e) => variant_datom("Unopened", e.conceive()),
            StructuralProblem::Unterminated(b) => variant_datom("Unterminated", b.conceive()),
            StructuralProblem::Stray(b) => variant_datom("Stray", b.conceive()),
            StructuralProblem::Depth => word_datom("Depth"),
        }
    }

    proof fn lemma_reads_back(m: StructuralProblem, at: SpecSituation, budget: nat) {
        reveal_strlit("Unclosed");
        reveal_strlit("Unopened");
        reveal_strlit("Unterminated");
        reveal_strlit("Stray");
        reveal_strlit("Depth");
        reveal_with_fuel(letters, 13);
        assert("Unclosed"@[0] == 'U' && "Unopened"@[0] == 'U' && "Unterminated"@[0] == 'U'
            && "Stray"@[0] == 'S' && "Depth"@[0] == 'D');
        assert("Unclosed"@[2] == 'c' && "Unopened"@[2] == 'o');
        assert("Unclosed"@.len() == 8 && "Unopened"@.len() == 8 && "Unterminated"@.len() == 12
            && "Stray"@.len() == 5 && "Depth"@.len() == 5);
        lemma_name("Unclosed"@);
        lemma_name("Unopened"@);
        lemma_name("Unterminated"@);
        lemma_name("Stray"@);
        lemma_name("Depth"@);
        let body_at = crate::conception::part(at, 1);
        match m {
            StructuralProblem::Unclosed(e) => {
                <Enclosure as Datomic>::lemma_reads_back(e, body_at, (budget - 1) as nat);
                crate::worded::lemma_word_reads_back::<Enclosure>(e, body_at);
            },
            StructuralProblem::Unopened(e) => {
                <Enclosure as Datomic>::lemma_reads_back(e, body_at, (budget - 1) as nat);
                crate::worded::lemma_word_reads_back::<Enclosure>(e, body_at);
            },
            StructuralProblem::Unterminated(b) => {
                <Boundary as Datomic>::lemma_reads_back(b, body_at, (budget - 1) as nat);
                crate::worded::lemma_word_reads_back::<Boundary>(b, body_at);
            },
            StructuralProblem::Stray(b) => {
                <Boundary as Datomic>::lemma_reads_back(b, body_at, (budget - 1) as nat);
                crate::worded::lemma_word_reads_back::<Boundary>(b, body_at);
            },
            StructuralProblem::Depth => {},
        }
    }
}

impl Datomic for StructuralFault {
    type Model = StructuralFault;

    open spec fn model(&self) -> StructuralFault {
        *self
    }

    open spec fn concept(m: StructuralFault) -> SpecDatom {
        pair_concept::<Extent, StructuralProblem>(m.extent, m.problem)
    }

    open spec fn reading(d: SpecDatom, at: SpecSituation, budget: nat) -> (
        Result<StructuralFault, SpecFault>,
        nat,
    ) {
        let (r, left) = struct_pair::<Extent, StructuralProblem>(d, at, budget);
        (
            match r {
                Ok((e, p)) => Ok(StructuralFault { extent: e, problem: p }),
                Err(e) => Err(e),
            },
            left,
        )
    }

    open spec fn cost(m: StructuralFault) -> nat {
        2 + 2 + <StructuralProblem as Datomic>::cost(m.problem)
    }

    open spec fn sound(m: StructuralFault) -> bool {
        true
    }

    fn incorporate(datom: &Datom, at: &Situation, budget: &mut IncorporationBudget) -> (r: Result<
        StructuralFault,
        Fault,
    >) {
        match incorporate_pair::<Extent, StructuralProblem>(datom, at, budget) {
            Ok((extent, problem)) => Ok(StructuralFault { extent, problem }),
            Err(e) => Err(e),
        }
    }

    fn conceive(&self) -> (d: Datom) {
        proof {
            assert(Self::sound(self.model()));
        }
        conceive_pair::<Extent, StructuralProblem>(&self.extent, &self.problem)
    }

    proof fn lemma_reads_back(m: StructuralFault, at: SpecSituation, budget: nat) {
        lemma_pair_reads_back::<Extent, StructuralProblem>(m.extent, m.problem, at, false, budget);
    }
}

/// The datom of a problem.
pub open spec fn problem_concept(m: SpecProblem) -> SpecDatom {
    match m {
        SpecProblem::Shape(e, f) => SpecDatom::Variant(
            "Shape"@,
            Box::new(pair_concept::<Expected, Found>(e, f)),
        ),
        SpecProblem::Arity(x, y) => SpecDatom::Variant(
            "Arity"@,
            Box::new(pair_concept::<i64, i64>(x, y)),
        ),
        SpecProblem::UnknownVariant(n) => SpecDatom::Variant(
            "UnknownVariant"@,
            Box::new(carried(text_concept(n))),
        ),
        SpecProblem::Value(v) => SpecDatom::Variant("Value"@, Box::new(SpecDatom::Meaning(v))),
        SpecProblem::Formless(f) => SpecDatom::Variant(
            "Formless"@,
            Box::new(<Found as Datomic>::concept(f)),
        ),
        SpecProblem::OneValue(n) => SpecDatom::Variant(
            "OneValue"@,
            Box::new(<i64 as Datomic>::concept(n)),
        ),
        SpecProblem::Exhausted => SpecDatom::Word("Exhausted"@),
        SpecProblem::BudgetExhausted => SpecDatom::Word("BudgetExhausted"@),
        SpecProblem::DuplicateKey(k) => SpecDatom::Variant(
            "DuplicateKey"@,
            Box::new(carried(text_concept(k))),
        ),
    }
}

/// Reading a problem.
pub open spec fn problem_reading(d: SpecDatom, at: SpecSituation, budget: nat) -> (
    Result<SpecProblem, SpecFault>,
    nat,
) {
    match variant_of(d, at) {
        Err(e) => (Err(e), budget),
        Ok((name, body)) => if name == "Shape"@ {
            let (r, left) = inline_pair::<Expected, Found>(body, at, budget);
            (
                match r {
                    Ok((e, f)) => Ok(SpecProblem::Shape(e, f)),
                    Err(e) => Err(e),
                },
                left,
            )
        } else if name == "Arity"@ {
            let (r, left) = inline_pair::<i64, i64>(body, at, budget);
            (
                match r {
                    Ok((x, y)) => Ok(SpecProblem::Arity(x, y)),
                    Err(e) => Err(e),
                },
                left,
            )
        } else if name == "UnknownVariant"@ {
            let (r, left) = bodied::<Word>(body, at, budget);
            (
                match r {
                    Ok(n) => Ok(SpecProblem::UnknownVariant(n)),
                    Err(e) => Err(e),
                },
                left,
            )
        } else if name == "Value"@ {
            let (r, left) = bodied::<Meaning>(body, at, budget);
            (
                match r {
                    Ok(v) => Ok(SpecProblem::Value(v)),
                    Err(e) => Err(e),
                },
                left,
            )
        } else if name == "Formless"@ {
            let (r, left) = bodied::<Found>(body, at, budget);
            (
                match r {
                    Ok(f) => Ok(SpecProblem::Formless(f)),
                    Err(e) => Err(e),
                },
                left,
            )
        } else if name == "OneValue"@ {
            let (r, left) = bodied::<i64>(body, at, budget);
            (
                match r {
                    Ok(n) => Ok(SpecProblem::OneValue(n)),
                    Err(e) => Err(e),
                },
                left,
            )
        } else if name == "Exhausted"@ {
            (
                match bare_variant(body, at) {
                    Ok(_) => Ok(SpecProblem::Exhausted),
                    Err(e) => Err(e),
                },
                budget,
            )
        } else if name == "BudgetExhausted"@ {
            (
                match bare_variant(body, at) {
                    Ok(_) => Ok(SpecProblem::BudgetExhausted),
                    Err(e) => Err(e),
                },
                budget,
            )
        } else if name == "DuplicateKey"@ {
            let (r, left) = bodied::<Word>(body, at, budget);
            (
                match r {
                    Ok(k) => Ok(SpecProblem::DuplicateKey(k)),
                    Err(e) => Err(e),
                },
                left,
            )
        } else {
            (Err(refusal(at, unknown(name))), budget)
        },
    }
}

impl Datomic for Problem {
    type Model = SpecProblem;

    open spec fn model(&self) -> SpecProblem {
        self@
    }

    open spec fn concept(m: SpecProblem) -> SpecDatom {
        problem_concept(m)
    }

    open spec fn reading(d: SpecDatom, at: SpecSituation, budget: nat) -> (
        Result<SpecProblem, SpecFault>,
        nat,
    ) {
        problem_reading(d, at, budget)
    }

    open spec fn cost(m: SpecProblem) -> nat {
        match m {
            SpecProblem::Shape(..) => 2,
            SpecProblem::Arity(..) => 2,
            SpecProblem::Exhausted => 0,
            SpecProblem::BudgetExhausted => 0,
            _ => 1,
        }
    }

    open spec fn sound(m: SpecProblem) -> bool {
        problem_sound(m)
    }

    fn incorporate(datom: &Datom, at: &Situation, budget: &mut IncorporationBudget) -> (r: Result<
        Problem,
        Fault,
    >) {
        let v = match Site::new(datom, at).variant() {
            Ok(v) => v,
            Err(e) => {
                return Err(e);
            },
        };
        let name = v.name();
        if is_named(name, "Shape") {
            match incorporate_inline_pair::<Expected, Found>(v, budget) {
                Ok((e, f)) => Ok(Problem::Shape(e, f)),
                Err(e) => Err(e),
            }
        } else if is_named(name, "Arity") {
            match incorporate_inline_pair::<i64, i64>(v, budget) {
                Ok((x, y)) => Ok(Problem::Arity(x, y)),
                Err(e) => Err(e),
            }
        } else if is_named(name, "UnknownVariant") {
            match v.body::<Word>(budget) {
                Ok(n) => Ok(Problem::UnknownVariant(n)),
                Err(e) => Err(e),
            }
        } else if is_named(name, "Value") {
            match v.body::<Meaning>(budget) {
                Ok(Meaning::Plain(t)) => Ok(Problem::Value(t)),
                Err(e) => Err(e),
            }
        } else if is_named(name, "Formless") {
            match v.body::<Found>(budget) {
                Ok(f) => Ok(Problem::Formless(f)),
                Err(e) => Err(e),
            }
        } else if is_named(name, "OneValue") {
            match v.body::<i64>(budget) {
                Ok(n) => Ok(Problem::OneValue(n)),
                Err(e) => Err(e),
            }
        } else if is_named(name, "Exhausted") {
            match v.nothing() {
                Ok(()) => Ok(Problem::Exhausted),
                Err(e) => Err(e),
            }
        } else if is_named(name, "BudgetExhausted") {
            match v.nothing() {
                Ok(()) => Ok(Problem::BudgetExhausted),
                Err(e) => Err(e),
            }
        } else if is_named(name, "DuplicateKey") {
            match v.body::<Word>(budget) {
                Ok(k) => Ok(Problem::DuplicateKey(k)),
                Err(e) => Err(e),
            }
        } else {
            Err(v.reject(unknown_variant(name)))
        }
    }

    fn conceive(&self) -> (d: Datom) {
        let d = match self {
            Problem::Shape(e, f) => variant_datom("Shape", conceive_pair::<Expected, Found>(e, f)),
            Problem::Arity(x, y) => variant_datom("Arity", conceive_pair::<i64, i64>(x, y)),
            Problem::UnknownVariant(n) => variant_datom(
                "UnknownVariant",
                carry(conceive_text(n.as_string())),
            ),
            Problem::Value(v) => variant_datom("Value", Datom::Meaning(v.clone())),
            Problem::Formless(f) => variant_datom("Formless", f.conceive()),
            Problem::OneValue(n) => variant_datom("OneValue", n.conceive()),
            Problem::Exhausted => word_datom("Exhausted"),
            Problem::BudgetExhausted => word_datom("BudgetExhausted"),
            Problem::DuplicateKey(k) => variant_datom(
                "DuplicateKey",
                carry(conceive_text(k.as_string())),
            ),
        };
        proof {
            assert(Self::sound(self.model()));
        }
        d
    }

    proof fn lemma_reads_back(m: SpecProblem, at: SpecSituation, budget: nat) {
        lemma_problem_reads_back(m, at, budget);
    }
}

/// The names of the problems: distinct names of letters.
proof fn lemma_problem_names()
    ensures
        "Shape"@ != "Arity"@,
        "Shape"@ != "UnknownVariant"@ && "Arity"@ != "UnknownVariant"@,
        "Shape"@ != "Value"@ && "Arity"@ != "Value"@ && "UnknownVariant"@ != "Value"@,
        "Shape"@ != "Formless"@ && "Arity"@ != "Formless"@ && "UnknownVariant"@ != "Formless"@
            && "Value"@ != "Formless"@,
        "Shape"@ != "OneValue"@ && "Arity"@ != "OneValue"@ && "UnknownVariant"@ != "OneValue"@
            && "Value"@ != "OneValue"@ && "Formless"@ != "OneValue"@,
        "Shape"@ != "Exhausted"@ && "Arity"@ != "Exhausted"@ && "UnknownVariant"@ != "Exhausted"@
            && "Value"@ != "Exhausted"@ && "Formless"@ != "Exhausted"@ && "OneValue"@
            != "Exhausted"@,
        "Shape"@ != "BudgetExhausted"@ && "Arity"@ != "BudgetExhausted"@ && "UnknownVariant"@
            != "BudgetExhausted"@ && "Value"@ != "BudgetExhausted"@ && "Formless"@
            != "BudgetExhausted"@ && "OneValue"@ != "BudgetExhausted"@ && "Exhausted"@
            != "BudgetExhausted"@,
        crate::rereading::plain_symbol("Shape"@),
        crate::rereading::plain_symbol("Arity"@),
        crate::rereading::plain_symbol("UnknownVariant"@),
        crate::rereading::plain_symbol("Value"@),
        crate::rereading::plain_symbol("Formless"@),
        crate::rereading::plain_symbol("OneValue"@),
        crate::rereading::plain_symbol("DuplicateKey"@),
        "Shape"@ != "DuplicateKey"@ && "Arity"@ != "DuplicateKey"@ && "UnknownVariant"@
            != "DuplicateKey"@ && "Value"@ != "DuplicateKey"@ && "Formless"@ != "DuplicateKey"@
            && "OneValue"@ != "DuplicateKey"@ && "Exhausted"@ != "DuplicateKey"@
            && "BudgetExhausted"@ != "DuplicateKey"@,
        settled(SpecDatom::Word("Exhausted"@)),
        settled(SpecDatom::Word("BudgetExhausted"@)),
        carried(SpecDatom::Word("Exhausted"@)) == SpecDatom::Word("Exhausted"@),
        carried(SpecDatom::Word("BudgetExhausted"@)) == SpecDatom::Word("BudgetExhausted"@),
{
    reveal_strlit("Shape");
    reveal_strlit("Arity");
    reveal_strlit("UnknownVariant");
    reveal_strlit("Value");
    reveal_strlit("Formless");
    reveal_strlit("OneValue");
    reveal_strlit("Exhausted");
    reveal_strlit("BudgetExhausted");
    reveal_strlit("DuplicateKey");
    reveal_with_fuel(letters, 16);
    assert("Shape"@[0] == 'S' && "Arity"@[0] == 'A' && "UnknownVariant"@[0] == 'U' && "Value"@[0]
        == 'V' && "Formless"@[0] == 'F' && "OneValue"@[0] == 'O' && "Exhausted"@[0] == 'E'
        && "BudgetExhausted"@[0] == 'B' && "DuplicateKey"@[0] == 'D');
    lemma_name("DuplicateKey"@);
    lemma_name("Shape"@);
    lemma_name("Arity"@);
    lemma_name("UnknownVariant"@);
    lemma_name("Value"@);
    lemma_name("Formless"@);
    lemma_name("OneValue"@);
    lemma_name("Exhausted"@);
    lemma_name("BudgetExhausted"@);
}

/// A shape problem's datom is settled, and reads back as the problem.
proof fn lemma_shape_reads_back(e: Expected, f: Found, at: SpecSituation, budget: nat)
    requires
        budget >= 2,
    ensures
        settled(problem_concept(SpecProblem::Shape(e, f))),
        problem_reading(problem_concept(SpecProblem::Shape(e, f)), at, budget) == (
            Ok::<SpecProblem, SpecFault>(SpecProblem::Shape(e, f)),
            (budget - 2) as nat,
        ),
{
    lemma_problem_names();
    lemma_pair_reads_back::<Expected, Found>(e, f, crate::conception::part(at, 1), true, budget);
}

/// A problem's datom is settled.
proof fn lemma_problem_settled(m: SpecProblem)
    ensures
        settled(problem_concept(m)),
{
    lemma_problem_names();
    let nowhere = SpecSituation { extent: (0, 0), children: Seq::empty() };
    match m {
        SpecProblem::Shape(e, f) => {
            lemma_shape_reads_back(e, f, nowhere, 2);
        },
        SpecProblem::Value(v) => {
            assert(settled(SpecDatom::Meaning(v)));
        },
        SpecProblem::Arity(x, y) => {
            lemma_pair_reads_back::<i64, i64>(x, y, nowhere, true, 2);
        },
        SpecProblem::UnknownVariant(n) => {
            lemma_text_reads_back(n, nowhere);
            lemma_carried(text_concept(n));
        },
        SpecProblem::DuplicateKey(k) => {
            lemma_text_reads_back(k, nowhere);
            lemma_carried(text_concept(k));
        },
        SpecProblem::Formless(f) => {
            crate::worded::lemma_word_reads_back::<Found>(f, nowhere);
        },
        SpecProblem::OneValue(n) => {
            <i64 as Datomic>::lemma_reads_back(n, nowhere, 0);
        },
        _ => {},
    }
}

/// A problem's datom is settled, and reads back, carried or not, as the problem.
#[verifier::spinoff_prover]
proof fn lemma_problem_reads_back(m: SpecProblem, at: SpecSituation, budget: nat)
    requires
        problem_sound(m),
        budget >= <Problem as Datomic>::cost(m),
    ensures
        settled(problem_concept(m)),
        problem_reading(problem_concept(m), at, budget) == (
            Ok::<SpecProblem, SpecFault>(m),
            (budget - <Problem as Datomic>::cost(m)) as nat,
        ),
        problem_reading(carried(problem_concept(m)), at, budget) == (
            Ok::<SpecProblem, SpecFault>(m),
            (budget - <Problem as Datomic>::cost(m)) as nat,
        ),
{
    lemma_problem_names();
    lemma_problem_settled(m);
    let body_at = crate::conception::part(at, 1);
    match m {
        SpecProblem::Shape(e, f) => {
            lemma_shape_reads_back(e, f, at, budget);
        },
        SpecProblem::Arity(x, y) => {
            lemma_pair_reads_back::<i64, i64>(x, y, body_at, true, budget);
        },
        SpecProblem::UnknownVariant(n) => {
            lemma_text_reads_back(n, body_at);
            lemma_carried(text_concept(n));
        },
        SpecProblem::DuplicateKey(k) => {
            lemma_text_reads_back(k, body_at);
            lemma_carried(text_concept(k));
        },
        SpecProblem::Value(v) => {
            assert(settled(SpecDatom::Meaning(v)));
        },
        SpecProblem::Formless(f) => {
            <Found as Datomic>::lemma_reads_back(f, body_at, (budget - 1) as nat);
            crate::worded::lemma_word_reads_back::<Found>(f, body_at);
        },
        SpecProblem::OneValue(n) => {
            <i64 as Datomic>::lemma_reads_back(n, body_at, (budget - 1) as nat);
        },
        _ => {},
    }
}

/// The datom of a fault.
pub open spec fn fault_concept(m: SpecFault) -> SpecDatom {
    match m {
        SpecFault::Unstructured(sf) => SpecDatom::Variant(
            "Structural"@,
            Box::new(<StructuralFault as Datomic>::concept(sf)),
        ),
        SpecFault::Conceptual(p, e, q) => SpecDatom::Variant(
            "Conceptual"@,
            Box::new(pair_concept::<Locus, Problem>((p, e), q)),
        ),
        SpecFault::Corporate(p, e, q) => SpecDatom::Variant(
            "Corporate"@,
            Box::new(pair_concept::<Locus, Problem>((p, e), q)),
        ),
    }
}

/// Reading a fault.
pub open spec fn fault_reading(d: SpecDatom, at: SpecSituation, budget: nat) -> (
    Result<SpecFault, SpecFault>,
    nat,
) {
    match variant_of(d, at) {
        Err(e) => (Err(e), budget),
        Ok((name, body)) => if name == "Structural"@ {
            let (r, left) = bodied::<StructuralFault>(body, at, budget);
            (
                match r {
                    Ok(sf) => Ok(SpecFault::Unstructured(sf)),
                    Err(e) => Err(e),
                },
                left,
            )
        } else if name == "Conceptual"@ {
            let (r, left) = inline_pair::<Locus, Problem>(body, at, budget);
            (
                match r {
                    Ok((l, q)) => Ok(SpecFault::Conceptual(l.0, l.1, q)),
                    Err(e) => Err(e),
                },
                left,
            )
        } else if name == "Corporate"@ {
            let (r, left) = inline_pair::<Locus, Problem>(body, at, budget);
            (
                match r {
                    Ok((l, q)) => Ok(SpecFault::Corporate(l.0, l.1, q)),
                    Err(e) => Err(e),
                },
                left,
            )
        } else {
            (Err(refusal(at, unknown(name))), budget)
        },
    }
}

impl Datomic for Fault {
    type Model = SpecFault;

    open spec fn model(&self) -> SpecFault {
        self@
    }

    open spec fn concept(m: SpecFault) -> SpecDatom {
        fault_concept(m)
    }

    open spec fn reading(d: SpecDatom, at: SpecSituation, budget: nat) -> (
        Result<SpecFault, SpecFault>,
        nat,
    ) {
        fault_reading(d, at, budget)
    }

    open spec fn cost(m: SpecFault) -> nat {
        match m {
            SpecFault::Unstructured(sf) => 1 + <StructuralFault as Datomic>::cost(sf),
            SpecFault::Conceptual(p, e, q) => 2 + <Locus as Datomic>::cost((p, e))
                + <Problem as Datomic>::cost(q),
            SpecFault::Corporate(p, e, q) => 2 + <Locus as Datomic>::cost((p, e))
                + <Problem as Datomic>::cost(q),
        }
    }

    open spec fn sound(m: SpecFault) -> bool {
        match m {
            SpecFault::Unstructured(_) => true,
            SpecFault::Conceptual(_, _, q) => problem_sound(q),
            SpecFault::Corporate(_, _, q) => problem_sound(q),
        }
    }

    fn incorporate(datom: &Datom, at: &Situation, budget: &mut IncorporationBudget) -> (r: Result<
        Fault,
        Fault,
    >) {
        let v = match Site::new(datom, at).variant() {
            Ok(v) => v,
            Err(e) => {
                return Err(e);
            },
        };
        let name = v.name();
        if is_named(name, "Structural") {
            match v.body::<StructuralFault>(budget) {
                Ok(sf) => Ok(Fault::Unstructured(sf)),
                Err(e) => Err(e),
            }
        } else if is_named(name, "Conceptual") {
            match incorporate_inline_pair::<Locus, Problem>(v, budget) {
                Ok((l, q)) => Ok(Fault::Conceptual(l, q)),
                Err(e) => Err(e),
            }
        } else if is_named(name, "Corporate") {
            match incorporate_inline_pair::<Locus, Problem>(v, budget) {
                Ok((l, q)) => Ok(Fault::Corporate(l, q)),
                Err(e) => Err(e),
            }
        } else {
            Err(v.reject(unknown_variant(name)))
        }
    }

    fn conceive(&self) -> (d: Datom) {
        let d = match self {
            Fault::Unstructured(sf) => variant_datom("Structural", sf.conceive()),
            Fault::Conceptual(l, q) => variant_datom(
                "Conceptual",
                conceive_pair::<Locus, Problem>(l, q),
            ),
            Fault::Corporate(l, q) => variant_datom("Corporate", conceive_pair::<Locus, Problem>(l, q)),
        };
        proof {
            assert(Self::sound(self.model()));
        }
        d
    }

    #[verifier::rlimit(40)]
    proof fn lemma_reads_back(m: SpecFault, at: SpecSituation, budget: nat) {
        reveal_strlit("Structural");
        reveal_strlit("Conceptual");
        reveal_strlit("Corporate");
        reveal_with_fuel(letters, 11);
        assert("Structural"@[0] == 'S' && "Conceptual"@[0] == 'C' && "Corporate"@[0] == 'C');
        assert("Structural"@.len() == 10 && "Conceptual"@.len() == 10 && "Corporate"@.len() == 9);
        lemma_name("Structural"@);
        lemma_name("Conceptual"@);
        lemma_name("Corporate"@);
        let body_at = crate::conception::part(at, 1);
        match m {
            SpecFault::Unstructured(sf) => {
                <StructuralFault as Datomic>::lemma_reads_back(sf, body_at, (budget - 1) as nat);
            },
            SpecFault::Conceptual(p, e, q) => {
                lemma_pair_reads_back::<Locus, Problem>((p, e), q, body_at, true, budget);
            },
            SpecFault::Corporate(p, e, q) => {
                lemma_pair_reads_back::<Locus, Problem>((p, e), q, body_at, true, budget);
            },
        }
    }
}

// ----- the round trip of a fault -----

/// The longest name a problem holds: what its text may nest beyond the fixed levels.
pub open spec fn problem_reach(q: SpecProblem) -> nat {
    match q {
        SpecProblem::UnknownVariant(n) => n.len(),
        SpecProblem::DuplicateKey(k) => k.len(),
        _ => 0,
    }
}

/// The longest name a fault holds.
pub open spec fn fault_reach(m: SpecFault) -> nat {
    match m {
        SpecFault::Unstructured(_) => 0,
        SpecFault::Conceptual(_, _, q) => problem_reach(q),
        SpecFault::Corporate(_, _, q) => problem_reach(q),
    }
}

/// A word of letters has no separator.
proof fn lemma_letters_unseparated(w: Seq<char>)
    requires
        letters(w),
    ensures
        no_separator(w),
    decreases w.len(),
{
    if w.len() > 0 {
        lemma_letters_unseparated(w.drop_first());
        assert forall|j: int| 0 <= j < w.len() implies !is_separator(#[trigger] w[j]) by {
            if j > 0 {
                assert(w[j] == w.drop_first()[j - 1]);
            }
        }
    }
}

/// A word with no separator is written as one bare run.
proof fn lemma_unseparated_nesting(w: Seq<char>)
    requires
        no_separator(w),
    ensures
        nesting(protosized(SpecDatom::Word(w))) == 0,
{
    assert(!chain_word(w));
}

/// The datom of a worded value is written as one bare run.
proof fn lemma_worded_nesting<W: Worded>(v: W)
    ensures
        nesting(protosized(SpecDatom::Word(W::word_of(v)))) == 0,
{
    W::lemma_words(v);
    lemma_letters_unseparated(W::word_of(v));
    lemma_unseparated_nesting(W::word_of(v));
}

/// The datom of an integer is written as one bare run.
proof fn lemma_integer_nesting(v: i64)
    ensures
        nesting(protosized(<i64 as Datomic>::concept(v))) == 0,
{
    let w = integer_word(v as int);
    lemma_integer_word_glyphs(v as int);
    assert forall|j: int| 0 <= j < w.len() implies !is_separator(#[trigger] w[j]) by {
        assert(is_digit(w[j]) || w[j] == '-');
    }
    lemma_unseparated_nesting(w);
}

/// A struct of two datoms nests one level deeper than the deeper of them.
proof fn lemma_pair_nesting(a: SpecDatom, b: SpecDatom, k: nat)
    requires
        nesting(protosized(a)) <= k,
        nesting(protosized(b)) <= k,
    ensures
        nesting(protosized(SpecDatom::Struct(seq![a, b]))) <= k + 1,
{
    let ds = seq![a, b];
    lemma_protosized_all(ds);
    let fs = protosized_all(ds);
    assert(fs.drop_first().drop_first() =~= Seq::<SpecForm>::empty());
    assert(fs.drop_first()[0] == fs[1]);
    assert(deepest(fs.drop_first().drop_first()) == 0);
    assert(deepest(fs.drop_first()) <= k);
    assert(deepest(fs) <= k);
}

/// Datoms that each nest at most `k` deep nest at most `k` deep together.
proof fn lemma_deepest_bound(fs: Seq<SpecForm>, k: nat)
    requires
        forall|i: int| 0 <= i < fs.len() ==> nesting(#[trigger] fs[i]) <= k,
    ensures
        deepest(fs) <= k,
    decreases fs.len(),
{
    if fs.len() > 0 {
        assert forall|i: int| 0 <= i < fs.drop_first().len() implies nesting(
            #[trigger] fs.drop_first()[i],
        ) <= k by {
            assert(fs.drop_first()[i] == fs[i + 1]);
        }
        lemma_deepest_bound(fs.drop_first(), k);
        assert(nesting(fs[0]) <= k);
    }
}

/// A path is written as a vector of bare runs.
proof fn lemma_path_nesting(p: Seq<i64>)
    ensures
        nesting(protosized(<Vec<i64> as Datomic>::concept(p))) <= 1,
{
    let ds = crate::containers::concepts::<i64>(p);
    crate::containers::lemma_concepts::<i64>(p);
    lemma_protosized_all(ds);
    let fs = protosized_all(ds);
    assert forall|i: int| 0 <= i < fs.len() implies nesting(#[trigger] fs[i]) <= 0 by {
        lemma_integer_nesting(p[i]);
    }
    lemma_deepest_bound(fs, 0);
}

/// The text of a problem nests at most twice beyond its longest name, or as
/// deep as the word it is when it carries nothing.
proof fn lemma_problem_nesting(q: SpecProblem)
    ensures
        nesting(protosized(problem_concept(q))) <= 15 + problem_reach(q),
{
    lemma_problem_names();
    match q {
        SpecProblem::Shape(e, f) => {
            lemma_worded_nesting::<Expected>(e);
            lemma_worded_nesting::<Found>(f);
            assert(<Expected as Datomic>::concept(e) == SpecDatom::Word(
                <Expected as Worded>::word_of(e),
            ));
            assert(<Found as Datomic>::concept(f) == SpecDatom::Word(<Found as Worded>::word_of(f)));
            lemma_pair_nesting(<Expected as Datomic>::concept(e), <Found as Datomic>::concept(f), 0);
            let pc = pair_concept::<Expected, Found>(e, f);
            assert(pc == SpecDatom::Struct(
                seq![<Expected as Datomic>::concept(e), <Found as Datomic>::concept(f)],
            ));
            assert(nesting(protosized(pc)) <= 1);
            assert(protosized(problem_concept(q)) == SpecForm::Headed(
                "Shape"@,
                Separator::Period,
                Box::new(protosized(pc)),
            ));
        },
        SpecProblem::Arity(x, y) => {
            lemma_integer_nesting(x);
            lemma_integer_nesting(y);
            lemma_pair_nesting(<i64 as Datomic>::concept(x), <i64 as Datomic>::concept(y), 0);
        },
        SpecProblem::UnknownVariant(n) => {
            lemma_text_nesting(n);
            assert(nesting(protosized(problem_concept(q))) <= 15 + problem_reach(q));
        },
        SpecProblem::DuplicateKey(k) => {
            lemma_text_nesting(k);
            assert(nesting(protosized(problem_concept(q))) <= 15 + problem_reach(q));
        },
        SpecProblem::Formless(f) => {
            lemma_worded_nesting::<Found>(f);
            assert(nesting(protosized(problem_concept(q))) <= 15 + problem_reach(q));
        },
        SpecProblem::OneValue(n) => {
            lemma_integer_nesting(n);
            assert(nesting(protosized(problem_concept(q))) <= 15 + problem_reach(q));
        },
        SpecProblem::Exhausted => {
            reveal_strlit("Exhausted");
            lemma_bare_form_nesting("Exhausted"@);
            assert(nesting(protosized(problem_concept(q))) <= 15 + problem_reach(q));
        },
        SpecProblem::BudgetExhausted => {
            reveal_strlit("BudgetExhausted");
            lemma_bare_form_nesting("BudgetExhausted"@);
            assert(nesting(protosized(problem_concept(q))) <= 15 + problem_reach(q));
        },
        SpecProblem::Value(v) => {
            assert(protosized(SpecDatom::Meaning(v)) == SpecForm::Opaque(Boundary::Parentheses, v));
            assert(nesting(SpecForm::Opaque(Boundary::Parentheses, v)) == 0);
            assert(protosized(problem_concept(q)) == SpecForm::Headed(
                "Value"@,
                Separator::Period,
                Box::new(SpecForm::Opaque(Boundary::Parentheses, v)),
            ));
        },
    }
}

/// A fault whose names are shorter than the reader's depth by a margin reads
/// back from its canonical text as the fault.
pub proof fn lemma_fault_round_trip(m: SpecFault, budget: nat)
    requires
        <Fault as Datomic>::sound(m),
        budget >= 1 + <Fault as Datomic>::cost(m),
        fault_reach(m) + 17 <= MAX_DEPTH,
    ensures
        actualized::<Fault>(textualized::<Fault>(m), budget) == Ok::<SpecFault, SpecFault>(m),
{
    match m {
        SpecFault::Unstructured(sf) => {
            lemma_integer_nesting(sf.extent.0);
            lemma_integer_nesting(sf.extent.1);
            lemma_pair_nesting(
                <i64 as Datomic>::concept(sf.extent.0),
                <i64 as Datomic>::concept(sf.extent.1),
                0,
            );
            let sp = <StructuralProblem as Datomic>::concept(sf.problem);
            match sf.problem {
                StructuralProblem::Unclosed(e) => lemma_worded_nesting::<Enclosure>(e),
                StructuralProblem::Unopened(e) => lemma_worded_nesting::<Enclosure>(e),
                StructuralProblem::Unterminated(b) => lemma_worded_nesting::<Boundary>(b),
                StructuralProblem::Stray(b) => lemma_worded_nesting::<Boundary>(b),
                StructuralProblem::Depth => {
                    reveal_strlit("Depth");
                    lemma_bare_form_nesting("Depth"@);
                },
            }
            assert(nesting(protosized(sp)) <= 5);
            lemma_pair_nesting(<Extent as Datomic>::concept(sf.extent), sp, 5);
        },
        SpecFault::Conceptual(p, e, q) => {
            lemma_fault_pair_nesting(p, e, q);
        },
        SpecFault::Corporate(p, e, q) => {
            lemma_fault_pair_nesting(p, e, q);
        },
    }
    lemma_actualize_textualized::<Fault>(m, budget);
}

/// The locus and problem of a fault nest at most sixteen levels beyond the problem's longest name.
proof fn lemma_fault_pair_nesting(p: Seq<i64>, e: Extent, q: SpecProblem)
    ensures
        nesting(protosized(pair_concept::<Locus, Problem>((p, e), q))) <= 16 + problem_reach(q),
{
    lemma_path_nesting(p);
    lemma_integer_nesting(e.0);
    lemma_integer_nesting(e.1);
    lemma_pair_nesting(<i64 as Datomic>::concept(e.0), <i64 as Datomic>::concept(e.1), 0);
    lemma_pair_nesting(<Vec<i64> as Datomic>::concept(p), <Extent as Datomic>::concept(e), 1);
    lemma_problem_nesting(q);
    lemma_pair_nesting(
        <Locus as Datomic>::concept((p, e)),
        problem_concept(q),
        15 + problem_reach(q),
    );
}

} // verus!

//! The containers: vectors, options, results and boxes, each by the position rule.

use vstd::prelude::*;

use crate::anatomy::{
    unknown, unknown_variant, Datom, Fault, IncorporationBudget, Problem, SpecDatom, SpecFault,
    SpecProblem,
};
use crate::form::{Situation, SpecSituation};
use crate::kinds::{
    bare_variant, bodied, carried, carry, corporate, elements_of, incorporated, is_named, positioned,
    refusal, variant_datom, variant_of, word_datom, Datomic, Site,
};
use crate::protosization::{all_settled, carriable, lemma_all_settled, settled};

verus! {

/// A word made only of ASCII letters.
pub open spec fn is_letter(c: char) -> bool {
    ('a' <= c && c <= 'z') || ('A' <= c && c <= 'Z')
}

/// Whether every glyph of a word is a letter.
pub open spec fn letters(w: Seq<char>) -> bool
    decreases w.len(),
{
    if w.len() == 0 {
        true
    } else {
        is_letter(w[0]) && letters(w.drop_first())
    }
}

/// A non-empty word of letters is a plain symbol, and a settled word that a
/// variant carries as it is.
pub proof fn lemma_name(w: Seq<char>)
    requires
        w.len() > 0,
        letters(w),
    ensures
        crate::rereading::plain_symbol(w),
        crate::protosization::word_run(w),
        crate::reader::no_separator(w),
        settled(SpecDatom::Word(w)),
        carried(SpecDatom::Word(w)) == SpecDatom::Word(w),
{
    lemma_letters(w);
    crate::scalars::lemma_plain_word(w);
}

/// Every glyph of a word of letters is a letter.
proof fn lemma_letters(w: Seq<char>)
    requires
        letters(w),
    ensures
        forall|j: int| 0 <= j < w.len() ==> is_letter(#[trigger] w[j]),
    decreases w.len(),
{
    if w.len() > 0 {
        lemma_letters(w.drop_first());
        assert forall|j: int| 0 <= j < w.len() implies is_letter(#[trigger] w[j]) by {
            if j > 0 {
                assert(w[j] == w.drop_first()[j - 1]);
            }
        }
    }
}

/// A settled datom, carried, is settled and does not blur a variant's boundary.
pub proof fn lemma_carried(d: SpecDatom)
    requires
        settled(d),
    ensures
        settled(carried(d)),
        carriable(carried(d)),
{
}

// ----- vectors -----

/// The datoms of a sequence of values.
pub open spec fn concepts<T: Datomic>(ms: Seq<T::Model>) -> Seq<SpecDatom>
    decreases ms.len(),
{
    if ms.len() == 0 {
        Seq::empty()
    } else {
        seq![T::concept(ms[0])] + concepts::<T>(ms.drop_first())
    }
}

/// The units that reading a sequence of values spends: one for each, and each one's cost.
pub open spec fn costs<T: Datomic>(ms: Seq<T::Model>) -> nat
    decreases ms.len(),
{
    if ms.len() == 0 {
        0
    } else {
        1 + T::cost(ms[0]) + costs::<T>(ms.drop_first())
    }
}

/// Reading the elements of a vector from the `k`-th on, each as a `T`.
pub open spec fn elements_reading<T: Datomic>(
    ds: Seq<SpecDatom>,
    at: SpecSituation,
    k: int,
    budget: nat,
) -> (Result<Seq<T::Model>, SpecFault>, nat)
    decreases ds.len() - k,
{
    if k < 0 || k >= ds.len() {
        (Ok(Seq::empty()), budget)
    } else {
        let (r, left) = positioned::<T>(ds, at, k, false, budget);
        match r {
            Err(e) => (Err(e), left),
            Ok(m) => {
                let (rs, rest) = elements_reading::<T>(ds, at, k + 1, left);
                (
                    match rs {
                        Err(e) => Err(e),
                        Ok(ms) => Ok(seq![m] + ms),
                    },
                    rest,
                )
            },
        }
    }
}

/// The models of a sequence of values.
pub open spec fn models<T: Datomic>(vs: Seq<T>) -> Seq<T::Model> {
    vs.map_values(|v: T| v.model())
}

/// The datoms of values have one entry for each value.
pub proof fn lemma_concepts<T: Datomic>(ms: Seq<T::Model>)
    ensures
        concepts::<T>(ms).len() == ms.len(),
        forall|i: int| 0 <= i < ms.len() ==> #[trigger] concepts::<T>(ms)[i] == T::concept(ms[i]),
    decreases ms.len(),
{
    if ms.len() > 0 {
        lemma_concepts::<T>(ms.drop_first());
        assert forall|i: int| 0 <= i < ms.len() implies #[trigger] concepts::<T>(ms)[i] == T::concept(
            ms[i],
        ) by {
            if i > 0 {
                assert(concepts::<T>(ms)[i] == concepts::<T>(ms.drop_first())[i - 1]);
            }
        }
    }
}

/// Reading the datoms of values gives the values back, spending their costs.
proof fn lemma_elements_read_back<T: Datomic>(ms: Seq<T::Model>, at: SpecSituation, k: int, budget: nat)
    requires
        forall|i: int| 0 <= i < ms.len() ==> T::sound(#[trigger] ms[i]),
        0 <= k <= ms.len(),
        budget >= costs::<T>(ms.subrange(k, ms.len() as int)),
    ensures
        elements_reading::<T>(concepts::<T>(ms), at, k, budget) == (
            Ok::<Seq<T::Model>, SpecFault>(ms.subrange(k, ms.len() as int)),
            (budget - costs::<T>(ms.subrange(k, ms.len() as int))) as nat,
        ),
    decreases ms.len() - k,
{
    lemma_concepts::<T>(ms);
    let tail = ms.subrange(k, ms.len() as int);
    if k < ms.len() {
        let next = ms.subrange(k + 1, ms.len() as int);
        assert(tail.drop_first() =~= next);
        assert(tail[0] == ms[k]);
        let c = T::cost(ms[k]);
        T::lemma_reads_back(ms[k], crate::conception::part(at, k), (budget - 1) as nat);
        lemma_elements_read_back::<T>(ms, at, k + 1, (budget - 1 - c) as nat);
        assert(seq![ms[k]] + next =~= tail);
    } else {
        assert(tail =~= Seq::<T::Model>::empty());
    }
}

/// The datoms of values are all settled.
proof fn lemma_concepts_settled<T: Datomic>(ms: Seq<T::Model>)
    requires
        forall|i: int| 0 <= i < ms.len() ==> T::sound(#[trigger] ms[i]),
    ensures
        all_settled(concepts::<T>(ms)),
{
    lemma_concepts::<T>(ms);
    lemma_all_settled(concepts::<T>(ms));
    assert forall|i: int| 0 <= i < concepts::<T>(ms).len() implies #[trigger] settled(
        concepts::<T>(ms)[i],
    ) by {
        T::lemma_reads_back(ms[i], SpecSituation { extent: (0, 0), children: Seq::empty() }, T::cost(ms[i]));
    }
}

/// The datoms of values, pushed one by one.
proof fn lemma_models_push<T: Datomic>(vs: Seq<T>, v: T)
    ensures
        models::<T>(vs.push(v)) == models::<T>(vs).push(v.model()),
{
    assert(models::<T>(vs.push(v)) =~= models::<T>(vs).push(v.model()));
}

impl<T: Datomic> Datomic for Vec<T> {
    type Model = Seq<T::Model>;

    open spec fn model(&self) -> Seq<T::Model> {
        models::<T>(self@)
    }

    open spec fn concept(m: Seq<T::Model>) -> SpecDatom {
        SpecDatom::Vector(concepts::<T>(m))
    }

    open spec fn reading(d: SpecDatom, at: SpecSituation, budget: nat) -> (
        Result<Seq<T::Model>, SpecFault>,
        nat,
    ) {
        match elements_of(d, at) {
            Err(e) => (Err(e), budget),
            Ok(ds) => elements_reading::<T>(ds, at, 0, budget),
        }
    }

    open spec fn cost(m: Seq<T::Model>) -> nat {
        costs::<T>(m)
    }

    open spec fn sound(m: Seq<T::Model>) -> bool {
        forall|i: int| 0 <= i < m.len() ==> T::sound(#[trigger] m[i])
    }

    fn incorporate(datom: &Datom, at: &Situation, budget: &mut IncorporationBudget) -> (r: Result<
        Vec<T>,
        Fault,
    >) {
        let site = Site::new(datom, at);
        let mut elements = match site.elements() {
            Ok(p) => p,
            Err(e) => {
                return Err(e);
            },
        };
        let ghost ds = elements@.datoms;
        let ghost start = *budget;
        let mut values: Vec<T> = Vec::new();
        proof {
            assert(models::<T>(values@) =~= Seq::<T::Model>::empty());
            let (rs, left) = elements_reading::<T>(ds, at@, 0, budget@);
            match rs {
                Ok(ms) => {
                    assert(Seq::<T::Model>::empty() + ms =~= ms);
                },
                Err(_) => {},
            }
        }
        while elements.remaining() > 0
            invariant
                elements@.datoms == ds,
                elements@.at == at@,
                !elements@.body,
                0 <= elements@.index <= ds.len(),
                elements_of(datom@, at@) == Ok::<_, SpecFault>(ds),
                start@ == old(budget)@,
                elements_reading::<T>(ds, at@, 0, start@) == ({
                    let (rs, left) = elements_reading::<T>(ds, at@, elements@.index, budget@);
                    (
                        match rs {
                            Err(e) => Err(e),
                            Ok(ms) => Ok::<Seq<T::Model>, SpecFault>(models::<T>(values@) + ms),
                        },
                        left,
                    )
                }),
            decreases ds.len() - elements@.index,
        {
            let ghost k = elements@.index;
            let ghost before = models::<T>(values@);
            let ghost b0 = budget@;
            assert(k < ds.len());
            match elements.position::<T>(budget) {
                Ok(v) => {
                    proof {
                        lemma_models_push::<T>(values@, v);
                        let (rs, left) = elements_reading::<T>(ds, at@, k + 1, budget@);
                        match rs {
                            Ok(ms) => {
                                assert(before + (seq![v.model()] + ms) =~= before.push(v.model()) + ms);
                            },
                            Err(_) => {},
                        }
                    }
                    values.push(v);
                },
                Err(e) => {
                    proof {
                        assert(elements_reading::<T>(ds, at@, k, b0) == (
                            Err::<Seq<T::Model>, SpecFault>(e@),
                            budget@,
                        ));
                    }
                    return Err(e);
                },
            }
        }
        proof {
            let (rs, left) = elements_reading::<T>(ds, at@, elements@.index, budget@);
            assert(models::<T>(values@) + Seq::<T::Model>::empty() =~= models::<T>(values@));
        }
        Ok(values)
    }

    fn conceive(&self) -> (d: Datom) {
        let mut ds: Vec<Datom> = Vec::new();
        let mut k: usize = 0;
        proof {
            lemma_concepts::<T>(models::<T>(self@));
            crate::anatomy::lemma_datoms_view(ds@);
        }
        while k < self.len()
            invariant
                0 <= k <= self.len(),
                concepts::<T>(models::<T>(self@)).len() == self.len(),
                forall|i: int| 0 <= i < self.len() ==> #[trigger] concepts::<T>(models::<T>(self@))[i]
                    == T::concept(self@[i].model()),
                crate::anatomy::datoms_view(ds@) =~= concepts::<T>(models::<T>(self@)).subrange(
                    0,
                    k as int,
                ),
                forall|i: int| 0 <= i < k ==> T::sound(#[trigger] self@[i].model()),
            decreases self.len() - k,
        {
            let d = self[k].conceive();
            proof {
                crate::anatomy::lemma_datoms_push(ds@, d);
            }
            ds.push(d);
            k = k + 1;
        }
        assert(concepts::<T>(models::<T>(self@)).subrange(0, self.len() as int) =~= concepts::<T>(
            models::<T>(self@),
        ));
        let d = Datom::Vector(ds);
        proof {
            assert forall|i: int| 0 <= i < models::<T>(self@).len() implies T::sound(
                #[trigger] models::<T>(self@)[i],
            ) by {
                assert(models::<T>(self@)[i] == self@[i].model());
            }
            assert(Self::sound(self.model()));
        }
        d
    }

    proof fn lemma_reads_back(m: Seq<T::Model>, at: SpecSituation, budget: nat) {
        assert(m.subrange(0, m.len() as int) =~= m);
        lemma_elements_read_back::<T>(m, at, 0, budget);
        lemma_concepts_settled::<T>(m);
    }
}

// ----- options -----

impl<T: Datomic> Datomic for Option<T> {
    type Model = Option<T::Model>;

    open spec fn model(&self) -> Option<T::Model> {
        match self {
            Some(v) => Some(v.model()),
            None => None,
        }
    }

    open spec fn concept(m: Option<T::Model>) -> SpecDatom {
        match m {
            Some(v) => SpecDatom::Variant("Some"@, Box::new(carried(T::concept(v)))),
            None => SpecDatom::Word("None"@),
        }
    }

    open spec fn reading(d: SpecDatom, at: SpecSituation, budget: nat) -> (
        Result<Option<T::Model>, SpecFault>,
        nat,
    ) {
        match variant_of(d, at) {
            Err(e) => (Err(e), budget),
            Ok((name, body)) => if name == "Some"@ {
                let (r, left) = bodied::<T>(body, at, budget);
                (
                    match r {
                        Ok(m) => Ok(Some(m)),
                        Err(e) => Err(e),
                    },
                    left,
                )
            } else if name == "None"@ {
                (
                    match bare_variant(body, at) {
                        Ok(_) => Ok(None),
                        Err(e) => Err(e),
                    },
                    budget,
                )
            } else {
                (Err(refusal(at, unknown(name))), budget)
            },
        }
    }

    open spec fn cost(m: Option<T::Model>) -> nat {
        match m {
            Some(v) => 1 + T::cost(v),
            None => 0,
        }
    }

    open spec fn sound(m: Option<T::Model>) -> bool {
        match m {
            Some(v) => T::sound(v),
            None => true,
        }
    }

    fn incorporate(datom: &Datom, at: &Situation, budget: &mut IncorporationBudget) -> (r: Result<
        Option<T>,
        Fault,
    >) {
        let site = Site::new(datom, at);
        let v = match site.variant() {
            Ok(v) => v,
            Err(e) => {
                return Err(e);
            },
        };
        let name = v.name();
        if is_named(name, "Some") {
            match v.body::<T>(budget) {
                Ok(x) => Ok(Some(x)),
                Err(e) => Err(e),
            }
        } else if is_named(name, "None") {
            match v.nothing() {
                Ok(()) => Ok(None),
                Err(e) => Err(e),
            }
        } else {
            Err(v.reject(unknown_variant(name)))
        }
    }

    fn conceive(&self) -> (d: Datom) {
        let d = match self {
            Some(v) => variant_datom("Some", carry(v.conceive())),
            None => word_datom("None"),
        };
        proof {
            assert(Self::sound(self.model()));
        }
        d
    }

    proof fn lemma_reads_back(m: Option<T::Model>, at: SpecSituation, budget: nat) {
        reveal_strlit("Some");
        reveal_strlit("None");
        reveal_with_fuel(letters, 5);
        lemma_name("Some"@);
        lemma_name("None"@);
        assert("Some"@[0] != "None"@[0]);
        match m {
            Some(v) => {
                T::lemma_reads_back(v, crate::conception::part(at, 1), (budget - 1) as nat);
                lemma_carried(T::concept(v));
            },
            None => {},
        }
    }
}

// ----- results -----

impl<T: Datomic, E: Datomic> Datomic for Result<T, E> {
    type Model = Result<T::Model, E::Model>;

    open spec fn model(&self) -> Result<T::Model, E::Model> {
        match self {
            Ok(v) => Ok(v.model()),
            Err(e) => Err(e.model()),
        }
    }

    open spec fn concept(m: Result<T::Model, E::Model>) -> SpecDatom {
        match m {
            Ok(v) => SpecDatom::Variant("Ok"@, Box::new(carried(T::concept(v)))),
            Err(e) => SpecDatom::Variant("Err"@, Box::new(carried(E::concept(e)))),
        }
    }

    open spec fn reading(d: SpecDatom, at: SpecSituation, budget: nat) -> (
        Result<Result<T::Model, E::Model>, SpecFault>,
        nat,
    ) {
        match variant_of(d, at) {
            Err(e) => (Err(e), budget),
            Ok((name, body)) => if name == "Ok"@ {
                let (r, left) = bodied::<T>(body, at, budget);
                (
                    match r {
                        Ok(m) => Ok(Ok(m)),
                        Err(e) => Err(e),
                    },
                    left,
                )
            } else if name == "Err"@ {
                let (r, left) = bodied::<E>(body, at, budget);
                (
                    match r {
                        Ok(m) => Ok(Err(m)),
                        Err(e) => Err(e),
                    },
                    left,
                )
            } else {
                (Err(refusal(at, unknown(name))), budget)
            },
        }
    }

    open spec fn cost(m: Result<T::Model, E::Model>) -> nat {
        match m {
            Ok(v) => 1 + T::cost(v),
            Err(e) => 1 + E::cost(e),
        }
    }

    open spec fn sound(m: Result<T::Model, E::Model>) -> bool {
        match m {
            Ok(v) => T::sound(v),
            Err(e) => E::sound(e),
        }
    }

    fn incorporate(datom: &Datom, at: &Situation, budget: &mut IncorporationBudget) -> (r: Result<
        Result<T, E>,
        Fault,
    >) {
        let site = Site::new(datom, at);
        let v = match site.variant() {
            Ok(v) => v,
            Err(e) => {
                return Err(e);
            },
        };
        let name = v.name();
        if is_named(name, "Ok") {
            match v.body::<T>(budget) {
                Ok(x) => Ok(Ok(x)),
                Err(e) => Err(e),
            }
        } else if is_named(name, "Err") {
            match v.body::<E>(budget) {
                Ok(x) => Ok(Err(x)),
                Err(e) => Err(e),
            }
        } else {
            Err(v.reject(unknown_variant(name)))
        }
    }

    fn conceive(&self) -> (d: Datom) {
        let d = match self {
            Ok(v) => variant_datom("Ok", carry(v.conceive())),
            Err(e) => variant_datom("Err", carry(e.conceive())),
        };
        proof {
            assert(Self::sound(self.model()));
        }
        d
    }

    proof fn lemma_reads_back(m: Result<T::Model, E::Model>, at: SpecSituation, budget: nat) {
        reveal_strlit("Ok");
        reveal_strlit("Err");
        reveal_with_fuel(letters, 4);
        lemma_name("Ok"@);
        lemma_name("Err"@);
        assert("Ok"@[0] != "Err"@[0]);
        match m {
            Ok(v) => {
                T::lemma_reads_back(v, crate::conception::part(at, 1), (budget - 1) as nat);
                lemma_carried(T::concept(v));
            },
            Err(e) => {
                E::lemma_reads_back(e, crate::conception::part(at, 1), (budget - 1) as nat);
                lemma_carried(E::concept(e));
            },
        }
    }
}

// ----- boxes -----

impl<T: Datomic> Datomic for Box<T> {
    type Model = T::Model;

    open spec fn model(&self) -> T::Model {
        (**self).model()
    }

    open spec fn concept(m: T::Model) -> SpecDatom {
        T::concept(m)
    }

    open spec fn reading(d: SpecDatom, at: SpecSituation, budget: nat) -> (
        Result<T::Model, SpecFault>,
        nat,
    ) {
        incorporated::<T>(d, at, budget)
    }

    open spec fn cost(m: T::Model) -> nat {
        1 + T::cost(m)
    }

    open spec fn sound(m: T::Model) -> bool {
        T::sound(m)
    }

    fn incorporate(datom: &Datom, at: &Situation, budget: &mut IncorporationBudget) -> (r: Result<
        Box<T>,
        Fault,
    >) {
        match corporate::<T>(datom, at, budget) {
            Ok(v) => Ok(Box::new(v)),
            Err(e) => Err(e),
        }
    }

    fn conceive(&self) -> (d: Datom) {
        let d = (**self).conceive();
        proof {
            assert(Self::sound(self.model()));
        }
        d
    }

    proof fn lemma_reads_back(m: T::Model, at: SpecSituation, budget: nat) {
        T::lemma_reads_back(m, at, (budget - 1) as nat);
    }
}

} // verus!

//! Records: reports of grouped entries, notes of four texts, and the kinds
//! that select how each datom is read.

use vstd::prelude::*;

use crate::anatomy::{
    datoms_view, lemma_datoms_push, lemma_datoms_view, within, Datom, Expected, Fault, Found,
    IncorporationBudget, Problem, SpecDatom, SpecFault, SpecProblem, unknown, unknown_variant,
};
use crate::conception::{count_of, counted, part, part_at};
use crate::containers::{concepts, costs, lemma_carried, lemma_name, letters, models};
use crate::form::{Situation, SpecSituation};
use crate::keyed::{keyed, keyed_costs, Keyed};
use crate::kinds::{
    bodied, carried, carry, corporate, fields, found, found_of, incorporated, is_named, positioned,
    refusal, refuse_at, rejoined, texted, variant_datom, variant_of, Datomic, Site,
};
use crate::protosization::{all_settled, carriable, lemma_all_settled, settled};
use crate::scalars::{conceive_text, lemma_text_reads_back, text_concept, text_reading};

verus! {

// ----- text -----

/// A text of a record: written bare when it can be, quoted otherwise.
#[derive(Clone, Debug, PartialEq, Eq)]
pub struct Text(pub String);

impl Datomic for Text {
    type Model = Seq<char>;

    open spec fn model(&self) -> Seq<char> {
        self.0@
    }

    open spec fn concept(m: Seq<char>) -> SpecDatom {
        text_concept(m)
    }

    open spec fn reading(d: SpecDatom, at: SpecSituation, budget: nat) -> (
        Result<Seq<char>, SpecFault>,
        nat,
    ) {
        text_reading(d, at, budget)
    }

    open spec fn cost(m: Seq<char>) -> nat {
        0
    }

    open spec fn sound(m: Seq<char>) -> bool {
        true
    }

    fn incorporate(datom: &Datom, at: &Situation, budget: &mut IncorporationBudget) -> (r: Result<
        Text,
        Fault,
    >) {
        match Site::new(datom, at).text() {
            Ok(t) => Ok(Text(t)),
            Err(e) => Err(e),
        }
    }

    fn conceive(&self) -> (d: Datom) {
        proof {
            assert(Self::sound(self.model()));
        }
        conceive_text(&self.0)
    }

    proof fn lemma_reads_back(m: Seq<char>, at: SpecSituation, budget: nat) {
        lemma_text_reads_back(m, at);
    }
}

/// How a text position takes a datom.
#[derive(Clone, Copy, Debug, PartialEq, Eq, Structural)]
pub enum TextSelection {
    /// Quoted text, a word, or a chain of words rejoined.
    Plain,
}

/// Whether a datom can be read as text.
pub open spec fn text_selected(d: SpecDatom) -> bool {
    d is Text || rejoined(d) is Some
}

impl Text {
    /// How a text position takes this datom, if it takes it at all.
    pub fn select(datom: &Datom) -> (r: Option<TextSelection>)
        ensures
            r == if text_selected(datom@) {
                Some(TextSelection::Plain)
            } else {
                None::<TextSelection>
            },
    {
        let nowhere = Situation { extent: crate::form::Extent(0, 0), children: Vec::new() };
        match Site::new(datom, &nowhere).text() {
            Ok(_) => Some(TextSelection::Plain),
            Err(_) => None,
        }
    }
}

// ----- tag lists -----

/// A list of tags.
#[derive(Clone, Debug, PartialEq, Eq)]
pub struct TagList(pub Vec<Text>);

impl Datomic for TagList {
    type Model = Seq<Seq<char>>;

    open spec fn model(&self) -> Seq<Seq<char>> {
        models::<Text>(self.0@)
    }

    open spec fn concept(m: Seq<Seq<char>>) -> SpecDatom {
        <Vec<Text> as Datomic>::concept(m)
    }

    open spec fn reading(d: SpecDatom, at: SpecSituation, budget: nat) -> (
        Result<Seq<Seq<char>>, SpecFault>,
        nat,
    ) {
        <Vec<Text> as Datomic>::reading(d, at, budget)
    }

    open spec fn cost(m: Seq<Seq<char>>) -> nat {
        <Vec<Text> as Datomic>::cost(m)
    }

    open spec fn sound(m: Seq<Seq<char>>) -> bool {
        true
    }

    fn incorporate(datom: &Datom, at: &Situation, budget: &mut IncorporationBudget) -> (r: Result<
        TagList,
        Fault,
    >) {
        match <Vec<Text> as Datomic>::incorporate(datom, at, budget) {
            Ok(tags) => Ok(TagList(tags)),
            Err(e) => Err(e),
        }
    }

    fn conceive(&self) -> (d: Datom) {
        proof {
            assert(Self::sound(self.model()));
        }
        self.0.conceive()
    }

    proof fn lemma_reads_back(m: Seq<Seq<char>>, at: SpecSituation, budget: nat) {
        <Vec<Text> as Datomic>::lemma_reads_back(m, at, budget);
    }
}

/// How a tag list position takes a datom.
#[derive(Clone, Copy, Debug, PartialEq, Eq, Structural)]
pub enum TagListSelection {
    /// The elements of a vector.
    Payload,
}

impl TagList {
    /// How a tag list position takes this datom, if it takes it at all.
    pub fn select(datom: &Datom) -> (r: Option<TagListSelection>)
        ensures
            r == if datom@ is Vector {
                Some(TagListSelection::Payload)
            } else {
                None::<TagListSelection>
            },
    {
        match datom {
            Datom::Vector(_) => Some(TagListSelection::Payload),
            _ => None,
        }
    }
}

// ----- entries and groups -----

/// An entry of a report: a note, a group of entries, or a list of tags.
#[derive(Debug, PartialEq, Eq)]
pub enum Entry {
    /// A note.
    Note(Text),
    /// A group of entries.
    Group(Group),
    /// A list of tags.
    Tags(TagList),
}

/// A titled group of entries, with annotations under keys.
#[derive(Debug, PartialEq, Eq)]
pub struct Group {
    /// The title.
    pub title: Text,
    /// The entries of the group.
    pub children: Vec<Entry>,
    /// The annotations, under their keys.
    pub annotations: Keyed<Text>,
}

/// The mathematical entry.
pub enum SpecEntry {
    Note(Seq<char>),
    Group(SpecGroup),
    Tags(Seq<Seq<char>>),
}

/// The mathematical group.
pub struct SpecGroup {
    pub title: Seq<char>,
    pub children: Seq<SpecEntry>,
    pub annotations: Seq<(Seq<char>, Seq<char>)>,
}

/// The model of an entry.
pub open spec fn entry_model(e: Entry) -> SpecEntry
    decreases e,
{
    match e {
        Entry::Note(t) => SpecEntry::Note(t.0@),
        Entry::Group(g) => SpecEntry::Group(group_model(g)),
        Entry::Tags(t) => SpecEntry::Tags(models::<Text>(t.0@)),
    }
}

/// The model of a group.
pub open spec fn group_model(g: Group) -> SpecGroup
    decreases g,
{
    SpecGroup {
        title: g.title.0@,
        children: entry_models(g.children@),
        annotations: g.annotations.entries_view(),
    }
}

/// The models of entries.
pub open spec fn entry_models(es: Seq<Entry>) -> Seq<SpecEntry>
    decreases es,
{
    if es.len() == 0 {
        Seq::empty()
    } else {
        seq![entry_model(es[0])] + entry_models(es.drop_first())
    }
}

/// The datom of an entry: the kind of entry heads what it holds.
pub open spec fn entry_concept(m: SpecEntry) -> SpecDatom
    decreases m,
{
    match m {
        SpecEntry::Note(t) => SpecDatom::Variant("Note"@, Box::new(carried(text_concept(t)))),
        SpecEntry::Group(g) => SpecDatom::Variant("Group"@, Box::new(group_concept(g))),
        SpecEntry::Tags(ts) => SpecDatom::Variant(
            "Tags"@,
            Box::new(SpecDatom::Vector(concepts::<Text>(ts))),
        ),
    }
}

/// The datom of a group: a struct of its title, its entries and its annotations.
pub open spec fn group_concept(g: SpecGroup) -> SpecDatom
    decreases g,
{
    SpecDatom::Struct(
        seq![
            text_concept(g.title),
            SpecDatom::Vector(entry_concepts(g.children)),
            <Keyed<Text> as Datomic>::concept(g.annotations),
        ],
    )
}

/// The datoms of entries.
pub open spec fn entry_concepts(cs: Seq<SpecEntry>) -> Seq<SpecDatom>
    decreases cs,
{
    if cs.len() == 0 {
        Seq::empty()
    } else {
        seq![entry_concept(cs[0])] + entry_concepts(cs.drop_first())
    }
}

/// Reading an entry.
pub open spec fn entry_reading(d: SpecDatom, at: SpecSituation, budget: nat) -> (
    Result<SpecEntry, SpecFault>,
    nat,
)
    decreases d, 0int,
{
    match d {
        SpecDatom::Variant(name, body) => if name == "Note"@ {
            let (r, left) = bodied::<Text>(Some(*body), at, budget);
            (
                match r {
                    Ok(t) => Ok(SpecEntry::Note(t)),
                    Err(e) => Err(e),
                },
                left,
            )
        } else if name == "Group"@ {
            if budget == 0 {
                (Err(within(refusal(part(at, 1), SpecProblem::BudgetExhausted), 1)), 0)
            } else {
                let (r, left) = group_reading(*body, part(at, 1), (budget - 1) as nat);
                (
                    match r {
                        Ok(g) => Ok(SpecEntry::Group(g)),
                        Err(e) => Err(within(e, 1)),
                    },
                    left,
                )
            }
        } else if name == "Tags"@ {
            let (r, left) = bodied::<TagList>(Some(*body), at, budget);
            (
                match r {
                    Ok(ts) => Ok(SpecEntry::Tags(ts)),
                    Err(e) => Err(e),
                },
                left,
            )
        } else {
            (Err(refusal(at, unknown(name))), budget)
        },
        SpecDatom::Word(name) => if name == "Note"@ || name == "Group"@ || name == "Tags"@ {
            (Err(refusal(at, SpecProblem::Shape(Expected::Variant, Found::Word))), budget)
        } else {
            (Err(refusal(at, unknown(name))), budget)
        },
        _ => (Err(refusal(at, SpecProblem::Shape(Expected::Variant, found_of(d)))), budget),
    }
}

/// Reading a group: a struct of three positions.
pub open spec fn group_reading(d: SpecDatom, at: SpecSituation, budget: nat) -> (
    Result<SpecGroup, SpecFault>,
    nat,
)
    decreases d, 0int,
{
    match d {
        SpecDatom::Struct(ds) => if ds.len() == 3 {
            let (r0, b0) = positioned::<Text>(ds, at, 0, false, budget);
            match r0 {
                Err(e) => (Err(e), b0),
                Ok(title) => {
                    let (r1, b1) = children_positioned(ds, at, b0);
                    match r1 {
                        Err(e) => (Err(e), b1),
                        Ok(children) => {
                            let (r2, b2) = positioned::<Keyed<Text>>(ds, at, 2, false, b1);
                            match r2 {
                                Err(e) => (Err(e), b2),
                                Ok(annotations) => (
                                    Ok(SpecGroup { title, children, annotations }),
                                    b2,
                                ),
                            }
                        },
                    }
                },
            }
        } else {
            (
                Err(refusal(at, SpecProblem::Arity(3, counted(ds.len() as int) as i64))),
                budget,
            )
        },
        _ => (Err(refusal(at, SpecProblem::Shape(Expected::Struct, found_of(d)))), budget),
    }
}

/// Reading the entries at position one of a group.
pub open spec fn children_positioned(ds: Seq<SpecDatom>, at: SpecSituation, budget: nat) -> (
    Result<Seq<SpecEntry>, SpecFault>,
    nat,
)
    decreases ds, 0int,
{
    if ds.len() <= 1 {
        (Err(refusal(at, SpecProblem::Exhausted)), budget)
    } else if budget == 0 {
        (Err(within(refusal(part(at, 1), SpecProblem::BudgetExhausted), 1)), 0)
    } else {
        let (r, left) = entry_list_reading(ds[1], part(at, 1), (budget - 1) as nat);
        (
            match r {
                Ok(cs) => Ok(cs),
                Err(e) => Err(within(e, 1)),
            },
            left,
        )
    }
}

/// Reading a vector of entries.
pub open spec fn entry_list_reading(d: SpecDatom, at: SpecSituation, budget: nat) -> (
    Result<Seq<SpecEntry>, SpecFault>,
    nat,
)
    decreases d, 0int,
{
    match d {
        SpecDatom::Vector(es) => entry_elements(es, at, 0, budget),
        _ => (Err(refusal(at, SpecProblem::Shape(Expected::Vector, found_of(d)))), budget),
    }
}

/// Reading the entries of a vector from the `k`-th on.
pub open spec fn entry_elements(es: Seq<SpecDatom>, at: SpecSituation, k: int, budget: nat) -> (
    Result<Seq<SpecEntry>, SpecFault>,
    nat,
)
    decreases es, es.len() - k,
{
    if k < 0 || k >= es.len() {
        (Ok(Seq::empty()), budget)
    } else if budget == 0 {
        (Err(within(refusal(part(at, k), SpecProblem::BudgetExhausted), k)), 0)
    } else {
        let (r, left) = entry_reading(es[k], part(at, k), (budget - 1) as nat);
        match r {
            Err(e) => (Err(within(e, k)), left),
            Ok(m) => {
                let (rs, rest) = entry_elements(es, at, k + 1, left);
                (
                    match rs {
                        Err(e) => Err(e),
                        Ok(ms) => Ok(seq![m] + ms),
                    },
                    rest,
                )
            },
        }
    }
}

/// The units that reading an entry spends.
pub open spec fn entry_cost(m: SpecEntry) -> nat
    decreases m,
{
    match m {
        SpecEntry::Note(_) => 1,
        SpecEntry::Group(g) => 1 + group_cost(g),
        SpecEntry::Tags(ts) => 1 + costs::<Text>(ts),
    }
}

/// The units that reading a group spends.
pub open spec fn group_cost(g: SpecGroup) -> nat
    decreases g,
{
    1 + (1 + entries_cost(g.children)) + (1 + keyed_costs::<Text>(g.annotations))
}

/// The units that reading entries spends: one for each, and each one's cost.
pub open spec fn entries_cost(cs: Seq<SpecEntry>) -> nat
    decreases cs,
{
    if cs.len() == 0 {
        0
    } else {
        1 + entry_cost(cs[0]) + entries_cost(cs.drop_first())
    }
}

/// The entries that values have: groups whose annotations are keyed.
pub open spec fn entry_sound(m: SpecEntry) -> bool
    decreases m,
{
    match m {
        SpecEntry::Group(g) => group_sound(g),
        _ => true,
    }
}

/// The groups that values have: annotations keyed, entries sound.
pub open spec fn group_sound(g: SpecGroup) -> bool
    decreases g,
{
    keyed(g.annotations) && entries_sound(g.children)
}

/// Entries that are all sound.
pub open spec fn entries_sound(cs: Seq<SpecEntry>) -> bool
    decreases cs,
{
    if cs.len() == 0 {
        true
    } else {
        entry_sound(cs[0]) && entries_sound(cs.drop_first())
    }
}

/// The outcome of an entry reader, as mathematics sees it.
pub open spec fn entry_outcome(r: Result<Entry, Fault>) -> Result<SpecEntry, SpecFault> {
    match r {
        Ok(e) => Ok(entry_model(e)),
        Err(f) => Err(f@),
    }
}

/// The outcome of a group reader, as mathematics sees it.
pub open spec fn group_outcome(r: Result<Group, Fault>) -> Result<SpecGroup, SpecFault> {
    match r {
        Ok(g) => Ok(group_model(g)),
        Err(f) => Err(f@),
    }
}

/// The models of entries have one entry for each.
proof fn lemma_entry_models(es: Seq<Entry>)
    ensures
        entry_models(es).len() == es.len(),
        forall|i: int| 0 <= i < es.len() ==> #[trigger] entry_models(es)[i] == entry_model(es[i]),
    decreases es.len(),
{
    if es.len() > 0 {
        lemma_entry_models(es.drop_first());
        assert forall|i: int| 0 <= i < es.len() implies #[trigger] entry_models(es)[i] == entry_model(
            es[i],
        ) by {
            if i > 0 {
                assert(entry_models(es)[i] == entry_models(es.drop_first())[i - 1]);
            }
        }
    }
}

/// An entry, from a datom at its situation.
fn read_entry(datom: &Datom, at: &Situation, budget: &mut IncorporationBudget) -> (r: Result<
    Entry,
    Fault,
>)
    ensures
        entry_reading(datom@, at@, old(budget)@) == (entry_outcome(r), final(budget)@),
    decreases datom,
{
    match datom {
        Datom::Variant(name, body) => {
            if is_named(name, "Note") {
                match corporate::<Text>(body, part_at(at, 1), budget) {
                    Ok(t) => Ok(Entry::Note(t)),
                    Err(e) => Err(e.within(1)),
                }
            } else if is_named(name, "Group") {
                if !budget.consume() {
                    return Err(refuse_at(part_at(at, 1), Problem::BudgetExhausted).within(1));
                }
                match read_group(body, part_at(at, 1), budget) {
                    Ok(g) => Ok(Entry::Group(g)),
                    Err(e) => Err(e.within(1)),
                }
            } else if is_named(name, "Tags") {
                match corporate::<TagList>(body, part_at(at, 1), budget) {
                    Ok(t) => Ok(Entry::Tags(t)),
                    Err(e) => Err(e.within(1)),
                }
            } else {
                Err(refuse_at(at, unknown_variant(name)))
            }
        },
        Datom::Word(name) => {
            if is_named(name, "Note") || is_named(name, "Group") || is_named(name, "Tags") {
                Err(refuse_at(at, Problem::Shape(Expected::Variant, Found::Word)))
            } else {
                Err(refuse_at(at, unknown_variant(name)))
            }
        },
        _ => Err(refuse_at(at, Problem::Shape(Expected::Variant, found(datom)))),
    }
}

/// A group, from a datom at its situation.
fn read_group(datom: &Datom, at: &Situation, budget: &mut IncorporationBudget) -> (r: Result<
    Group,
    Fault,
>)
    ensures
        group_reading(datom@, at@, old(budget)@) == (group_outcome(r), final(budget)@),
    decreases datom,
{
    match datom {
        Datom::Struct(ds) => {
            proof {
                lemma_datoms_view(ds@);
            }
            if ds.len() != 3 {
                return Err(refuse_at(at, Problem::Arity(3, count_of(ds.len()))));
            }
            let title = match corporate::<Text>(&ds[0], part_at(at, 0), budget) {
                Ok(t) => t,
                Err(e) => {
                    return Err(e.within(0));
                },
            };
            if !budget.consume() {
                return Err(refuse_at(part_at(at, 1), Problem::BudgetExhausted).within(1));
            }
            let children = match read_entry_list(&ds[1], part_at(at, 1), budget) {
                Ok(cs) => cs,
                Err(e) => {
                    return Err(e.within(1));
                },
            };
            let annotations = match corporate::<Keyed<Text>>(&ds[2], part_at(at, 2), budget) {
                Ok(a) => a,
                Err(e) => {
                    return Err(e.within(2));
                },
            };
            Ok(Group { title, children, annotations })
        },
        _ => Err(refuse_at(at, Problem::Shape(Expected::Struct, found(datom)))),
    }
}

/// The entries of a vector, from a datom at its situation.
#[verifier::loop_isolation(false)]
fn read_entry_list(datom: &Datom, at: &Situation, budget: &mut IncorporationBudget) -> (r: Result<
    Vec<Entry>,
    Fault,
>)
    ensures
        entry_list_reading(datom@, at@, old(budget)@) == (
            match r {
                Ok(cs) => Ok::<Seq<SpecEntry>, SpecFault>(entry_models(cs@)),
                Err(f) => Err(f@),
            },
            final(budget)@,
        ),
    decreases datom,
{
    match datom {
        Datom::Vector(es) => {
            let ghost ev = datoms_view(es@);
            let ghost start = *budget;
            proof {
                lemma_datoms_view(es@);
            }
            let mut values: Vec<Entry> = Vec::new();
            let mut k: usize = 0;
            proof {
                lemma_entry_models(values@);
                match entry_elements(ev, at@, 0, budget@) {
                    (Ok(ms), _) => {
                        assert(entry_models(values@) + ms =~= ms);
                    },
                    _ => {},
                }
            }
            while k < es.len()
                invariant
                    0 <= k <= es.len(),
                    ev == datoms_view(es@),
                    ev.len() == es.len(),
                    forall|j: int| 0 <= j < es.len() ==> #[trigger] ev[j] == es@[j]@,
                    start@ == old(budget)@,
                    datom@ == SpecDatom::Vector(ev),
                    entry_elements(ev, at@, 0, start@) == ({
                        let (rs, left) = entry_elements(ev, at@, k as int, budget@);
                        (
                            match rs {
                                Err(e) => Err(e),
                                Ok(ms) => Ok::<Seq<SpecEntry>, SpecFault>(entry_models(values@) + ms),
                            },
                            left,
                        )
                    }),
                decreases es.len() - k,
            {
                let ghost before = entry_models(values@);
                let ghost b0 = budget@;
                if !budget.consume() {
                    let f = refuse_at(part_at(at, k), Problem::BudgetExhausted).within(k as i64);
                    proof {
                        assert(entry_elements(ev, at@, k as int, b0) == (Err::<Seq<SpecEntry>, SpecFault>(f@), budget@));
                    }
                    return Err(f);
                }
                match read_entry(&es[k], part_at(at, k), budget) {
                    Ok(e) => {
                        proof {
                            lemma_entry_models(values@);
                            lemma_entry_models(values@.push(e));
                            assert(entry_models(values@.push(e)) =~= before.push(entry_model(e)));
                            match entry_elements(ev, at@, k + 1, budget@) {
                                (Ok(ms), _) => {
                                    assert(before + (seq![entry_model(e)] + ms) =~= before.push(
                                        entry_model(e),
                                    ) + ms);
                                },
                                _ => {},
                            }
                        }
                        values.push(e);
                    },
                    Err(e) => {
                        let f = e.within(k as i64);
                        proof {
                            assert(entry_elements(ev, at@, k as int, b0) == (Err::<Seq<SpecEntry>, SpecFault>(f@), budget@));
                        }
                        return Err(f);
                    },
                }
                k = k + 1;
            }
            assert(entry_models(values@) + Seq::<SpecEntry>::empty() =~= entry_models(values@));
            Ok(values)
        },
        _ => Err(refuse_at(at, Problem::Shape(Expected::Vector, found(datom)))),
    }
}

/// The datom of an entry.
fn conceive_entry(e: &Entry) -> (d: Datom)
    ensures
        d@ == entry_concept(entry_model(*e)),
        entry_sound(entry_model(*e)),
    decreases e,
{
    match e {
        Entry::Note(t) => variant_datom("Note", carry(conceive_text(&t.0))),
        Entry::Group(g) => variant_datom("Group", conceive_group(g)),
        Entry::Tags(ts) => variant_datom("Tags", ts.0.conceive()),
    }
}

/// The datom of a group.
fn conceive_group(g: &Group) -> (d: Datom)
    ensures
        d@ == group_concept(group_model(*g)),
        group_sound(group_model(*g)),
    decreases g,
{
    let title = conceive_text(&g.title.0);
    let children = conceive_entries(&g.children);
    let annotations = g.annotations.conceive();
    let ghost (a, b, c) = (title@, children@, annotations@);
    let ds = vec![title, children, annotations];
    proof {
        lemma_datoms_view(ds@);
        assert(datoms_view(ds@) =~= seq![a, b, c]);
    }
    Datom::Struct(ds)
}

/// The datom of a vector of entries.
fn conceive_entries(es: &Vec<Entry>) -> (d: Datom)
    ensures
        d@ == SpecDatom::Vector(entry_concepts(entry_models(es@))),
        entries_sound(entry_models(es@)),
    decreases es,
{
    let ghost ms = entry_models(es@);
    let mut ds: Vec<Datom> = Vec::new();
    let mut k: usize = 0;
    proof {
        lemma_entry_models(es@);
        lemma_entry_concepts(ms);
        lemma_datoms_view(ds@);
    }
    while k < es.len()
        invariant
            0 <= k <= es.len(),
            ms == entry_models(es@),
            ms.len() == es.len(),
            forall|i: int| 0 <= i < es.len() ==> #[trigger] ms[i] == entry_model(es@[i]),
            entry_concepts(ms).len() == ms.len(),
            forall|i: int| 0 <= i < ms.len() ==> #[trigger] entry_concepts(ms)[i] == entry_concept(
                ms[i],
            ),
            datoms_view(ds@) =~= entry_concepts(ms).subrange(0, k as int),
            forall|i: int| 0 <= i < k ==> entry_sound(#[trigger] ms[i]),
        decreases es.len() - k,
    {
        let d = conceive_entry(&es[k]);
        proof {
            lemma_datoms_push(ds@, d);
        }
        ds.push(d);
        k = k + 1;
    }
    assert(entry_concepts(ms).subrange(0, ms.len() as int) =~= entry_concepts(ms));
    proof {
        lemma_entries_sound(ms);
    }
    Datom::Vector(ds)
}

/// The datoms of entries have one entry for each.
proof fn lemma_entry_concepts(cs: Seq<SpecEntry>)
    ensures
        entry_concepts(cs).len() == cs.len(),
        forall|i: int| 0 <= i < cs.len() ==> #[trigger] entry_concepts(cs)[i] == entry_concept(cs[i]),
    decreases cs.len(),
{
    if cs.len() > 0 {
        lemma_entry_concepts(cs.drop_first());
        assert forall|i: int| 0 <= i < cs.len() implies #[trigger] entry_concepts(cs)[i]
            == entry_concept(cs[i]) by {
            if i > 0 {
                assert(entry_concepts(cs)[i] == entry_concepts(cs.drop_first())[i - 1]);
            }
        }
    }
}

/// The names of the entries: distinct symbols of letters.
proof fn lemma_entry_names()
    ensures
        "Note"@ != "Group"@,
        "Note"@ != "Tags"@,
        "Group"@ != "Tags"@,
        crate::rereading::plain_symbol("Note"@),
        crate::rereading::plain_symbol("Group"@),
        crate::rereading::plain_symbol("Tags"@),
{
    reveal_strlit("Note");
    reveal_strlit("Group");
    reveal_strlit("Tags");
    reveal_with_fuel(letters, 6);
    assert("Note"@[0] == 'N' && "Group"@[0] == 'G' && "Tags"@[0] == 'T');
    lemma_name("Note"@);
    lemma_name("Group"@);
    lemma_name("Tags"@);
}

/// Entries that are all sound are each sound.
proof fn lemma_entries_sound(cs: Seq<SpecEntry>)
    ensures
        entries_sound(cs) <==> forall|i: int| 0 <= i < cs.len() ==> #[trigger] entry_sound(cs[i]),
    decreases cs.len(),
{
    if cs.len() > 0 {
        let rest = cs.drop_first();
        lemma_entries_sound(rest);
        if forall|i: int| 0 <= i < cs.len() ==> #[trigger] entry_sound(cs[i]) {
            assert forall|i: int| 0 <= i < rest.len() implies #[trigger] entry_sound(rest[i]) by {
                assert(rest[i] == cs[i + 1]);
                assert(entry_sound(cs[i + 1]));
            }
            assert(entry_sound(cs[0]));
        }
        if entries_sound(cs) {
            assert forall|i: int| 0 <= i < cs.len() implies #[trigger] entry_sound(cs[i]) by {
                if i > 0 {
                    assert(cs[i] == rest[i - 1]);
                    assert(entry_sound(rest[i - 1]));
                }
            }
        }
    }
}

/// An entry's datom is settled, and reads back as the entry.
pub proof fn lemma_entry_reads_back(m: SpecEntry, at: SpecSituation, budget: nat)
    requires
        entry_sound(m),
        budget >= entry_cost(m),
    ensures
        settled(entry_concept(m)),
        entry_reading(entry_concept(m), at, budget) == (
            Ok::<SpecEntry, SpecFault>(m),
            (budget - entry_cost(m)) as nat,
        ),
    decreases m, 0int,
{
    lemma_entry_names();
    match m {
        SpecEntry::Note(t) => {
            lemma_text_reads_back(t, part(at, 1));
            lemma_carried(text_concept(t));
        },
        SpecEntry::Group(g) => {
            lemma_group_reads_back(g, part(at, 1), (budget - 1) as nat);
        },
        SpecEntry::Tags(ts) => {
            <Vec<Text> as Datomic>::lemma_reads_back(ts, part(at, 1), (budget - 1) as nat);
        },
    }
}

/// A group's datom is settled, and reads back as the group.
pub proof fn lemma_group_reads_back(g: SpecGroup, at: SpecSituation, budget: nat)
    requires
        group_sound(g),
        budget >= group_cost(g),
    ensures
        settled(group_concept(g)),
        group_reading(group_concept(g), at, budget) == (
            Ok::<SpecGroup, SpecFault>(g),
            (budget - group_cost(g)) as nat,
        ),
    decreases g, 0int,
{
    let ds = group_concept(g)->Struct_0;
    let cs = g.children;
    let spent = entries_cost(cs);
    lemma_text_reads_back(g.title, part(at, 0));
    lemma_entries_sound(cs);
    assert(cs.subrange(0, cs.len() as int) =~= cs);
    lemma_entries_read_back(cs, part(at, 1), 0, (budget - 2) as nat);
    <Keyed<Text> as Datomic>::lemma_reads_back(
        g.annotations,
        part(at, 2),
        (budget - 3 - spent) as nat,
    );
    lemma_all_settled(ds);
    assert(settled(ds[0]) && settled(ds[1]) && settled(ds[2]));
}

/// Reading the datoms of entries from the `k`-th on gives them back, spending their costs.
proof fn lemma_entries_read_back(cs: Seq<SpecEntry>, at: SpecSituation, k: int, budget: nat)
    requires
        forall|i: int| 0 <= i < cs.len() ==> #[trigger] entry_sound(cs[i]),
        0 <= k <= cs.len(),
        budget >= entries_cost(cs.subrange(k, cs.len() as int)),
    ensures
        entry_elements(entry_concepts(cs), at, k, budget) == (
            Ok::<Seq<SpecEntry>, SpecFault>(cs.subrange(k, cs.len() as int)),
            (budget - entries_cost(cs.subrange(k, cs.len() as int))) as nat,
        ),
        all_settled(entry_concepts(cs)),
    decreases cs, cs.len() - k,
{
    lemma_entry_concepts(cs);
    lemma_all_settled(entry_concepts(cs));
    assert forall|i: int| 0 <= i < entry_concepts(cs).len() implies #[trigger] settled(
        entry_concepts(cs)[i],
    ) by {
        let nowhere = SpecSituation { extent: (0, 0), children: Seq::empty() };
        lemma_entry_reads_back(cs[i], nowhere, entry_cost(cs[i]));
    }
    let tail = cs.subrange(k, cs.len() as int);
    if k < cs.len() {
        assert(tail.drop_first() =~= cs.subrange(k + 1, cs.len() as int));
        assert(tail[0] == cs[k]);
        lemma_entry_reads_back(cs[k], part(at, k), (budget - 1) as nat);
        lemma_entries_read_back(cs, at, k + 1, (budget - 1 - entry_cost(cs[k])) as nat);
        assert(seq![cs[k]] + cs.subrange(k + 1, cs.len() as int) =~= tail);
    } else {
        assert(tail =~= Seq::<SpecEntry>::empty());
    }
}

impl Datomic for Entry {
    type Model = SpecEntry;

    open spec fn model(&self) -> SpecEntry {
        entry_model(*self)
    }

    open spec fn concept(m: SpecEntry) -> SpecDatom {
        entry_concept(m)
    }

    open spec fn reading(d: SpecDatom, at: SpecSituation, budget: nat) -> (
        Result<SpecEntry, SpecFault>,
        nat,
    ) {
        entry_reading(d, at, budget)
    }

    open spec fn cost(m: SpecEntry) -> nat {
        entry_cost(m)
    }

    open spec fn sound(m: SpecEntry) -> bool {
        entry_sound(m)
    }

    fn incorporate(datom: &Datom, at: &Situation, budget: &mut IncorporationBudget) -> (r: Result<
        Entry,
        Fault,
    >) {
        read_entry(datom, at, budget)
    }

    fn conceive(&self) -> (d: Datom) {
        let d = conceive_entry(self);
        proof {
            assert(Self::sound(self.model()));
        }
        d
    }

    proof fn lemma_reads_back(m: SpecEntry, at: SpecSituation, budget: nat) {
        lemma_entry_reads_back(m, at, budget);
    }
}

impl Datomic for Group {
    type Model = SpecGroup;

    open spec fn model(&self) -> SpecGroup {
        group_model(*self)
    }

    open spec fn concept(m: SpecGroup) -> SpecDatom {
        group_concept(m)
    }

    open spec fn reading(d: SpecDatom, at: SpecSituation, budget: nat) -> (
        Result<SpecGroup, SpecFault>,
        nat,
    ) {
        group_reading(d, at, budget)
    }

    open spec fn cost(m: SpecGroup) -> nat {
        group_cost(m)
    }

    open spec fn sound(m: SpecGroup) -> bool {
        group_sound(m)
    }

    fn incorporate(datom: &Datom, at: &Situation, budget: &mut IncorporationBudget) -> (r: Result<
        Group,
        Fault,
    >) {
        read_group(datom, at, budget)
    }

    fn conceive(&self) -> (d: Datom) {
        let d = conceive_group(self);
        proof {
            assert(Self::sound(self.model()));
        }
        d
    }

    proof fn lemma_reads_back(m: SpecGroup, at: SpecSituation, budget: nat) {
        lemma_group_reads_back(m, at, budget);
    }
}

/// How an entry position takes a datom.
#[derive(Clone, Copy, Debug, PartialEq, Eq, Structural)]
pub enum EntrySelection {
    /// A note carrying quoted text.
    Note,
    /// A note carrying a word or a chain of words.
    BareNote,
    /// A group carrying its struct.
    Group,
    /// Tags carrying their vector.
    Tags,
}

/// How an entry position takes a datom, if it takes it at all.
pub open spec fn entry_selected(d: SpecDatom) -> Option<EntrySelection> {
    match d {
        SpecDatom::Variant(name, body) => if name == "Note"@ {
            if *body is Text {
                Some(EntrySelection::Note)
            } else if rejoined(*body) is Some {
                Some(EntrySelection::BareNote)
            } else {
                None
            }
        } else if name == "Group"@ && *body is Struct {
            Some(EntrySelection::Group)
        } else if name == "Tags"@ && *body is Vector {
            Some(EntrySelection::Tags)
        } else {
            None
        },
        _ => None,
    }
}

impl Entry {
    /// How an entry position takes this datom, if it takes it at all.
    pub fn select(datom: &Datom) -> (r: Option<EntrySelection>)
        ensures
            r == entry_selected(datom@),
    {
        proof {
            lemma_entry_names();
        }
        match datom {
            Datom::Variant(name, body) => {
                if is_named(name, "Note") {
                    match &**body {
                        Datom::Text(t) => {
                            assert((**body)@ == SpecDatom::Text(t@));
                            Some(EntrySelection::Note)
                        },
                        other => {
                            let nowhere = Situation {
                                extent: crate::form::Extent(0, 0),
                                children: Vec::new(),
                            };
                            if Site::new(other, &nowhere).word(Expected::Text).is_ok() {
                                Some(EntrySelection::BareNote)
                            } else {
                                None
                            }
                        },
                    }
                } else if is_named(name, "Group") {
                    match &**body {
                        Datom::Struct(ds) => {
                            assert((**body)@ == SpecDatom::Struct(datoms_view(ds@)));
                            Some(EntrySelection::Group)
                        },
                        _ => None,
                    }
                } else if is_named(name, "Tags") {
                    match &**body {
                        Datom::Vector(ds) => {
                            assert((**body)@ == SpecDatom::Vector(datoms_view(ds@)));
                            Some(EntrySelection::Tags)
                        },
                        _ => None,
                    }
                } else {
                    None
                }
            },
            _ => None,
        }
    }
}

/// How a group position takes a datom.
#[derive(Clone, Copy, Debug, PartialEq, Eq, Structural)]
pub enum GroupSelection {
    /// The positions of a struct.
    Payload,
}

impl Group {
    /// How a group position takes this datom, if it takes it at all.
    pub fn select(datom: &Datom) -> (r: Option<GroupSelection>)
        ensures
            r == if datom@ is Struct {
                Some(GroupSelection::Payload)
            } else {
                None::<GroupSelection>
            },
    {
        match datom {
            Datom::Struct(_) => Some(GroupSelection::Payload),
            _ => None,
        }
    }
}

// ----- reports -----

/// A report: a heading, groups of entries under keys, and the latest note, if any.
#[derive(Debug, PartialEq, Eq)]
pub struct Report {
    /// The heading.
    pub heading: Text,
    /// The groups of entries, under their keys.
    pub groups: Keyed<Vec<Entry>>,
    /// The latest note, if any.
    pub latest: Option<Text>,
}

/// The mathematical report.
pub struct SpecReport {
    pub heading: Seq<char>,
    pub groups: Seq<(Seq<char>, Seq<SpecEntry>)>,
    pub latest: Option<Seq<char>>,
}

/// The datom of a report: a struct of its heading, its groups and its latest note.
pub open spec fn report_concept(m: SpecReport) -> SpecDatom {
    SpecDatom::Struct(
        seq![
            text_concept(m.heading),
            <Keyed<Vec<Entry>> as Datomic>::concept(m.groups),
            <Option<Text> as Datomic>::concept(m.latest),
        ],
    )
}

/// Reading a report: a struct of three positions.
pub open spec fn report_reading(d: SpecDatom, at: SpecSituation, budget: nat) -> (
    Result<SpecReport, SpecFault>,
    nat,
) {
    match fields(d, at, 3) {
        Err(e) => (Err(e), budget),
        Ok(ds) => {
            let (r0, b0) = positioned::<Text>(ds, at, 0, false, budget);
            match r0 {
                Err(e) => (Err(e), b0),
                Ok(heading) => {
                    let (r1, b1) = positioned::<Keyed<Vec<Entry>>>(ds, at, 1, false, b0);
                    match r1 {
                        Err(e) => (Err(e), b1),
                        Ok(groups) => {
                            let (r2, b2) = positioned::<Option<Text>>(ds, at, 2, false, b1);
                            match r2 {
                                Err(e) => (Err(e), b2),
                                Ok(latest) => (Ok(SpecReport { heading, groups, latest }), b2),
                            }
                        },
                    }
                },
            }
        },
    }
}

impl Datomic for Report {
    type Model = SpecReport;

    open spec fn model(&self) -> SpecReport {
        SpecReport {
            heading: self.heading.0@,
            groups: self.groups.model(),
            latest: self.latest.model(),
        }
    }

    open spec fn concept(m: SpecReport) -> SpecDatom {
        report_concept(m)
    }

    open spec fn reading(d: SpecDatom, at: SpecSituation, budget: nat) -> (
        Result<SpecReport, SpecFault>,
        nat,
    ) {
        report_reading(d, at, budget)
    }

    open spec fn cost(m: SpecReport) -> nat {
        3 + <Keyed<Vec<Entry>> as Datomic>::cost(m.groups) + <Option<Text> as Datomic>::cost(
            m.latest,
        )
    }

    open spec fn sound(m: SpecReport) -> bool {
        <Keyed<Vec<Entry>> as Datomic>::sound(m.groups)
    }

    fn incorporate(datom: &Datom, at: &Situation, budget: &mut IncorporationBudget) -> (r: Result<
        Report,
        Fault,
    >) {
        let mut p = match Site::new(datom, at).positions(3) {
            Ok(p) => p,
            Err(e) => {
                return Err(e);
            },
        };
        let heading = match p.position::<Text>(budget) {
            Ok(v) => v,
            Err(e) => {
                return Err(e);
            },
        };
        let groups = match p.position::<Keyed<Vec<Entry>>>(budget) {
            Ok(v) => v,
            Err(e) => {
                return Err(e);
            },
        };
        let latest = match p.position::<Option<Text>>(budget) {
            Ok(v) => v,
            Err(e) => {
                return Err(e);
            },
        };
        Ok(Report { heading, groups, latest })
    }

    fn conceive(&self) -> (d: Datom) {
        let heading = conceive_text(&self.heading.0);
        let groups = self.groups.conceive();
        let latest = self.latest.conceive();
        let ghost (a, b, c) = (heading@, groups@, latest@);
        let ds = vec![heading, groups, latest];
        proof {
            lemma_datoms_view(ds@);
            assert(datoms_view(ds@) =~= seq![a, b, c]);
        }
        let d = Datom::Struct(ds);
        proof {
            assert(Self::sound(self.model()));
        }
        d
    }

    proof fn lemma_reads_back(m: SpecReport, at: SpecSituation, budget: nat) {
        let ds = report_concept(m)->Struct_0;
        let g = <Keyed<Vec<Entry>> as Datomic>::cost(m.groups);
        lemma_text_reads_back(m.heading, part(at, 0));
        <Keyed<Vec<Entry>> as Datomic>::lemma_reads_back(m.groups, part(at, 1), (budget - 2) as nat);
        <Option<Text> as Datomic>::lemma_reads_back(m.latest, part(at, 2), (budget - 3 - g) as nat);
        lemma_all_settled(ds);
        assert(settled(ds[0]) && settled(ds[1]) && settled(ds[2]));
    }
}

// ----- interim notes -----

/// An interim note: four texts.
#[derive(Clone, Debug, PartialEq, Eq)]
pub struct InterimNote {
    pub a: String,
    pub b: String,
    pub c: String,
    pub d: String,
}

/// The datom of an interim note: a struct of its four texts.
pub open spec fn interim_concept(m: (Seq<char>, Seq<char>, Seq<char>, Seq<char>)) -> SpecDatom {
    SpecDatom::Struct(
        seq![text_concept(m.0), text_concept(m.1), text_concept(m.2), text_concept(m.3)],
    )
}

/// Reading an interim note: a struct of four texts.
pub open spec fn interim_reading(d: SpecDatom, at: SpecSituation, budget: nat) -> (
    Result<(Seq<char>, Seq<char>, Seq<char>, Seq<char>), SpecFault>,
    nat,
) {
    match fields(d, at, 4) {
        Err(e) => (Err(e), budget),
        Ok(ds) => {
            let (r0, b0) = positioned::<String>(ds, at, 0, false, budget);
            match r0 {
                Err(e) => (Err(e), b0),
                Ok(a) => {
                    let (r1, b1) = positioned::<String>(ds, at, 1, false, b0);
                    match r1 {
                        Err(e) => (Err(e), b1),
                        Ok(b) => {
                            let (r2, b2) = positioned::<String>(ds, at, 2, false, b1);
                            match r2 {
                                Err(e) => (Err(e), b2),
                                Ok(c) => {
                                    let (r3, b3) = positioned::<String>(ds, at, 3, false, b2);
                                    match r3 {
                                        Err(e) => (Err(e), b3),
                                        Ok(d) => (Ok((a, b, c, d)), b3),
                                    }
                                },
                            }
                        },
                    }
                },
            }
        },
    }
}

impl Datomic for InterimNote {
    type Model = (Seq<char>, Seq<char>, Seq<char>, Seq<char>);

    open spec fn model(&self) -> (Seq<char>, Seq<char>, Seq<char>, Seq<char>) {
        (self.a@, self.b@, self.c@, self.d@)
    }

    open spec fn concept(m: (Seq<char>, Seq<char>, Seq<char>, Seq<char>)) -> SpecDatom {
        interim_concept(m)
    }

    open spec fn reading(d: SpecDatom, at: SpecSituation, budget: nat) -> (
        Result<(Seq<char>, Seq<char>, Seq<char>, Seq<char>), SpecFault>,
        nat,
    ) {
        interim_reading(d, at, budget)
    }

    open spec fn cost(m: (Seq<char>, Seq<char>, Seq<char>, Seq<char>)) -> nat {
        4
    }

    open spec fn sound(m: (Seq<char>, Seq<char>, Seq<char>, Seq<char>)) -> bool {
        true
    }

    fn incorporate(datom: &Datom, at: &Situation, budget: &mut IncorporationBudget) -> (r: Result<
        InterimNote,
        Fault,
    >) {
        let mut p = match Site::new(datom, at).positions(4) {
            Ok(p) => p,
            Err(e) => {
                return Err(e);
            },
        };
        let a = match p.position::<String>(budget) {
            Ok(v) => v,
            Err(e) => {
                return Err(e);
            },
        };
        let b = match p.position::<String>(budget) {
            Ok(v) => v,
            Err(e) => {
                return Err(e);
            },
        };
        let c = match p.position::<String>(budget) {
            Ok(v) => v,
            Err(e) => {
                return Err(e);
            },
        };
        let d = match p.position::<String>(budget) {
            Ok(v) => v,
            Err(e) => {
                return Err(e);
            },
        };
        Ok(InterimNote { a, b, c, d })
    }

    fn conceive(&self) -> (d: Datom) {
        proof {
            assert(Self::sound(self.model()));
        }
        let x0 = conceive_text(&self.a);
        let x1 = conceive_text(&self.b);
        let x2 = conceive_text(&self.c);
        let x3 = conceive_text(&self.d);
        let ghost (v0, v1, v2, v3) = (x0@, x1@, x2@, x3@);
        let ds = vec![x0, x1, x2, x3];
        proof {
            lemma_datoms_view(ds@);
            assert(datoms_view(ds@) =~= seq![v0, v1, v2, v3]);
        }
        Datom::Struct(ds)
    }

    proof fn lemma_reads_back(
        m: (Seq<char>, Seq<char>, Seq<char>, Seq<char>),
        at: SpecSituation,
        budget: nat,
    ) {
        let ds = interim_concept(m)->Struct_0;
        lemma_text_reads_back(m.0, part(at, 0));
        lemma_text_reads_back(m.1, part(at, 1));
        lemma_text_reads_back(m.2, part(at, 2));
        lemma_text_reads_back(m.3, part(at, 3));
        lemma_all_settled(ds);
        assert(settled(ds[0]) && settled(ds[1]) && settled(ds[2]) && settled(ds[3]));
    }
}

// ----- positions of a record -----

/// The position counter of a record's body: the ordinal of the next position.
#[derive(Clone, Debug, PartialEq, Eq, Structural)]
pub struct RecordPosition {
    ordinal: usize,
}

/// The kind a position counter bears: it hands out ordinals in turn.
pub trait PositionAdvancing {
    /// The ordinal of the next position.
    spec fn ordinal_of(&self) -> nat;

    /// The ordinal of the next position; the counter moves past it.
    fn next_position(&mut self) -> (n: usize)
        requires
            old(self).ordinal_of() < usize::MAX,
        ensures
            n == old(self).ordinal_of(),
            final(self).ordinal_of() == old(self).ordinal_of() + 1,
    ;
}

impl RecordPosition {
    /// A counter at the first position.
    pub fn new() -> (p: RecordPosition)
        ensures
            p.ordinal_of() == 0,
    {
        RecordPosition { ordinal: 0 }
    }
}

impl PositionAdvancing for RecordPosition {
    closed spec fn ordinal_of(&self) -> nat {
        self.ordinal as nat
    }

    fn next_position(&mut self) -> (n: usize) {
        let ordinal = self.ordinal;
        self.ordinal = ordinal + 1;
        ordinal
    }
}

// ----- headed units -----

/// The kind a unit-only enumeration bears to be written under a head, as
/// `Head.Unit`: the head names the type, the unit names the value.
pub trait DatomHeadedUnit: Sized {
    /// The head's word.
    spec fn head_word() -> Seq<char>;

    /// The word of a unit.
    spec fn unit_word(u: Self) -> Seq<char>;

    /// The unit a word names, if it names one.
    spec fn of_unit(w: Seq<char>) -> Option<Self>;

    /// The head.
    fn head() -> (h: &'static str)
        ensures
            h@ == Self::head_word(),
    ;

    /// The unit a word names, if it names one.
    fn select_unit(unit: &str) -> (r: Option<Self>)
        ensures
            r == Self::of_unit(unit@),
    ;

    /// The word of the unit.
    fn unit(&self) -> (u: &'static str)
        ensures
            u@ == Self::unit_word(*self),
    ;
}

/// The datom of a headed unit: the head, the dot, and the unit's word.
pub open spec fn headed_unit_concept<U: DatomHeadedUnit>(u: U) -> SpecDatom {
    SpecDatom::Variant(U::head_word(), Box::new(SpecDatom::Word(U::unit_word(u))))
}

/// Reading a headed unit: the type's head carrying the word of one of its units.
pub open spec fn headed_unit_reading<U: DatomHeadedUnit>(d: SpecDatom, at: SpecSituation) -> Result<
    U,
    SpecFault,
> {
    match variant_of(d, at) {
        Err(e) => Err(e),
        Ok((name, body)) => if name != U::head_word() {
            Err(refusal(at, unknown(name)))
        } else {
            match body {
                None => Err(refusal(at, SpecProblem::Shape(Expected::Variant, Found::Word))),
                Some(b) => match b {
                    SpecDatom::Word(w) => match U::of_unit(w) {
                        Some(u) => Ok(u),
                        None => Err(within(refusal(part(at, 1), SpecProblem::Value(w)), 1)),
                    },
                    _ => Err(
                        within(refusal(part(at, 1), SpecProblem::Shape(Expected::Word, found_of(b))), 1),
                    ),
                },
            }
        },
    }
}

/// A headed unit, from a datom at its situation.
pub fn incorporate_headed_unit<U: DatomHeadedUnit>(datom: &Datom, at: &Situation) -> (r: Result<
    U,
    Fault,
>)
    ensures
        headed_unit_reading::<U>(datom@, at@) == match r {
            Ok(u) => Ok::<U, SpecFault>(u),
            Err(e) => Err(e@),
        },
{
    match datom {
        Datom::Variant(name, body) => {
            if !is_named(name, U::head()) {
                return Err(refuse_at(at, unknown_variant(name)));
            }
            match &**body {
                Datom::Word(w) => {
                    assert((**body)@ == SpecDatom::Word(w@));
                    match U::select_unit(w.as_str()) {
                        Some(u) => Ok(u),
                        None => Err(refuse_at(part_at(at, 1), Problem::Value(w.clone())).within(1)),
                    }
                },
                other => {
                    assert(!((**body)@ is Word));
                    Err(
                        refuse_at(part_at(at, 1), Problem::Shape(Expected::Word, found(other))).within(
                            1,
                        ),
                    )
                },
            }
        },
        Datom::Word(name) => {
            if !is_named(name, U::head()) {
                Err(refuse_at(at, unknown_variant(name)))
            } else {
                Err(refuse_at(at, Problem::Shape(Expected::Variant, Found::Word)))
            }
        },
        _ => Err(refuse_at(at, Problem::Shape(Expected::Variant, found(datom)))),
    }
}

/// The datom of a headed unit.
pub fn conceive_headed_unit<U: DatomHeadedUnit>(u: &U) -> (d: Datom)
    ensures
        d@ == headed_unit_concept::<U>(*u),
{
    let unit = Datom::Word(u.unit().to_owned());
    assert(unit@ == SpecDatom::Word(U::unit_word(*u)));
    Datom::Variant(U::head().to_owned(), Box::new(unit))
}

/// A headed unit whose head and unit are symbols, and whose unit's word names
/// it, is written as a settled datom that reads back as the unit.
pub proof fn lemma_headed_unit_reads_back<U: DatomHeadedUnit>(u: U, at: SpecSituation)
    requires
        crate::rereading::plain_symbol(U::head_word()),
        crate::rereading::plain_symbol(U::unit_word(u)),
        U::of_unit(U::unit_word(u)) == Some(u),
    ensures
        settled(headed_unit_concept::<U>(u)),
        headed_unit_reading::<U>(headed_unit_concept::<U>(u), at) == Ok::<U, SpecFault>(u),
{
    let w = U::unit_word(u);
    assert(crate::protosization::word_run(w) && crate::reader::no_separator(w)) by {
        assert forall|j: int| 0 <= j < w.len() implies crate::glyph::is_wordy(#[trigger] w[j])
            && !crate::reader::is_separator(w[j]) by {
            assert(crate::glyph::is_plain(w[j]));
        }
    }
    crate::scalars::lemma_plain_word(w);
}

} // verus!

//! The worded kinds: enumerations read from one bare word and written to one.

use vstd::prelude::*;

use crate::anatomy::{Datom, ErrorLayer, Expected, Fault, Found, IncorporationBudget, Problem, SpecDatom, SpecFault, SpecProblem};
use crate::containers::{lemma_name, letters};
use crate::form::{Situation, SpecSituation};
use crate::glyph::{Boundary, Enclosure, Separator};
use crate::kinds::{carried, is_named, refusal, worded, Datomic, Site};
use crate::protosization::settled;

verus! {

/// The kind a worded value bears: one bare word denotes it.
pub trait Worded: Sized {
    /// The word denoting a value.
    spec fn word_of(v: Self) -> Seq<char>;

    /// The value a word denotes, if it denotes one.
    spec fn of_word(w: Seq<char>) -> Option<Self>;

    /// The value the word denotes, if it denotes one.
    fn from_word(word: &String) -> (r: Option<Self>)
        ensures
            r == Self::of_word(word@),
    ;

    /// The word denoting the value.
    fn to_word(&self) -> (w: String)
        ensures
            w@ == Self::word_of(*self),
    ;

    /// Each value's word is a name of letters that denotes the value.
    proof fn lemma_words(v: Self)
        ensures
            Self::of_word(Self::word_of(v)) == Some(v),
            Self::word_of(v).len() > 0,
            letters(Self::word_of(v)),
    ;
}

/// Reading a worded value: its word, at a position expecting a word.
pub open spec fn word_reading<W: Worded>(d: SpecDatom, at: SpecSituation) -> Result<W, SpecFault> {
    match worded(d, at, Expected::Word) {
        Err(e) => Err(e),
        Ok(w) => match W::of_word(w) {
            Some(v) => Ok(v),
            None => Err(refusal(at, SpecProblem::Value(w))),
        },
    }
}

/// A worded value, from the word at the site.
pub fn incorporate_word<W: Worded>(datom: &Datom, at: &Situation) -> (r: Result<W, Fault>)
    ensures
        word_reading::<W>(datom@, at@) == match r {
            Ok(v) => Ok::<W, SpecFault>(v),
            Err(e) => Err(e@),
        },
{
    let site = Site::new(datom, at);
    match site.word(Expected::Word) {
        Err(e) => Err(e),
        Ok(w) => match W::from_word(&w) {
            Some(v) => Ok(v),
            None => Err(site.refuse(Problem::Value(w))),
        },
    }
}

/// A worded value's word reads back as the value, carried or not.
pub proof fn lemma_word_reads_back<W: Worded>(v: W, at: SpecSituation)
    ensures
        settled(SpecDatom::Word(W::word_of(v))),
        word_reading::<W>(SpecDatom::Word(W::word_of(v)), at) == Ok::<W, SpecFault>(v),
        carried(SpecDatom::Word(W::word_of(v))) == SpecDatom::Word(W::word_of(v)),
{
    W::lemma_words(v);
    lemma_name(W::word_of(v));
}

impl Worded for Expected {
    open spec fn word_of(v: Expected) -> Seq<char> {
        match v {
            Expected::Variant => "Variant"@,
            Expected::Struct => "Struct"@,
            Expected::Vector => "Vector"@,
            Expected::Mapping => "Mapping"@,
            Expected::Text => "Text"@,
            Expected::Meaning => "Meaning"@,
            Expected::Integer => "Integer"@,
            Expected::Decimal => "Decimal"@,
            Expected::Boolean => "Boolean"@,
            Expected::Word => "Word"@,
        }
    }

    open spec fn of_word(w: Seq<char>) -> Option<Expected> {
        if w == "Variant"@ {
            Some(Expected::Variant)
        } else if w == "Struct"@ {
            Some(Expected::Struct)
        } else if w == "Vector"@ {
            Some(Expected::Vector)
        } else if w == "Mapping"@ {
            Some(Expected::Mapping)
        } else if w == "Text"@ {
            Some(Expected::Text)
        } else if w == "Meaning"@ {
            Some(Expected::Meaning)
        } else if w == "Integer"@ {
            Some(Expected::Integer)
        } else if w == "Decimal"@ {
            Some(Expected::Decimal)
        } else if w == "Boolean"@ {
            Some(Expected::Boolean)
        } else if w == "Word"@ {
            Some(Expected::Word)
        } else {
            None
        }
    }

    fn from_word(word: &String) -> (r: Option<Expected>) {
        if is_named(word, "Variant") {
            Some(Expected::Variant)
        } else if is_named(word, "Struct") {
            Some(Expected::Struct)
        } else if is_named(word, "Vector") {
            Some(Expected::Vector)
        } else if is_named(word, "Mapping") {
            Some(Expected::Mapping)
        } else if is_named(word, "Text") {
            Some(Expected::Text)
        } else if is_named(word, "Meaning") {
            Some(Expected::Meaning)
        } else if is_named(word, "Integer") {
            Some(Expected::Integer)
        } else if is_named(word, "Decimal") {
            Some(Expected::Decimal)
        } else if is_named(word, "Boolean") {
            Some(Expected::Boolean)
        } else if is_named(word, "Word") {
            Some(Expected::Word)
        } else {
            None
        }
    }

    fn to_word(&self) -> (w: String) {
        match self {
            Expected::Variant => "Variant".to_owned(),
            Expected::Struct => "Struct".to_owned(),
            Expected::Vector => "Vector".to_owned(),
            Expected::Mapping => "Mapping".to_owned(),
            Expected::Text => "Text".to_owned(),
            Expected::Meaning => "Meaning".to_owned(),
            Expected::Integer => "Integer".to_owned(),
            Expected::Decimal => "Decimal".to_owned(),
            Expected::Boolean => "Boolean".to_owned(),
            Expected::Word => "Word".to_owned(),
        }
    }

    proof fn lemma_words(v: Expected) {
        reveal_strlit("Variant");
        reveal_strlit("Struct");
        reveal_strlit("Vector");
        reveal_strlit("Mapping");
        reveal_strlit("Text");
        reveal_strlit("Meaning");
        reveal_strlit("Integer");
        reveal_strlit("Decimal");
        reveal_strlit("Boolean");
        reveal_strlit("Word");
        reveal_with_fuel(letters, 8);
        assert("Variant"@[0] == 'V' && "Struct"@[0] == 'S' && "Vector"@[0] == 'V' && "Mapping"@[0] == 'M' && "Text"@[0] == 'T' && "Meaning"@[0] == 'M' && "Integer"@[0] == 'I' && "Decimal"@[0] == 'D' && "Boolean"@[0] == 'B' && "Word"@[0] == 'W');
        assert("Variant"@.len() == 7 && "Struct"@.len() == 6 && "Vector"@.len() == 6 && "Mapping"@.len() == 7 && "Text"@.len() == 4 && "Meaning"@.len() == 7 && "Integer"@.len() == 7 && "Decimal"@.len() == 7 && "Boolean"@.len() == 7 && "Word"@.len() == 4);
        assert("Mapping"@[1] == 'a' && "Meaning"@[1] == 'e');
    }
}

impl Datomic for Expected {
    type Model = Expected;

    open spec fn model(&self) -> Expected {
        *self
    }

    open spec fn concept(m: Expected) -> SpecDatom {
        SpecDatom::Word(Expected::word_of(m))
    }

    open spec fn reading(d: SpecDatom, at: SpecSituation, budget: nat) -> (
        Result<Expected, SpecFault>,
        nat,
    ) {
        (word_reading::<Expected>(d, at), budget)
    }

    open spec fn cost(m: Expected) -> nat {
        0
    }

    open spec fn sound(m: Expected) -> bool {
        true
    }

    fn incorporate(datom: &Datom, at: &Situation, budget: &mut IncorporationBudget) -> (r: Result<
        Expected,
        Fault,
    >) {
        incorporate_word::<Expected>(datom, at)
    }

    fn conceive(&self) -> (d: Datom) {
        proof {
            assert(Self::sound(self.model()));
        }
        Datom::Word(self.to_word())
    }

    proof fn lemma_reads_back(m: Expected, at: SpecSituation, budget: nat) {
        lemma_word_reads_back::<Expected>(m, at);
    }
}

impl Worded for Found {
    open spec fn word_of(v: Found) -> Seq<char> {
        match v {
            Found::Variant => "Variant"@,
            Found::Struct => "Struct"@,
            Found::Vector => "Vector"@,
            Found::Mapping => "Mapping"@,
            Found::Text => "Text"@,
            Found::Meaning => "Meaning"@,
            Found::Word => "Word"@,
            Found::Angled => "Angled"@,
            Found::Qualified => "Qualified"@,
            Found::Chain => "Chain"@,
        }
    }

    open spec fn of_word(w: Seq<char>) -> Option<Found> {
        if w == "Variant"@ {
            Some(Found::Variant)
        } else if w == "Struct"@ {
            Some(Found::Struct)
        } else if w == "Vector"@ {
            Some(Found::Vector)
        } else if w == "Mapping"@ {
            Some(Found::Mapping)
        } else if w == "Text"@ {
            Some(Found::Text)
        } else if w == "Meaning"@ {
            Some(Found::Meaning)
        } else if w == "Word"@ {
            Some(Found::Word)
        } else if w == "Angled"@ {
            Some(Found::Angled)
        } else if w == "Qualified"@ {
            Some(Found::Qualified)
        } else if w == "Chain"@ {
            Some(Found::Chain)
        } else {
            None
        }
    }

    fn from_word(word: &String) -> (r: Option<Found>) {
        if is_named(word, "Variant") {
            Some(Found::Variant)
        } else if is_named(word, "Struct") {
            Some(Found::Struct)
        } else if is_named(word, "Vector") {
            Some(Found::Vector)
        } else if is_named(word, "Mapping") {
            Some(Found::Mapping)
        } else if is_named(word, "Text") {
            Some(Found::Text)
        } else if is_named(word, "Meaning") {
            Some(Found::Meaning)
        } else if is_named(word, "Word") {
            Some(Found::Word)
        } else if is_named(word, "Angled") {
            Some(Found::Angled)
        } else if is_named(word, "Qualified") {
            Some(Found::Qualified)
        } else if is_named(word, "Chain") {
            Some(Found::Chain)
        } else {
            None
        }
    }

    fn to_word(&self) -> (w: String) {
        match self {
            Found::Variant => "Variant".to_owned(),
            Found::Struct => "Struct".to_owned(),
            Found::Vector => "Vector".to_owned(),
            Found::Mapping => "Mapping".to_owned(),
            Found::Text => "Text".to_owned(),
            Found::Meaning => "Meaning".to_owned(),
            Found::Word => "Word".to_owned(),
            Found::Angled => "Angled".to_owned(),
            Found::Qualified => "Qualified".to_owned(),
            Found::Chain => "Chain".to_owned(),
        }
    }

    proof fn lemma_words(v: Found) {
        reveal_strlit("Variant");
        reveal_strlit("Struct");
        reveal_strlit("Vector");
        reveal_strlit("Mapping");
        reveal_strlit("Text");
        reveal_strlit("Meaning");
        reveal_strlit("Word");
        reveal_strlit("Angled");
        reveal_strlit("Qualified");
        reveal_strlit("Chain");
        reveal_with_fuel(letters, 10);
        assert("Variant"@[0] == 'V' && "Struct"@[0] == 'S' && "Vector"@[0] == 'V' && "Mapping"@[0] == 'M' && "Text"@[0] == 'T' && "Meaning"@[0] == 'M' && "Word"@[0] == 'W' && "Angled"@[0] == 'A' && "Qualified"@[0] == 'Q' && "Chain"@[0] == 'C');
        assert("Variant"@.len() == 7 && "Struct"@.len() == 6 && "Vector"@.len() == 6 && "Mapping"@.len() == 7 && "Text"@.len() == 4 && "Meaning"@.len() == 7 && "Word"@.len() == 4 && "Angled"@.len() == 6 && "Qualified"@.len() == 9 && "Chain"@.len() == 5);
        assert("Mapping"@[1] == 'a' && "Meaning"@[1] == 'e');
    }
}

impl Datomic for Found {
    type Model = Found;

    open spec fn model(&self) -> Found {
        *self
    }

    open spec fn concept(m: Found) -> SpecDatom {
        SpecDatom::Word(Found::word_of(m))
    }

    open spec fn reading(d: SpecDatom, at: SpecSituation, budget: nat) -> (
        Result<Found, SpecFault>,
        nat,
    ) {
        (word_reading::<Found>(d, at), budget)
    }

    open spec fn cost(m: Found) -> nat {
        0
    }

    open spec fn sound(m: Found) -> bool {
        true
    }

    fn incorporate(datom: &Datom, at: &Situation, budget: &mut IncorporationBudget) -> (r: Result<
        Found,
        Fault,
    >) {
        incorporate_word::<Found>(datom, at)
    }

    fn conceive(&self) -> (d: Datom) {
        proof {
            assert(Self::sound(self.model()));
        }
        Datom::Word(self.to_word())
    }

    proof fn lemma_reads_back(m: Found, at: SpecSituation, budget: nat) {
        lemma_word_reads_back::<Found>(m, at);
    }
}

impl Worded for Separator {
    open spec fn word_of(v: Separator) -> Seq<char> {
        match v {
            Separator::Period => "Period"@,
            Separator::Exclamation => "Exclamation"@,
            Separator::Colon => "Colon"@,
        }
    }

    open spec fn of_word(w: Seq<char>) -> Option<Separator> {
        if w == "Period"@ {
            Some(Separator::Period)
        } else if w == "Exclamation"@ {
            Some(Separator::Exclamation)
        } else if w == "Colon"@ {
            Some(Separator::Colon)
        } else {
            None
        }
    }

    fn from_word(word: &String) -> (r: Option<Separator>) {
        if is_named(word, "Period") {
            Some(Separator::Period)
        } else if is_named(word, "Exclamation") {
            Some(Separator::Exclamation)
        } else if is_named(word, "Colon") {
            Some(Separator::Colon)
        } else {
            None
        }
    }

    fn to_word(&self) -> (w: String) {
        match self {
            Separator::Period => "Period".to_owned(),
            Separator::Exclamation => "Exclamation".to_owned(),
            Separator::Colon => "Colon".to_owned(),
        }
    }

    proof fn lemma_words(v: Separator) {
        reveal_strlit("Period");
        reveal_strlit("Exclamation");
        reveal_strlit("Colon");
        reveal_with_fuel(letters, 12);
        assert("Period"@[0] == 'P' && "Exclamation"@[0] == 'E' && "Colon"@[0] == 'C');
        assert("Period"@.len() == 6 && "Exclamation"@.len() == 11 && "Colon"@.len() == 5);
    }
}

impl Datomic for Separator {
    type Model = Separator;

    open spec fn model(&self) -> Separator {
        *self
    }

    open spec fn concept(m: Separator) -> SpecDatom {
        SpecDatom::Word(Separator::word_of(m))
    }

    open spec fn reading(d: SpecDatom, at: SpecSituation, budget: nat) -> (
        Result<Separator, SpecFault>,
        nat,
    ) {
        (word_reading::<Separator>(d, at), budget)
    }

    open spec fn cost(m: Separator) -> nat {
        0
    }

    open spec fn sound(m: Separator) -> bool {
        true
    }

    fn incorporate(datom: &Datom, at: &Situation, budget: &mut IncorporationBudget) -> (r: Result<
        Separator,
        Fault,
    >) {
        incorporate_word::<Separator>(datom, at)
    }

    fn conceive(&self) -> (d: Datom) {
        proof {
            assert(Self::sound(self.model()));
        }
        Datom::Word(self.to_word())
    }

    proof fn lemma_reads_back(m: Separator, at: SpecSituation, budget: nat) {
        lemma_word_reads_back::<Separator>(m, at);
    }
}

impl Worded for Enclosure {
    open spec fn word_of(v: Enclosure) -> Seq<char> {
        match v {
            Enclosure::Braced => "Braced"@,
            Enclosure::Bracketed => "Bracketed"@,
            Enclosure::Angled => "Angled"@,
            Enclosure::Guillemets => "Guillemets"@,
        }
    }

    open spec fn of_word(w: Seq<char>) -> Option<Enclosure> {
        if w == "Braced"@ {
            Some(Enclosure::Braced)
        } else if w == "Bracketed"@ {
            Some(Enclosure::Bracketed)
        } else if w == "Angled"@ {
            Some(Enclosure::Angled)
        } else if w == "Guillemets"@ {
            Some(Enclosure::Guillemets)
        } else {
            None
        }
    }

    fn from_word(word: &String) -> (r: Option<Enclosure>) {
        if is_named(word, "Braced") {
            Some(Enclosure::Braced)
        } else if is_named(word, "Bracketed") {
            Some(Enclosure::Bracketed)
        } else if is_named(word, "Angled") {
            Some(Enclosure::Angled)
        } else if is_named(word, "Guillemets") {
            Some(Enclosure::Guillemets)
        } else {
            None
        }
    }

    fn to_word(&self) -> (w: String) {
        match self {
            Enclosure::Braced => "Braced".to_owned(),
            Enclosure::Bracketed => "Bracketed".to_owned(),
            Enclosure::Angled => "Angled".to_owned(),
            Enclosure::Guillemets => "Guillemets".to_owned(),
        }
    }

    proof fn lemma_words(v: Enclosure) {
        reveal_strlit("Braced");
        reveal_strlit("Bracketed");
        reveal_strlit("Angled");
        reveal_strlit("Guillemets");
        reveal_with_fuel(letters, 11);
        assert("Braced"@[0] == 'B' && "Bracketed"@[0] == 'B' && "Angled"@[0] == 'A');
        assert("Braced"@.len() == 6 && "Bracketed"@.len() == 9 && "Angled"@.len() == 6);
        assert("Guillemets"@[0] == 'G' && "Guillemets"@.len() == 10);
    }
}

impl Datomic for Enclosure {
    type Model = Enclosure;

    open spec fn model(&self) -> Enclosure {
        *self
    }

    open spec fn concept(m: Enclosure) -> SpecDatom {
        SpecDatom::Word(Enclosure::word_of(m))
    }

    open spec fn reading(d: SpecDatom, at: SpecSituation, budget: nat) -> (
        Result<Enclosure, SpecFault>,
        nat,
    ) {
        (word_reading::<Enclosure>(d, at), budget)
    }

    open spec fn cost(m: Enclosure) -> nat {
        0
    }

    open spec fn sound(m: Enclosure) -> bool {
        true
    }

    fn incorporate(datom: &Datom, at: &Situation, budget: &mut IncorporationBudget) -> (r: Result<
        Enclosure,
        Fault,
    >) {
        incorporate_word::<Enclosure>(datom, at)
    }

    fn conceive(&self) -> (d: Datom) {
        proof {
            assert(Self::sound(self.model()));
        }
        Datom::Word(self.to_word())
    }

    proof fn lemma_reads_back(m: Enclosure, at: SpecSituation, budget: nat) {
        lemma_word_reads_back::<Enclosure>(m, at);
    }
}

impl Worded for Boundary {
    open spec fn word_of(v: Boundary) -> Seq<char> {
        match v {
            Boundary::CurlyQuotes => "CurlyQuotes"@,
            Boundary::Parentheses => "Parentheses"@,
        }
    }

    open spec fn of_word(w: Seq<char>) -> Option<Boundary> {
        if w == "CurlyQuotes"@ {
            Some(Boundary::CurlyQuotes)
        } else if w == "Parentheses"@ {
            Some(Boundary::Parentheses)
        } else {
            None
        }
    }

    fn from_word(word: &String) -> (r: Option<Boundary>) {
        if is_named(word, "CurlyQuotes") {
            Some(Boundary::CurlyQuotes)
        } else if is_named(word, "Parentheses") {
            Some(Boundary::Parentheses)
        } else {
            None
        }
    }

    fn to_word(&self) -> (w: String) {
        match self {
            Boundary::CurlyQuotes => "CurlyQuotes".to_owned(),
            Boundary::Parentheses => "Parentheses".to_owned(),
        }
    }

    proof fn lemma_words(v: Boundary) {
        reveal_strlit("CurlyQuotes");
        reveal_strlit("Parentheses");
        reveal_with_fuel(letters, 12);
        assert("CurlyQuotes"@[0] == 'C' && "Parentheses"@[0] == 'P');
        assert("CurlyQuotes"@.len() == 11 && "Parentheses"@.len() == 11);
    }
}

impl Datomic for Boundary {
    type Model = Boundary;

    open spec fn model(&self) -> Boundary {
        *self
    }

    open spec fn concept(m: Boundary) -> SpecDatom {
        SpecDatom::Word(Boundary::word_of(m))
    }

    open spec fn reading(d: SpecDatom, at: SpecSituation, budget: nat) -> (
        Result<Boundary, SpecFault>,
        nat,
    ) {
        (word_reading::<Boundary>(d, at), budget)
    }

    open spec fn cost(m: Boundary) -> nat {
        0
    }

    open spec fn sound(m: Boundary) -> bool {
        true
    }

    fn incorporate(datom: &Datom, at: &Situation, budget: &mut IncorporationBudget) -> (r: Result<
        Boundary,
        Fault,
    >) {
        incorporate_word::<Boundary>(datom, at)
    }

    fn conceive(&self) -> (d: Datom) {
        proof {
            assert(Self::sound(self.model()));
        }
        Datom::Word(self.to_word())
    }

    proof fn lemma_reads_back(m: Boundary, at: SpecSituation, budget: nat) {
        lemma_word_reads_back::<Boundary>(m, at);
    }
}

impl Worded for ErrorLayer {
    open spec fn word_of(v: ErrorLayer) -> Seq<char> {
        match v {
            ErrorLayer::Protos => "Protos"@,
            ErrorLayer::Datom => "Datom"@,
            ErrorLayer::Composition => "Composition"@,
        }
    }

    open spec fn of_word(w: Seq<char>) -> Option<ErrorLayer> {
        if w == "Protos"@ {
            Some(ErrorLayer::Protos)
        } else if w == "Datom"@ {
            Some(ErrorLayer::Datom)
        } else if w == "Composition"@ {
            Some(ErrorLayer::Composition)
        } else {
            None
        }
    }

    fn from_word(word: &String) -> (r: Option<ErrorLayer>) {
        if is_named(word, "Protos") {
            Some(ErrorLayer::Protos)
        } else if is_named(word, "Datom") {
            Some(ErrorLayer::Datom)
        } else if is_named(word, "Composition") {
            Some(ErrorLayer::Composition)
        } else {
            None
        }
    }

    fn to_word(&self) -> (w: String) {
        match self {
            ErrorLayer::Protos => "Protos".to_owned(),
            ErrorLayer::Datom => "Datom".to_owned(),
            ErrorLayer::Composition => "Composition".to_owned(),
        }
    }

    proof fn lemma_words(v: ErrorLayer) {
        reveal_strlit("Protos");
        reveal_strlit("Datom");
        reveal_strlit("Composition");
        reveal_with_fuel(letters, 12);
        assert("Protos"@[0] == 'P' && "Datom"@[0] == 'D' && "Composition"@[0] == 'C');
        assert("Protos"@.len() == 6 && "Datom"@.len() == 5 && "Composition"@.len() == 11);
    }
}

impl Datomic for ErrorLayer {
    type Model = ErrorLayer;

    open spec fn model(&self) -> ErrorLayer {
        *self
    }

    open spec fn concept(m: ErrorLayer) -> SpecDatom {
        SpecDatom::Word(ErrorLayer::word_of(m))
    }

    open spec fn reading(d: SpecDatom, at: SpecSituation, budget: nat) -> (
        Result<ErrorLayer, SpecFault>,
        nat,
    ) {
        (word_reading::<ErrorLayer>(d, at), budget)
    }

    open spec fn cost(m: ErrorLayer) -> nat {
        0
    }

    open spec fn sound(m: ErrorLayer) -> bool {
        true
    }

    fn incorporate(datom: &Datom, at: &Situation, budget: &mut IncorporationBudget) -> (r: Result<
        ErrorLayer,
        Fault,
    >) {
        incorporate_word::<ErrorLayer>(datom, at)
    }

    fn conceive(&self) -> (d: Datom) {
        proof {
            assert(Self::sound(self.model()));
        }
        Datom::Word(self.to_word())
    }

    proof fn lemma_reads_back(m: ErrorLayer, at: SpecSituation, budget: nat) {
        lemma_word_reads_back::<ErrorLayer>(m, at);
    }
}

} // verus!

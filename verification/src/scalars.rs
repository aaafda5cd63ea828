//! The scalars, text and meaning: each reads from one datom and writes to one.

use vstd::prelude::*;

use crate::anatomy::{
    Datom, Expected, Fault, IncorporationBudget, Meaning, Problem, SpecDatom, SpecFault, SpecProblem,
    Word,
};
use crate::form::{Situation, SpecSituation};
use crate::glyph::{chars_of, is_wordy, separator_of, string_of};
use crate::kinds::{carried, found_of, refusal, rejoined, texted, worded, Datomic, Site};
use crate::protosization::{
    carriable, lemma_project_word, project, project_word, settled, word_run, is_word_run,
};
use crate::reader::{chain_word, first_separator, is_separator, no_separator};
use crate::words::{
    boolean_from_word, boolean_of_word, boolean_to_word, boolean_word, integer_from_word,
    integer_of_word, integer_to_word, integer_word, is_digit, lemma_boolean_words,
    lemma_integer_word_glyphs, lemma_integer_word_reads_back, decimal_word, is_decimal_word,
    unsigned_part, all_digits, canonical_digits, canonical_decimal, canonical_decimal_word,
    lemma_canonical_decimal,
};

verus! {

/// A word with no separator is a settled datom that a variant carries as it is.
pub proof fn lemma_plain_word(w: Seq<char>)
    requires
        word_run(w),
        no_separator(w),
    ensures
        settled(SpecDatom::Word(w)),
        carried(SpecDatom::Word(w)) == SpecDatom::Word(w),
        rejoined(SpecDatom::Word(w)) == Some(w),
{
    assert(!chain_word(w));
}

/// The text of a value in a text position: its word, or quoted text.
pub open spec fn text_concept(t: Seq<char>) -> SpecDatom {
    if word_run(t) {
        project_word(t)
    } else {
        SpecDatom::Text(t)
    }
}

/// Reading text: quoted text, a word, or a chain of words rejoined.
pub open spec fn text_reading(d: SpecDatom, at: SpecSituation, budget: nat) -> (
    Result<Seq<char>, SpecFault>,
    nat,
) {
    (texted(d, at), budget)
}

/// The text of a value reads back as the value, carried or not.
pub proof fn lemma_text_reads_back(t: Seq<char>, at: SpecSituation)
    ensures
        settled(text_concept(t)),
        texted(text_concept(t), at) == Ok::<_, SpecFault>(t),
        texted(carried(text_concept(t)), at) == Ok::<_, SpecFault>(t),
{
    lemma_project_word(t);
}

/// The datom of a text.
pub fn conceive_text(t: &String) -> (d: Datom)
    ensures
        d@ == text_concept(t@),
{
    if is_word_run(t) {
        project(t)
    } else {
        Datom::Text(t.clone())
    }
}

impl Datomic for i64 {
    type Model = i64;

    open spec fn model(&self) -> i64 {
        *self
    }

    open spec fn concept(m: i64) -> SpecDatom {
        SpecDatom::Word(integer_word(m as int))
    }

    open spec fn reading(d: SpecDatom, at: SpecSituation, budget: nat) -> (
        Result<i64, SpecFault>,
        nat,
    ) {
        (
            match worded(d, at, Expected::Integer) {
                Err(e) => Err(e),
                Ok(w) => match integer_of_word(w) {
                    Some(v) => Ok(v),
                    None => Err(refusal(at, SpecProblem::Value(w))),
                },
            },
            budget,
        )
    }

    open spec fn cost(m: i64) -> nat {
        0
    }

    open spec fn sound(m: i64) -> bool {
        true
    }

    fn incorporate(datom: &Datom, at: &Situation, budget: &mut IncorporationBudget) -> (r: Result<
        i64,
        Fault,
    >) {
        let site = Site::new(datom, at);
        match site.word(Expected::Integer) {
            Err(e) => Err(e),
            Ok(w) => {
                let cs = chars_of(w.as_str());
                match integer_from_word(cs.as_slice()) {
                    Some(v) => Ok(v),
                    None => Err(site.refuse(Problem::Value(w))),
                }
            },
        }
    }

    fn conceive(&self) -> (d: Datom) {
        proof {
            assert(Self::sound(self.model()));
        }
        let w = integer_to_word(*self);
        Datom::Word(string_of(w.as_slice()))
    }

    proof fn lemma_reads_back(m: i64, at: SpecSituation, budget: nat) {
        let w = integer_word(m as int);
        lemma_integer_word_reads_back(m);
        lemma_integer_word_glyphs(m as int);
        assert(word_run(w) && no_separator(w)) by {
            assert forall|j: int| 0 <= j < w.len() implies is_wordy(#[trigger] w[j]) && !is_separator(w[j]) by {
                assert(is_digit(w[j]) || w[j] == '-');
            }
        }
        lemma_plain_word(w);
    }
}

impl Datomic for bool {
    type Model = bool;

    open spec fn model(&self) -> bool {
        *self
    }

    open spec fn concept(m: bool) -> SpecDatom {
        SpecDatom::Word(boolean_word(m))
    }

    open spec fn reading(d: SpecDatom, at: SpecSituation, budget: nat) -> (
        Result<bool, SpecFault>,
        nat,
    ) {
        (
            match worded(d, at, Expected::Boolean) {
                Err(e) => Err(e),
                Ok(w) => match boolean_of_word(w) {
                    Some(v) => Ok(v),
                    None => Err(refusal(at, SpecProblem::Value(w))),
                },
            },
            budget,
        )
    }

    open spec fn cost(m: bool) -> nat {
        0
    }

    open spec fn sound(m: bool) -> bool {
        true
    }

    fn incorporate(datom: &Datom, at: &Situation, budget: &mut IncorporationBudget) -> (r: Result<
        bool,
        Fault,
    >) {
        let site = Site::new(datom, at);
        match site.word(Expected::Boolean) {
            Err(e) => Err(e),
            Ok(w) => {
                let cs = chars_of(w.as_str());
                match boolean_from_word(cs.as_slice()) {
                    Some(v) => Ok(v),
                    None => Err(site.refuse(Problem::Value(w))),
                }
            },
        }
    }

    fn conceive(&self) -> (d: Datom) {
        proof {
            assert(Self::sound(self.model()));
        }
        let w = boolean_to_word(*self);
        Datom::Word(string_of(w.as_slice()))
    }

    proof fn lemma_reads_back(m: bool, at: SpecSituation, budget: nat) {
        let w = boolean_word(m);
        lemma_boolean_words(m, w);
        assert(word_run(w) && no_separator(w)) by {
            assert forall|j: int| 0 <= j < w.len() implies is_wordy(#[trigger] w[j]) && !is_separator(w[j]) by {
                if m {
                    assert(w == seq!['T', 'r', 'u', 'e']);
                } else {
                    assert(w == seq!['F', 'a', 'l', 's', 'e']);
                }
            }
        }
        lemma_plain_word(w);
    }
}

impl Datomic for String {
    type Model = Seq<char>;

    open spec fn model(&self) -> Seq<char> {
        self@
    }

    open spec fn concept(m: Seq<char>) -> SpecDatom {
        text_concept(m)
    }

    open spec fn reading(d: SpecDatom, at: SpecSituation, budget: nat) -> (
        Result<Seq<char>, SpecFault>,
        nat,
    ) {
        text_reading(d, at, budget)
    }

    open spec fn cost(m: Seq<char>) -> nat {
        0
    }

    open spec fn sound(m: Seq<char>) -> bool {
        true
    }

    fn incorporate(datom: &Datom, at: &Situation, budget: &mut IncorporationBudget) -> (r: Result<
        String,
        Fault,
    >) {
        Site::new(datom, at).text()
    }

    fn conceive(&self) -> (d: Datom) {
        proof {
            assert(Self::sound(self.model()));
        }
        conceive_text(self)
    }

    proof fn lemma_reads_back(m: Seq<char>, at: SpecSituation, budget: nat) {
        lemma_text_reads_back(m, at);
    }
}

/// Reading a word: text, bare or quoted or a chain rejoined, that is a run of word glyphs.
pub open spec fn word_value_reading(d: SpecDatom, at: SpecSituation) -> Result<Seq<char>, SpecFault> {
    match texted(d, at) {
        Err(e) => Err(e),
        Ok(t) => if word_run(t) {
            Ok(t)
        } else {
            Err(refusal(at, SpecProblem::Value(t)))
        },
    }
}

impl Datomic for Word {
    type Model = Seq<char>;

    open spec fn model(&self) -> Seq<char> {
        self@
    }

    open spec fn concept(m: Seq<char>) -> SpecDatom {
        text_concept(m)
    }

    open spec fn reading(d: SpecDatom, at: SpecSituation, budget: nat) -> (
        Result<Seq<char>, SpecFault>,
        nat,
    ) {
        (word_value_reading(d, at), budget)
    }

    open spec fn cost(m: Seq<char>) -> nat {
        0
    }

    open spec fn sound(m: Seq<char>) -> bool {
        word_run(m)
    }

    fn incorporate(datom: &Datom, at: &Situation, budget: &mut IncorporationBudget) -> (r: Result<
        Word,
        Fault,
    >) {
        let site = Site::new(datom, at);
        match site.text() {
            Err(e) => Err(e),
            Ok(t) => match Word::new(t.clone()) {
                Some(w) => Ok(w),
                None => Err(site.refuse(Problem::Value(t))),
            },
        }
    }

    fn conceive(&self) -> (d: Datom) {
        conceive_text(self.as_string())
    }

    proof fn lemma_reads_back(m: Seq<char>, at: SpecSituation, budget: nat) {
        lemma_text_reads_back(m, at);
    }
}


impl Datomic for Meaning {
    type Model = Seq<char>;

    open spec fn model(&self) -> Seq<char> {
        match self {
            Meaning::Plain(t) => t@,
        }
    }

    open spec fn concept(m: Seq<char>) -> SpecDatom {
        SpecDatom::Meaning(m)
    }

    open spec fn reading(d: SpecDatom, at: SpecSituation, budget: nat) -> (
        Result<Seq<char>, SpecFault>,
        nat,
    ) {
        (
            match d {
                SpecDatom::Meaning(t) => Ok(t),
                _ => Err(refusal(at, SpecProblem::Shape(Expected::Meaning, found_of(d)))),
            },
            budget,
        )
    }

    open spec fn cost(m: Seq<char>) -> nat {
        0
    }

    open spec fn sound(m: Seq<char>) -> bool {
        true
    }

    fn incorporate(datom: &Datom, at: &Situation, budget: &mut IncorporationBudget) -> (r: Result<
        Meaning,
        Fault,
    >) {
        let site = Site::new(datom, at);
        match datom {
            Datom::Meaning(t) => Ok(Meaning::Plain(t.clone())),
            _ => Err(site.refuse(Problem::Shape(Expected::Meaning, site.found()))),
        }
    }

    fn conceive(&self) -> (d: Datom) {
        proof {
            assert(Self::sound(self.model()));
        }
        match self {
            Meaning::Plain(t) => Datom::Meaning(t.clone()),
        }
    }

    proof fn lemma_reads_back(m: Seq<char>, at: SpecSituation, budget: nat) {
    }
}

// ----- decimals -----

/// A decimal's word is a chain of words whose first separator is its point:
/// its datom is a variant, which a variant carries as it is, and it reads
/// back as the word in a decimal position.
pub proof fn lemma_decimal_word(m: Seq<char>, at: SpecSituation)
    requires
        decimal_word(m),
    ensures
        word_run(m),
        settled(text_concept(m)),
        carried(text_concept(m)) == text_concept(m),
        worded(text_concept(m), at, Expected::Decimal) == Ok::<_, SpecFault>(m),
{
    let u = unsigned_part(m);
    let off: int = if m.len() > 0 && m[0] == '-' {
        1
    } else {
        0
    };
    let p = choose|p: int|
        0 <= p < u.len() && #[trigger] u[p] == '.' && canonical_digits(u.subrange(0, p))
            && all_digits(u.subrange(p + 1, u.len() as int));
    let q = off + p;
    assert(u =~= m.subrange(off, m.len() as int));
    assert forall|j: int| 0 <= j < m.len() && j != q implies (is_digit(#[trigger] m[j]) || (j == 0
        && m[j] == '-')) by {
        if j < q {
            if j >= off {
                assert(u.subrange(0, p)[j - off] == m[j]);
            }
        } else {
            assert(u.subrange(p + 1, u.len() as int)[j - q - 1] == m[j]);
        }
    }
    assert(m[q] == '.');
    assert forall|j: int| 0 <= j < m.len() implies is_wordy(#[trigger] m[j]) by {
        if j != q {
            assert(is_digit(m[j]) || (j == 0 && m[j] == '-'));
        }
    }
    assert(p >= 1) by {
        assert(u.subrange(0, p).len() > 0);
    }
    assert(q + 1 < m.len()) by {
        assert(u.subrange(p + 1, u.len() as int).len() > 0);
    }
    assert forall|j: int| 0 <= j < m.len() && j != q implies !is_separator(#[trigger] m[j]) by {
        assert(is_digit(m[j]) || (j == 0 && m[j] == '-'));
    }
    assert(chain_word(m)) by {
        assert(!is_separator(m[0])) by {
            assert(0 != q);
        }
        assert(!is_separator(m.last())) by {
            assert(m.len() - 1 != q);
        }
        assert forall|j: int| 1 <= j < m.len() && is_separator(#[trigger] m[j]) implies !is_separator(
            m[j - 1],
        ) by {
            assert(j == q);
        }
        assert(!no_separator(m)) by {
            assert(is_separator(m[q]));
        }
    }
    crate::protosization::lemma_first_separator_facts(m, 0, m.len() as int);
    let f = first_separator(m, 0, m.len() as int);
    assert(f == q) by {
        if f < q {
            assert(is_separator(m[f]));
        }
        if f > q {
            assert(!is_separator(m[q]));
        }
    }
    assert(text_concept(m) is Variant);
    lemma_text_reads_back(m, at);
}

/// A decimal of the dialect, held as its canonical word: an optional `-`,
/// canonical digits, a point, and digits with no trailing zero but a lone one.
#[derive(Debug, PartialEq, Eq)]
pub struct Decimal {
    word: String,
}

impl View for Decimal {
    type V = Seq<char>;

    closed spec fn view(&self) -> Seq<char> {
        self.word@
    }
}

impl Decimal {
    #[verifier::type_invariant]
    closed spec fn is_a_decimal(&self) -> bool {
        canonical_decimal_word_of(self.word@)
    }

    /// The decimal a word spells, held as its canonical word (`1.50` is the
    /// decimal `1.5`); `None` when the word spells none.
    pub fn new(word: String) -> (r: Option<Decimal>)
        ensures
            decimal_word(word@) <==> r is Some,
            r matches Some(d) ==> d@ == canonical_decimal(word@),
    {
        let cs = chars_of(word.as_str());
        if is_decimal_word(cs.as_slice()) {
            let c = canonical_decimal_word(cs.as_slice());
            proof {
                lemma_canonical_decimal(word@);
            }
            Some(Decimal { word: string_of(c.as_slice()) })
        } else {
            None
        }
    }

    /// The decimal's word.
    pub fn as_str(&self) -> (s: &str)
        ensures
            s@ == self@,
            canonical_decimal_word_of(self@),
    {
        proof {
            use_type_invariant(self);
        }
        self.word.as_str()
    }
}

impl Clone for Decimal {
    fn clone(&self) -> (c: Decimal)
        ensures
            c@ == self@,
    {
        proof {
            use_type_invariant(self);
        }
        Decimal { word: self.word.clone() }
    }
}

/// A canonical decimal word: it spells a decimal and is its own canonical word.
pub open spec fn canonical_decimal_word_of(w: Seq<char>) -> bool {
    decimal_word(w) && canonical_decimal(w) == w
}

/// Reading a decimal: a word, or a chain of words rejoined, that spells a
/// decimal, taken as its canonical word.
pub open spec fn decimal_value_reading(d: SpecDatom, at: SpecSituation) -> Result<Seq<char>, SpecFault> {
    match worded(d, at, Expected::Decimal) {
        Err(e) => Err(e),
        Ok(w) => if decimal_word(w) {
            Ok(canonical_decimal(w))
        } else {
            Err(refusal(at, SpecProblem::Value(w)))
        },
    }
}

impl Datomic for Decimal {
    type Model = Seq<char>;

    open spec fn model(&self) -> Seq<char> {
        self@
    }

    open spec fn concept(m: Seq<char>) -> SpecDatom {
        text_concept(m)
    }

    open spec fn reading(d: SpecDatom, at: SpecSituation, budget: nat) -> (
        Result<Seq<char>, SpecFault>,
        nat,
    ) {
        (decimal_value_reading(d, at), budget)
    }

    open spec fn cost(m: Seq<char>) -> nat {
        0
    }

    open spec fn sound(m: Seq<char>) -> bool {
        canonical_decimal_word_of(m)
    }

    fn incorporate(datom: &Datom, at: &Situation, budget: &mut IncorporationBudget) -> (r: Result<
        Decimal,
        Fault,
    >) {
        let site = Site::new(datom, at);
        match site.word(Expected::Decimal) {
            Err(e) => Err(e),
            Ok(w) => match Decimal::new(w.clone()) {
                Some(d) => Ok(d),
                None => Err(site.refuse(Problem::Value(w))),
            },
        }
    }

    fn conceive(&self) -> (d: Datom) {
        proof {
            use_type_invariant(self);
        }
        conceive_text(&self.word)
    }

    proof fn lemma_reads_back(m: Seq<char>, at: SpecSituation, budget: nat) {
        lemma_decimal_word(m, at);
    }
}

} // verus!

//! Protosization: the datom becomes the protoform that its canonical text reads as.

use vstd::prelude::*;

use crate::anatomy::{datoms_view, lemma_datoms_view, Datom, SpecDatom};
use crate::conception::{conceived, conceived_all, conceived_one, part, situation_at, word_chain};
use crate::delineation::{find_first_separator, is_chain_word, lemma_forms_push, substring};
use crate::form::{forms_view, Protoform, SpecForm, SpecSituation};
use crate::glyph::{chars_of, string_of, is_plain, is_wordy, separator, separator_glyph, separator_of, Boundary, Enclosure, Separator};
use crate::reader::{chain_word, delineated, first_separator, is_separator, no_empty_piece, no_separator, MAX_DEPTH};
use crate::rereading::{all_well_formed, bare_word, headed_body, lemma_text_rereads, plain_symbol, well_formed};
use crate::writer::{lemma_forms_view_len, textualize_form, written};

verus! {

/// The structure the reader gives a bare run: a chain of heads, each with its
/// separator, when the run is a chained word; the run itself otherwise.
pub open spec fn bare_form(w: Seq<char>) -> SpecForm
    decreases w.len(),
{
    if chain_word(w) {
        let m = first_separator(w, 0, w.len() as int);
        if 0 < m < w.len() {
            SpecForm::Headed(
                w.subrange(0, m),
                separator_of(w[m])->0,
                Box::new(bare_form(w.subrange(m + 1, w.len() as int))),
            )
        } else {
            SpecForm::Bare(w)
        }
    } else {
        SpecForm::Bare(w)
    }
}

/// The protoform of a datom: a variant is a head with the dot, a struct is
/// braced, a vector bracketed, text curly-quoted, meaning parenthesized, and a
/// word is the structure its run reads as.
pub open spec fn protosized(d: SpecDatom) -> SpecForm
    decreases d,
{
    match d {
        SpecDatom::Variant(h, b) => SpecForm::Headed(h, Separator::Period, Box::new(protosized(*b))),
        SpecDatom::Struct(ds) => SpecForm::Enclosed(Enclosure::Braced, protosized_all(ds)),
        SpecDatom::Vector(ds) => SpecForm::Enclosed(Enclosure::Bracketed, protosized_all(ds)),
        SpecDatom::Mapping(ds) => SpecForm::Enclosed(Enclosure::Guillemets, protosized_all(ds)),
        SpecDatom::Text(t) => SpecForm::Opaque(Boundary::CurlyQuotes, t),
        SpecDatom::Meaning(t) => SpecForm::Opaque(Boundary::Parentheses, t),
        SpecDatom::Word(w) => bare_form(w),
    }
}

/// The protoforms of a sequence of datoms.
pub open spec fn protosized_all(ds: Seq<SpecDatom>) -> Seq<SpecForm>
    decreases ds,
{
    if ds.len() == 0 {
        Seq::empty()
    } else {
        seq![protosized(ds[0])] + protosized_all(ds.drop_first())
    }
}

/// How deeply a protoform nests, as the reader counts it: one level for each
/// head of a chain and for each non-empty enclosure.
pub open spec fn nesting(f: SpecForm) -> nat
    decreases f,
{
    match f {
        SpecForm::Headed(_, _, b) => 1 + nesting(*b),
        SpecForm::Enclosed(_, cs) => if cs.len() == 0 {
            0
        } else {
            1 + deepest(cs)
        },
        _ => 0,
    }
}

/// The deepest nesting among protoforms.
pub open spec fn deepest(cs: Seq<SpecForm>) -> nat
    decreases cs,
{
    if cs.len() == 0 {
        0
    } else {
        let rest = deepest(cs.drop_first());
        let first = nesting(cs[0]);
        if first >= rest {
            first
        } else {
            rest
        }
    }
}

/// The datom a bare run means: a variant when its chain begins with a head and
/// the dot, the word itself otherwise.
pub open spec fn project_word(w: Seq<char>) -> SpecDatom
    decreases w.len(),
{
    if chain_word(w) {
        let m = first_separator(w, 0, w.len() as int);
        if 0 < m < w.len() && w[m] == '.' {
            SpecDatom::Variant(w.subrange(0, m), Box::new(project_word(w.subrange(m + 1, w.len() as int))))
        } else {
            SpecDatom::Word(w)
        }
    } else {
        SpecDatom::Word(w)
    }
}

/// A run of word glyphs.
pub open spec fn word_run(w: Seq<char>) -> bool {
    w.len() > 0 && forall|j: int| 0 <= j < w.len() ==> is_wordy(#[trigger] w[j])
}

/// What a variant may carry without blurring its boundary: anything but a
/// word with an empty piece.
pub open spec fn carriable(b: SpecDatom) -> bool {
    match b {
        SpecDatom::Word(w) => chain_word(w) || no_separator(w),
        _ => true,
    }
}

/// A datom that its canonical text gives back: words are runs that read as
/// words, heads are symbols, and a variant's body does not blur its boundary.
pub open spec fn settled(d: SpecDatom) -> bool
    decreases d,
{
    match d {
        SpecDatom::Word(w) => word_run(w) && project_word(w) == SpecDatom::Word(w),
        SpecDatom::Variant(h, b) => plain_symbol(h) && settled(*b) && carriable(*b),
        SpecDatom::Struct(ds) => all_settled(ds),
        SpecDatom::Vector(ds) => all_settled(ds),
        SpecDatom::Mapping(ds) => all_settled(ds),
        SpecDatom::Text(_) => true,
        SpecDatom::Meaning(_) => true,
    }
}

/// Datoms that are all settled.
pub open spec fn all_settled(ds: Seq<SpecDatom>) -> bool
    decreases ds,
{
    if ds.len() == 0 {
        true
    } else {
        settled(ds[0]) && all_settled(ds.drop_first())
    }
}

// ----- the first separator of a run -----

/// The first separator of `[a, b)` is at or after `a`, is a separator when
/// before `b`, and has no separator before it.
pub proof fn lemma_first_separator_facts(s: Seq<char>, a: int, b: int)
    requires
        0 <= a <= b <= s.len(),
    ensures
        a <= first_separator(s, a, b) <= b,
        first_separator(s, a, b) < b ==> is_separator(s[first_separator(s, a, b)]),
        forall|j: int| a <= j < first_separator(s, a, b) ==> !is_separator(#[trigger] s[j]),
    decreases b - a,
{
    if a < b && !is_separator(s[a]) {
        lemma_first_separator_facts(s, a + 1, b);
    }
}

/// The first separator of a slice, counted from the slice's start.
proof fn lemma_first_separator_shift(s: Seq<char>, a: int, b: int, k: int)
    requires
        0 <= a <= b <= s.len(),
        0 <= k <= b - a,
    ensures
        first_separator(s, a + k, b) == a + first_separator(s.subrange(a, b), k, b - a),
    decreases b - a - k,
{
    if k < b - a {
        lemma_first_separator_shift(s, a, b, k + 1);
    }
}

/// A chained word splits at its first separator into a symbol and a run that
/// is again a chained word or a symbol.
proof fn lemma_chain_split(w: Seq<char>)
    requires
        chain_word(w),
    ensures
        0 < first_separator(w, 0, w.len() as int) < w.len() - 1,
        ({
            let m = first_separator(w, 0, w.len() as int);
            let rest = w.subrange(m + 1, w.len() as int);
            &&& is_separator(w[m])
            &&& no_separator(w.subrange(0, m))
            &&& rest.len() > 0
            &&& (chain_word(rest) || no_separator(rest))
        }),
{
    let n = w.len() as int;
    lemma_first_separator_facts(w, 0, n);
    let m = first_separator(w, 0, n);
    if m == n {
        assert(no_separator(w));
    }
    assert(m != 0);
    assert(m != n - 1);
    let rest = w.subrange(m + 1, n);
    assert(no_separator(w.subrange(0, m))) by {
        assert forall|j: int| 0 <= j < m implies !is_separator(#[trigger] w.subrange(0, m)[j]) by {
            assert(w.subrange(0, m)[j] == w[j]);
        }
    }
    assert(rest[0] == w[m + 1]);
    assert(!is_separator(rest[0]));
    assert(rest.last() == w.last());
    assert(no_empty_piece(rest)) by {
        assert forall|j: int| 1 <= j < rest.len() && is_separator(#[trigger] rest[j]) implies !is_separator(rest[j - 1]) by {
            assert(rest[j] == w[m + 1 + j]);
            assert(rest[j - 1] == w[m + j]);
        }
    }
}

/// The canonical text of a bare run's structure is the run.
pub proof fn lemma_written_bare_form(w: Seq<char>)
    ensures
        written(bare_form(w)) == w,
    decreases w.len(),
{
    if chain_word(w) {
        let m = first_separator(w, 0, w.len() as int);
        if 0 < m < w.len() {
            lemma_chain_split(w);
            let rest = w.subrange(m + 1, w.len() as int);
            lemma_written_bare_form(rest);
            assert(separator_glyph(separator_of(w[m])->0) == w[m]);
            assert(w.subrange(0, m).push(w[m]) + rest =~= w);
        }
    }
}

/// Every structure of a bare run is a chain of words.
proof fn lemma_bare_form_word_chain(w: Seq<char>)
    ensures
        word_chain(bare_form(w)),
    decreases w.len(),
{
    if chain_word(w) {
        let m = first_separator(w, 0, w.len() as int);
        if 0 < m < w.len() {
            lemma_bare_form_word_chain(w.subrange(m + 1, w.len() as int));
        }
    }
}

/// A bare run's structure means the run's datom.
pub proof fn lemma_conceived_bare_form(w: Seq<char>, at: SpecSituation, path: Seq<i64>)
    ensures
        conceived(bare_form(w), at, path) matches Ok((d, _)) && d == project_word(w),
    decreases w.len(),
{
    if chain_word(w) {
        let m = first_separator(w, 0, w.len() as int);
        if 0 < m < w.len() {
            let rest = w.subrange(m + 1, w.len() as int);
            if w[m] == '.' {
                lemma_conceived_bare_form(rest, part(at, 1), path.push(1));
            } else {
                lemma_bare_form_word_chain(w);
                lemma_written_bare_form(w);
            }
        }
    }
}

/// The structure of a run of word glyphs is well formed wherever its chain fits.
proof fn lemma_well_formed_bare_form(w: Seq<char>, depth: int)
    requires
        word_run(w),
        0 <= depth,
        depth + nesting(bare_form(w)) <= MAX_DEPTH,
    ensures
        well_formed(bare_form(w), depth),
        chain_word(w) ==> bare_form(w) is Headed,
    decreases w.len(),
{
    if chain_word(w) {
        lemma_chain_split(w);
        let m = first_separator(w, 0, w.len() as int);
        let rest = w.subrange(m + 1, w.len() as int);
        assert(word_run(rest)) by {
            assert forall|j: int| 0 <= j < rest.len() implies is_wordy(#[trigger] rest[j]) by {
                assert(rest[j] == w[m + 1 + j]);
            }
        }
        lemma_well_formed_bare_form(rest, depth + 1);
        assert(plain_symbol(w.subrange(0, m))) by {
            assert forall|j: int| 0 <= j < m implies is_plain(#[trigger] w.subrange(0, m)[j]) by {
                assert(w.subrange(0, m)[j] == w[j]);
                assert(is_wordy(w[j]));
                assert(!is_separator(w.subrange(0, m)[j]));
            }
        }
        if !chain_word(rest) {
            assert(plain_symbol(rest)) by {
                assert forall|j: int| 0 <= j < rest.len() implies is_plain(#[trigger] rest[j]) by {
                    assert(is_wordy(rest[j]));
                    assert(!is_separator(rest[j]));
                }
            }
        }
    }
}

// ----- the protoforms of datoms -----

/// The protoforms of datoms have one entry for each datom.
pub proof fn lemma_protosized_all(ds: Seq<SpecDatom>)
    ensures
        protosized_all(ds).len() == ds.len(),
        forall|i: int| 0 <= i < ds.len() ==> #[trigger] protosized_all(ds)[i] == protosized(ds[i]),
    decreases ds.len(),
{
    if ds.len() > 0 {
        lemma_protosized_all(ds.drop_first());
        assert forall|i: int| 0 <= i < ds.len() implies #[trigger] protosized_all(ds)[i] == protosized(ds[i]) by {
            if i > 0 {
                assert(protosized_all(ds)[i] == protosized_all(ds.drop_first())[i - 1]);
            }
        }
    }
}

/// The structure of a bare run, from `cs[a..]`.
fn bare_form_from(cs: &Vec<char>, a: usize) -> (f: Protoform)
    requires
        a <= cs.len(),
    ensures
        f@ == bare_form(cs@.subrange(a as int, cs.len() as int)),
    decreases cs.len() - a,
{
    let n = cs.len();
    let ghost w = cs@.subrange(a as int, n as int);
    if is_chain_word(cs, a, n) {
        let m = find_first_separator(cs, a, n);
        proof {
            lemma_first_separator_shift(cs@, a as int, n as int, 0);
        }
        if a < m && m < n {
            let head = substring(cs, a, m);
            let sep = separator(cs[m]);
            let body = bare_form_from(cs, m + 1);
            proof {
                assert(w.subrange(0, m - a) =~= cs@.subrange(a as int, m as int));
                assert(w[m - a] == cs@[m as int]);
                assert(w.subrange(m - a + 1, w.len() as int) =~= cs@.subrange(m + 1, n as int));
            }
            match sep {
                Some(s) => Protoform::Headed(head, s, Box::new(body)),
                None => Protoform::Bare(substring(cs, a, n)),
            }
        } else {
            Protoform::Bare(substring(cs, a, n))
        }
    } else {
        Protoform::Bare(substring(cs, a, n))
    }
}

/// The structure of a bare run.
pub fn bare_form_of(w: &String) -> (f: Protoform)
    ensures
        f@ == bare_form(w@),
{
    let cs = chars_of(w.as_str());
    assert(cs@.subrange(0, cs@.len() as int) =~= cs@);
    bare_form_from(&cs, 0)
}

/// The protoform of a datom.
pub fn protosize(d: &Datom) -> (f: Protoform)
    ensures
        f@ == protosized(d@),
    decreases d,
{
    match d {
        Datom::Variant(h, b) => Protoform::Headed(h.clone(), Separator::Period, Box::new(protosize(b))),
        Datom::Struct(ds) => Protoform::Enclosed(Enclosure::Braced, protosize_all(ds)),
        Datom::Vector(ds) => Protoform::Enclosed(Enclosure::Bracketed, protosize_all(ds)),
        Datom::Mapping(ds) => Protoform::Enclosed(Enclosure::Guillemets, protosize_all(ds)),
        Datom::Text(t) => Protoform::Opaque(Boundary::CurlyQuotes, t.clone()),
        Datom::Meaning(t) => Protoform::Opaque(Boundary::Parentheses, t.clone()),
        Datom::Word(w) => bare_form_of(w),
    }
}

/// The protoforms of datoms.
fn protosize_all(ds: &Vec<Datom>) -> (fs: Vec<Protoform>)
    ensures
        forms_view(fs@) == protosized_all(datoms_view(ds@)),
    decreases ds,
{
    let ghost dv = datoms_view(ds@);
    proof {
        lemma_datoms_view(ds@);
        lemma_protosized_all(dv);
    }
    let mut fs: Vec<Protoform> = Vec::new();
    let mut k: usize = 0;
    proof {
        lemma_forms_view_len(fs@);
    }
    while k < ds.len()
        invariant
            0 <= k <= ds.len(),
            dv == datoms_view(ds@),
            dv.len() == ds.len(),
            forall|j: int| 0 <= j < ds.len() ==> #[trigger] dv[j] == ds@[j]@,
            protosized_all(dv).len() == dv.len(),
            forall|j: int| 0 <= j < dv.len() ==> #[trigger] protosized_all(dv)[j] == protosized(dv[j]),
            forms_view(fs@) =~= protosized_all(dv).subrange(0, k as int),
        decreases ds.len() - k,
    {
        let f = protosize(&ds[k]);
        proof {
            lemma_forms_push(fs@, f);
        }
        fs.push(f);
        k = k + 1;
    }
    assert(protosized_all(dv).subrange(0, ds.len() as int) =~= protosized_all(dv));
    fs
}

// ----- the laws -----

/// The protoform of a settled datom means that datom again, at any situation.
pub proof fn lemma_conceived_protosized(d: SpecDatom, at: SpecSituation, path: Seq<i64>)
    requires
        settled(d),
    ensures
        conceived(protosized(d), at, path) matches Ok((x, _)) && x == d,
    decreases d, 0int,
{
    match d {
        SpecDatom::Word(w) => {
            lemma_conceived_bare_form(w, at, path);
        },
        SpecDatom::Variant(h, b) => {
            lemma_conceived_protosized(*b, part(at, 1), path.push(1));
        },
        SpecDatom::Struct(ds) => {
            lemma_conceived_protosized_all(ds, at, path, 0);
            assert(ds.subrange(0, ds.len() as int) =~= ds);
        },
        SpecDatom::Vector(ds) => {
            lemma_conceived_protosized_all(ds, at, path, 0);
            assert(ds.subrange(0, ds.len() as int) =~= ds);
        },
        SpecDatom::Mapping(ds) => {
            lemma_conceived_protosized_all(ds, at, path, 0);
            assert(ds.subrange(0, ds.len() as int) =~= ds);
        },
        _ => {},
    }
}

/// The protoforms of settled datoms mean those datoms again, from the `k`-th on.
proof fn lemma_conceived_protosized_all(ds: Seq<SpecDatom>, at: SpecSituation, path: Seq<i64>, k: int)
    requires
        all_settled(ds),
        0 <= k <= ds.len(),
    ensures
        conceived_all(protosized_all(ds), at, path, k) matches Ok((xs, _)) && xs == ds.subrange(
            k,
            ds.len() as int,
        ),
    decreases ds, ds.len() - k,
{
    lemma_protosized_all(ds);
    lemma_all_settled(ds);
    if k < ds.len() {
        assert(protosized_all(ds)[k] == protosized(ds[k]));
        lemma_conceived_protosized(ds[k], part(at, k), path.push(k as i64));
        lemma_conceived_protosized_all(ds, at, path, k + 1);
        assert(seq![ds[k]] + ds.subrange(k + 1, ds.len() as int) =~= ds.subrange(k, ds.len() as int));
    } else {
        assert(ds.subrange(k, ds.len() as int) =~= Seq::<SpecDatom>::empty());
    }
}

/// Each of a sequence of settled datoms is settled.
pub proof fn lemma_all_settled(ds: Seq<SpecDatom>)
    ensures
        all_settled(ds) <==> forall|i: int| 0 <= i < ds.len() ==> #[trigger] settled(ds[i]),
    decreases ds.len(),
{
    if ds.len() > 0 {
        let rest = ds.drop_first();
        lemma_all_settled(rest);
        if forall|i: int| 0 <= i < ds.len() ==> #[trigger] settled(ds[i]) {
            assert forall|i: int| 0 <= i < rest.len() implies #[trigger] settled(rest[i]) by {
                assert(rest[i] == ds[i + 1]);
                assert(settled(ds[i + 1]));
            }
            assert(settled(ds[0]));
            assert(all_settled(ds));
        }
        if all_settled(ds) {
            assert forall|i: int| 0 <= i < ds.len() implies #[trigger] settled(ds[i]) by {
                if i > 0 {
                    assert(ds[i] == rest[i - 1]);
                    assert(settled(rest[i - 1]));
                }
            }
        }
    }
}

/// The deepest of protoforms is at least as deep as each.
proof fn lemma_deepest(cs: Seq<SpecForm>)
    ensures
        forall|i: int| 0 <= i < cs.len() ==> nesting(#[trigger] cs[i]) <= deepest(cs),
    decreases cs.len(),
{
    if cs.len() > 0 {
        lemma_deepest(cs.drop_first());
        assert forall|i: int| 0 <= i < cs.len() implies nesting(#[trigger] cs[i]) <= deepest(cs) by {
            if i > 0 {
                assert(cs[i] == cs.drop_first()[i - 1]);
            }
        }
    }
}

/// The protoform of a settled datom is well formed wherever its nesting fits.
pub proof fn lemma_well_formed_protosized(d: SpecDatom, depth: int)
    requires
        settled(d),
        0 <= depth,
        depth + nesting(protosized(d)) <= MAX_DEPTH,
    ensures
        well_formed(protosized(d), depth),
    decreases d, 0int,
{
    match d {
        SpecDatom::Word(w) => {
            lemma_well_formed_bare_form(w, depth);
        },
        SpecDatom::Variant(h, b) => {
            lemma_well_formed_protosized(*b, depth + 1);
            match *b {
                SpecDatom::Word(w) => {
                    lemma_well_formed_bare_form(w, depth + 1);
                    if !chain_word(w) {
                        assert(plain_symbol(w)) by {
                            assert forall|j: int| 0 <= j < w.len() implies is_plain(#[trigger] w[j]) by {
                                assert(is_wordy(w[j]));
                                assert(!is_separator(w[j]));
                            }
                        }
                    }
                },
                _ => {},
            }
        },
        SpecDatom::Struct(ds) => {
            lemma_protosized_all(ds);
            lemma_deepest(protosized_all(ds));
            lemma_well_formed_protosized_all(ds, depth + 1);
        },
        SpecDatom::Vector(ds) => {
            lemma_protosized_all(ds);
            lemma_deepest(protosized_all(ds));
            lemma_well_formed_protosized_all(ds, depth + 1);
        },
        SpecDatom::Mapping(ds) => {
            lemma_protosized_all(ds);
            lemma_deepest(protosized_all(ds));
            lemma_well_formed_protosized_all(ds, depth + 1);
        },
        _ => {},
    }
}

/// The protoforms of settled datoms are well formed wherever each fits.
proof fn lemma_well_formed_protosized_all(ds: Seq<SpecDatom>, depth: int)
    requires
        all_settled(ds),
        0 <= depth,
        ds.len() > 0 ==> depth + deepest(protosized_all(ds)) <= MAX_DEPTH,
    ensures
        all_well_formed(protosized_all(ds), depth),
    decreases ds,
{
    if ds.len() > 0 {
        let rest = ds.drop_first();
        lemma_protosized_all(ds);
        lemma_deepest(protosized_all(ds));
        assert(protosized_all(ds)[0] == protosized(ds[0]));
        lemma_well_formed_protosized(ds[0], depth);
        assert(protosized_all(ds).drop_first() =~= protosized_all(rest));
        if rest.len() > 0 {
            lemma_protosized_all(rest);
            lemma_deepest(protosized_all(rest));
            assert(deepest(protosized_all(rest)) <= deepest(protosized_all(ds)));
        }
        lemma_well_formed_protosized_all(rest, depth);
    }
}

/// The canonical text of a settled datom whose nesting fits reads back as that
/// datom: its one structure is the datom's protoform, and it means the datom.
pub proof fn lemma_datom_text_rereads(d: SpecDatom)
    requires
        settled(d),
        nesting(protosized(d)) <= MAX_DEPTH,
    ensures
        delineated(written(protosized(d))) matches Ok((fs, ats)) && fs == seq![protosized(d)] && (
        conceived_one(fs, ats) matches Ok((x, _)) && x == d),
{
    lemma_well_formed_protosized(d, 0);
    lemma_text_rereads(protosized(d));
    let ats = delineated(written(protosized(d)))->Ok_0.1;
    lemma_conceived_protosized(d, situation_at(ats, 0), Seq::empty());
}

/// The reader gives a run of word glyphs back as its bare form: one bare
/// word when it has no separator, or an empty piece, and otherwise the chain
/// of its heads; this holds for every run no longer than the reader's depth.
pub proof fn lemma_word_rereads(w: Seq<char>)
    requires
        word_run(w),
        w.len() <= MAX_DEPTH,
    ensures
        delineated(w) matches Ok((fs, _)) && fs == seq![bare_form(w)],
{
    crate::edge::lemma_bare_form_nesting(w);
    lemma_well_formed_bare_form(w, 0);
    lemma_text_rereads(bare_form(w));
    lemma_written_bare_form(w);
}

/// The canonical text of a datom.
pub fn textualize_datom(d: &Datom) -> (text: String)
    ensures
        text@ == written(protosized(d@)),
{
    let f = protosize(d);
    let cs = textualize_form(&f);
    string_of(cs.as_slice())
}

/// A bare run means a settled datom, and rejoining that datom gives the run back.
pub proof fn lemma_project_word(w: Seq<char>)
    ensures
        word_run(w) ==> settled(project_word(w)),
        crate::kinds::rejoined(project_word(w)) == Some(w),
    decreases w.len(),
{
    if chain_word(w) {
        let m = first_separator(w, 0, w.len() as int);
        if 0 < m < w.len() && w[m] == '.' {
            lemma_chain_split(w);
            let rest = w.subrange(m + 1, w.len() as int);
            lemma_project_word(rest);
            assert(w.subrange(0, m).push('.') + rest =~= w);
            if word_run(w) {
                assert(word_run(rest)) by {
                    assert forall|j: int| 0 <= j < rest.len() implies is_wordy(#[trigger] rest[j]) by {
                        assert(rest[j] == w[m + 1 + j]);
                    }
                }
                assert(plain_symbol(w.subrange(0, m))) by {
                    assert forall|j: int| 0 <= j < m implies is_plain(#[trigger] w.subrange(0, m)[j]) by {
                        assert(w.subrange(0, m)[j] == w[j]);
                        assert(is_wordy(w[j]));
                        assert(!is_separator(w.subrange(0, m)[j]));
                    }
                }
            }
        }
    }
}

/// The datom a bare run means, from `cs[a..]`.
fn project_from(cs: &Vec<char>, a: usize) -> (d: Datom)
    requires
        a <= cs.len(),
    ensures
        d@ == project_word(cs@.subrange(a as int, cs.len() as int)),
    decreases cs.len() - a,
{
    let n = cs.len();
    let ghost w = cs@.subrange(a as int, n as int);
    if is_chain_word(cs, a, n) {
        let m = find_first_separator(cs, a, n);
        proof {
            lemma_first_separator_shift(cs@, a as int, n as int, 0);
        }
        if a < m && m < n && cs[m] == '.' {
            let head = substring(cs, a, m);
            let body = project_from(cs, m + 1);
            proof {
                assert(w.subrange(0, m - a) =~= cs@.subrange(a as int, m as int));
                assert(w[m - a] == cs@[m as int]);
                assert(w.subrange(m - a + 1, w.len() as int) =~= cs@.subrange(m + 1, n as int));
            }
            Datom::Variant(head, Box::new(body))
        } else {
            proof {
                if 0 < m - a < w.len() {
                    assert(w[m - a] == cs@[m as int]);
                }
            }
            Datom::Word(substring(cs, a, n))
        }
    } else {
        Datom::Word(substring(cs, a, n))
    }
}

/// The datom a bare run means.
pub fn project(w: &String) -> (d: Datom)
    ensures
        d@ == project_word(w@),
{
    let cs = chars_of(w.as_str());
    assert(cs@.subrange(0, cs@.len() as int) =~= cs@);
    project_from(&cs, 0)
}

/// Whether a text is a run of word glyphs, and so can be written bare.
pub fn is_word_run(w: &String) -> (r: bool)
    ensures
        r == word_run(w@),
{
    let cs = chars_of(w.as_str());
    if cs.len() == 0 {
        return false;
    }
    let mut k: usize = 0;
    while k < cs.len()
        invariant
            0 <= k <= cs.len(),
            cs@ == w@,
            forall|j: int| 0 <= j < k ==> is_wordy(#[trigger] cs@[j]),
        decreases cs.len() - k,
    {
        if !crate::glyph::wordy(cs[k]) {
            return false;
        }
        k = k + 1;
    }
    true
}

} // verus!

//! The composition layer: a protoform formed into datoms that carry their
//! paths, and values composed from them under a caller's budget.

use vstd::prelude::*;

use crate::anatomy::{ErrorLayer, Meaning};
use crate::kinds::Datomic;
use crate::placement::{lemma_placed_sits, placed, Datomizable};
use crate::reader::StructuralProblem;
use crate::words::{
    boolean_from_word, boolean_of_word, integer_from_word, integer_of_word, integer_to_word, integer_word,
};
use crate::worded::Worded;
use crate::form::{Protoform, SpecForm};
use crate::glyph::{Boundary, Enclosure, Separator};
use crate::glyph::{chars_of, string_of};
use crate::naming::Pathing;
use crate::placement::{
    all_sit_from, sits_at, lemma_placeds_push, lemma_placeds_view, placeds_view, Form, PathDatom, SpecPathDatom, SpecPathForm,
};
use crate::reader::StructuralFault;
use crate::form::forms_view;
use crate::words::{natural_word, all_digits, digit, digit_value, digits_value, is_digit, lemma_value_of_prefix};
use crate::writer::{lemma_forms_view_len, textualize_form, written};
use crate::delineation::delineate;
use crate::edge::textualized;
use crate::protosization::{lemma_datom_text_rereads, protosized};
use crate::reader::{chain_word, is_separator, no_separator};
use crate::reader::delineated;

verus! {

/// How deep forming may descend before it refuses.
pub const MAXIMUM_FORMING_DEPTH: i64 = 4096;

/// What went wrong while forming or composing.
#[derive(Debug, PartialEq, Eq)]
pub enum ErrorKind {
    /// The budget, or the depth allowed, is spent.
    Budget,
    /// The text has no structure.
    Unstructured(StructuralFault),
    /// A form was expected and another found.
    Form { expected: String, found: String },
    /// A struct has the wrong number of positions.
    Arity { expected: i64, found: i64 },
    /// A word is not a value of what was expected.
    Value { expected: String, value: String },
    /// A variant is not one of the type's.
    Variant { expected: String, found: String },
}

/// The mathematical error kind.
pub enum SpecErrorKind {
    Budget,
    Unstructured(StructuralFault),
    Form(Seq<char>, Seq<char>),
    Arity(i64, i64),
    Value(Seq<char>, Seq<char>),
    Variant(Seq<char>, Seq<char>),
}

impl View for ErrorKind {
    type V = SpecErrorKind;

    open spec fn view(&self) -> SpecErrorKind {
        match self {
            ErrorKind::Budget => SpecErrorKind::Budget,
            ErrorKind::Unstructured(f) => SpecErrorKind::Unstructured(*f),
            ErrorKind::Form { expected, found } => SpecErrorKind::Form(expected@, found@),
            ErrorKind::Arity { expected, found } => SpecErrorKind::Arity(*expected, *found),
            ErrorKind::Value { expected, value } => SpecErrorKind::Value(expected@, value@),
            ErrorKind::Variant { expected, found } => SpecErrorKind::Variant(expected@, found@),
        }
    }
}

/// An error of the composition layer: its layer, its path, and what went wrong.
#[derive(Debug, PartialEq, Eq)]
pub struct Error {
    /// The layer that raised it.
    pub layer: ErrorLayer,
    /// The path of the datom at fault.
    pub path: Vec<i64>,
    /// What went wrong.
    pub kind: ErrorKind,
}

/// The mathematical error.
pub struct SpecError {
    pub layer: ErrorLayer,
    pub path: Seq<i64>,
    pub kind: SpecErrorKind,
}

impl View for Error {
    type V = SpecError;

    open spec fn view(&self) -> SpecError {
        SpecError { layer: self.layer, path: self.path@, kind: self.kind@ }
    }
}

/// An error of the datom layer at a path.
pub open spec fn datom_error(path: Seq<i64>, kind: SpecErrorKind) -> SpecError {
    SpecError { layer: ErrorLayer::Datom, path, kind }
}

/// An error of the composition layer at a path.
pub open spec fn composition_error(path: Seq<i64>, kind: SpecErrorKind) -> SpecError {
    SpecError { layer: ErrorLayer::Composition, path, kind }
}

// ----- forming -----

/// Whether a head reads as a 64-bit integer: an optional sign and decimal
/// digits whose value fits.
pub open spec fn integer_head(h: Seq<char>) -> bool {
    let signed = h.len() > 0 && (h[0] == '+' || h[0] == '-');
    let digits = if signed {
        h.drop_first()
    } else {
        h
    };
    &&& all_digits(digits)
    &&& if signed && h[0] == '-' {
        digits_value(digits) <= 0x8000_0000_0000_0000
    } else {
        digits_value(digits) <= 0x7fff_ffff_ffff_ffff
    }
}

/// Whether every glyph is an ASCII digit (true of the empty word).
pub open spec fn digits_only(w: Seq<char>) -> bool {
    forall|i: int| 0 <= i < w.len() ==> is_digit(#[trigger] w[i])
}

/// A datom at a path.
pub open spec fn at_path(path: Seq<i64>, form: SpecPathForm) -> SpecPathDatom {
    SpecPathDatom { path, form }
}

/// The datom a protoform forms at a path and depth: a bare run stays bare,
/// quoted text is a string, parentheses a meaning, braces, brackets and
/// guillemets a struct, a vector and a map whose child `i` sits at the path's
/// child `i`, and a
/// head with the dot a variant whose body sits at the path's child one. An
/// integer head over digits rejoins as one bare decimal; a head with another
/// separator is the bare run of its text.
pub open spec fn formed(f: SpecForm, path: Seq<i64>, depth: int) -> Result<SpecPathDatom, SpecError>
    decreases f, 0int,
{
    if depth >= MAXIMUM_FORMING_DEPTH {
        Err(datom_error(path, SpecErrorKind::Budget))
    } else {
        match f {
            SpecForm::Bare(w) => Ok(at_path(path, SpecPathForm::Bare(w))),
            SpecForm::Opaque(Boundary::CurlyQuotes, t) => Ok(at_path(path, SpecPathForm::String(t))),
            SpecForm::Opaque(Boundary::Parentheses, t) => Ok(at_path(path, SpecPathForm::Meaning(t))),
            SpecForm::Enclosed(Enclosure::Angled, _) => Err(
                datom_error(path, SpecErrorKind::Form("Datom enclosure"@, "Angled"@)),
            ),
            SpecForm::Enclosed(e, cs) => match formed_from(cs, path, depth + 1, 0) {
                Err(x) => Err(x),
                Ok(ds) => Ok(
                    at_path(
                        path,
                        if e == Enclosure::Braced {
                            SpecPathForm::Struct(ds)
                        } else if e == Enclosure::Guillemets {
                            SpecPathForm::Mapping(ds)
                        } else {
                            SpecPathForm::Vector(ds)
                        },
                    ),
                ),
            },
            SpecForm::Qualified(..) => Err(
                datom_error(path, SpecErrorKind::Form("unqualified Variant"@, "qualified head"@)),
            ),
            SpecForm::QualifiedHeaded(..) => Err(
                datom_error(path, SpecErrorKind::Form("unqualified Variant"@, "qualified head"@)),
            ),
            SpecForm::Headed(h, s, b) => if s == Separator::Period {
                match formed(*b, path.push(1), depth + 1) {
                    Err(x) => Err(x),
                    Ok(body) => match body.form {
                        SpecPathForm::Bare(t) => if integer_head(h) && digits_only(t) {
                            Ok(at_path(path, SpecPathForm::Bare(h.push('.') + t)))
                        } else {
                            Ok(at_path(path, SpecPathForm::Variant(h, Box::new(body))))
                        },
                        _ => Ok(at_path(path, SpecPathForm::Variant(h, Box::new(body)))),
                    },
                }
            } else {
                Ok(at_path(path, SpecPathForm::Bare(written(f))))
            },
        }
    }
}

/// The datoms the protoforms from the `k`-th on form, each at its own child
/// of the path; the first that cannot be formed gives its error.
pub open spec fn formed_from(cs: Seq<SpecForm>, path: Seq<i64>, depth: int, k: int) -> Result<
    Seq<SpecPathDatom>,
    SpecError,
>
    decreases cs, cs.len() - k,
{
    if k < 0 || k >= cs.len() {
        Ok(Seq::empty())
    } else {
        match formed(cs[k], path.push(k as i64), depth) {
            Err(x) => Err(x),
            Ok(d) => match formed_from(cs, path, depth, k + 1) {
                Err(x) => Err(x),
                Ok(rest) => Ok(seq![d] + rest),
            },
        }
    }
}

/// Whether a head reads as a 64-bit integer.
fn is_integer_head(h: &String) -> (r: bool)
    ensures
        r == integer_head(h@),
{
    let cs = chars_of(h.as_str());
    let signed = cs.len() > 0 && (cs[0] == '+' || cs[0] == '-');
    let start: usize = if signed {
        1
    } else {
        0
    };
    let limit: u128 = if signed && cs[0] == '-' {
        0x8000_0000_0000_0000
    } else {
        0x7fff_ffff_ffff_ffff
    };
    let ghost digits = cs@.subrange(start as int, cs@.len() as int);
    proof {
        if signed {
            assert(h@.drop_first() =~= digits);
        } else {
            assert(h@ =~= digits);
        }
        assert(integer_head(h@) == (all_digits(digits) && digits_value(digits) <= limit));
    }
    if start >= cs.len() {
        return false;
    }
    let mut v: u128 = 0;
    let mut k: usize = start;
    proof {
        assert(cs@.subrange(start as int, start as int) =~= Seq::<char>::empty());
    }
    while k < cs.len()
        invariant
            start <= k <= cs.len(),
            cs@ == h@,
            digits == cs@.subrange(start as int, cs@.len() as int),
            v == digits_value(cs@.subrange(start as int, k as int)),
            v <= limit,
            limit <= 0x8000_0000_0000_0000,
            integer_head(h@) == (all_digits(digits) && digits_value(digits) <= limit),
            forall|j: int| start <= j < k ==> is_digit(#[trigger] cs@[j]),
        decreases cs.len() - k,
    {
        if !digit(cs[k]) {
            proof {
                assert(digits[k - start] == cs@[k as int]);
            }
            return false;
        }
        let d = (cs[k] as u32 - '0' as u32) as u128;
        proof {
            let p = cs@.subrange(start as int, k + 1);
            assert(p.drop_last() =~= cs@.subrange(start as int, k as int));
            assert(p.last() == cs@[k as int]);
        }
        v = v * 10 + d;
        if v > limit {
            proof {
                if all_digits(digits) {
                    lemma_value_of_prefix(digits, k + 1 - start);
                    assert(digits.take(k + 1 - start) =~= cs@.subrange(start as int, k + 1));
                }
            }
            return false;
        }
        k = k + 1;
    }
    proof {
        assert(cs@.subrange(start as int, cs@.len() as int) == digits);
        assert forall|i: int| 0 <= i < digits.len() implies is_digit(#[trigger] digits[i]) by {
            assert(digits[i] == cs@[start + i]);
        }
    }
    true
}

/// Whether every glyph of a word is an ASCII digit.
fn is_digits_only(w: &String) -> (r: bool)
    ensures
        r == digits_only(w@),
{
    let cs = chars_of(w.as_str());
    let mut k: usize = 0;
    while k < cs.len()
        invariant
            0 <= k <= cs.len(),
            cs@ == w@,
            forall|j: int| 0 <= j < k ==> is_digit(#[trigger] cs@[j]),
        decreases cs.len() - k,
    {
        if !digit(cs[k]) {
            return false;
        }
        k = k + 1;
    }
    true
}

/// An error of the datom layer at a path.
fn datom_error_at(path: Vec<i64>, kind: ErrorKind) -> (e: Error)
    ensures
        e@ == datom_error(path@, kind@),
{
    Error { layer: ErrorLayer::Datom, path, kind }
}

/// The datom a protoform forms at a path and depth.
fn form_at(f: &Protoform, path: Vec<i64>, depth: i64) -> (r: Result<PathDatom, Error>)
    ensures
        formed(f@, path@, depth as int) == match r {
            Ok(d) => Ok::<_, SpecError>(d@),
            Err(e) => Err(e@),
        },
    decreases f,
{
    if depth >= MAXIMUM_FORMING_DEPTH {
        return Err(datom_error_at(path, ErrorKind::Budget));
    }
    match f {
        Protoform::Bare(w) => Ok(PathDatom { path, form: Form::Bare(w.clone()) }),
        Protoform::Opaque(Boundary::CurlyQuotes, t) => Ok(PathDatom { path, form: Form::String(t.clone()) }),
        Protoform::Opaque(Boundary::Parentheses, t) => Ok(PathDatom { path, form: Form::Meaning(t.clone()) }),
        Protoform::Enclosed(Enclosure::Angled, _) => Err(
            datom_error_at(
                path,
                ErrorKind::Form { expected: "Datom enclosure".to_owned(), found: "Angled".to_owned() },
            ),
        ),
        Protoform::Enclosed(e, cs) => {
            match form_children(cs, &path, depth + 1) {
                Err(x) => Err(x),
                Ok(ds) => {
                    proof {
                        lemma_placeds_view(ds@);
                    }
                    if *e == Enclosure::Braced {
                        Ok(PathDatom { path, form: Form::Struct(ds) })
                    } else if *e == Enclosure::Guillemets {
                        Ok(PathDatom { path, form: Form::Mapping(ds) })
                    } else {
                        Ok(PathDatom { path, form: Form::Vector(ds) })
                    }
                },
            }
        },
        Protoform::Qualified(..) => Err(
            datom_error_at(
                path,
                ErrorKind::Form {
                    expected: "unqualified Variant".to_owned(),
                    found: "qualified head".to_owned(),
                },
            ),
        ),
        Protoform::QualifiedHeaded(..) => Err(
            datom_error_at(
                path,
                ErrorKind::Form {
                    expected: "unqualified Variant".to_owned(),
                    found: "qualified head".to_owned(),
                },
            ),
        ),
        Protoform::Headed(h, s, b) => {
            if *s == Separator::Period {
                let body = match form_at(b, path.child(1), depth + 1) {
                    Err(x) => {
                        return Err(x);
                    },
                    Ok(body) => body,
                };
                let rejoined = match &body.form {
                    Form::Bare(t) => if is_integer_head(h) && is_digits_only(t) {
                        let mut cs = chars_of(h.as_str());
                        cs.push('.');
                        let ts = chars_of(t.as_str());
                        let mut k: usize = 0;
                        let ghost base = cs@;
                        while k < ts.len()
                            invariant
                                0 <= k <= ts.len(),
                                cs@ == base + ts@.subrange(0, k as int),
                            decreases ts.len() - k,
                        {
                            cs.push(ts[k]);
                            proof {
                                assert(base + ts@.subrange(0, k + 1) =~= (base + ts@.subrange(
                                    0,
                                    k as int,
                                )).push(ts@[k as int]));
                            }
                            k = k + 1;
                        }
                        proof {
                            assert(ts@.subrange(0, ts@.len() as int) =~= ts@);
                        }
                        Some(string_of(cs.as_slice()))
                    } else {
                        None
                    },
                    _ => None,
                };
                match rejoined {
                    Some(w) => Ok(PathDatom { path, form: Form::Bare(w) }),
                    None => Ok(PathDatom { path, form: Form::Variant(h.clone(), Box::new(body)) }),
                }
            } else {
                let text = textualize_form(f);
                Ok(PathDatom { path, form: Form::Bare(string_of(text.as_slice())) })
            }
        },
    }
}

/// The datoms protoforms form, each at its own child of the path.
fn form_children(cs: &Vec<Protoform>, path: &Vec<i64>, depth: i64) -> (r: Result<
    Vec<PathDatom>,
    Error,
>)
    ensures
        formed_from(forms_view(cs@), path@, depth as int, 0) == match r {
            Ok(ds) => Ok::<_, SpecError>(placeds_view(ds@)),
            Err(e) => Err(e@),
        },
    decreases cs,
{
    let ghost fv = forms_view(cs@);
    proof {
        lemma_forms_view_len(cs@);
    }
    let mut ds: Vec<PathDatom> = Vec::new();
    let mut k: usize = 0;
    proof {
        lemma_placeds_view(ds@);
        match formed_from(fv, path@, depth as int, 0) {
            Ok(rest) => {
                assert(placeds_view(ds@) + rest =~= rest);
            },
            Err(_) => {},
        }
    }
    while k < cs.len()
        invariant
            0 <= k <= cs.len(),
            fv == forms_view(cs@),
            fv.len() == cs.len(),
            forall|j: int| 0 <= j < cs.len() ==> #[trigger] fv[j] == cs@[j]@,
            formed_from(fv, path@, depth as int, 0) == match formed_from(
                fv,
                path@,
                depth as int,
                k as int,
            ) {
                Err(x) => Err(x),
                Ok(rest) => Ok::<_, SpecError>(placeds_view(ds@) + rest),
            },
        decreases cs.len() - k,
    {
        match form_at(&cs[k], path.child(k as i64), depth) {
            Err(x) => {
                return Err(x);
            },
            Ok(d) => {
                proof {
                    lemma_placeds_push(ds@, d);
                    match formed_from(fv, path@, depth as int, k + 1) {
                        Ok(rest) => {
                            assert(placeds_view(ds@) + (seq![d@] + rest) =~= placeds_view(ds@).push(
                                d@,
                            ) + rest);
                        },
                        Err(_) => {},
                    }
                }
                ds.push(d);
            },
        }
        k = k + 1;
    }
    proof {
        assert(placeds_view(ds@) + Seq::<SpecPathDatom>::empty() =~= placeds_view(ds@));
    }
    Ok(ds)
}

/// Placed nodes that each sit at their own child of a path, from the `k`-th on.
proof fn lemma_all_sit(cs: Seq<SpecPathDatom>, at: Seq<i64>, k: int)
    requires
        forall|j: int| 0 <= j < cs.len() ==> sits_at(#[trigger] cs[j], at.push(j as i64)),
    ensures
        all_sit_from(cs, at, k),
    decreases cs.len() - k,
{
    if 0 <= k < cs.len() {
        lemma_all_sit(cs, at, k + 1);
    }
}

/// Every node that forming gives carries the path it sits at: the root the
/// path it was formed at, a variant's body that path's child one, and the
/// `i`-th child of a struct, vector or map its child `i`.
pub proof fn lemma_formed_sits(f: SpecForm, path: Seq<i64>, depth: int)
    ensures
        formed(f, path, depth) matches Ok(d) ==> sits_at(d, path),
    decreases f, 0int,
{
    if depth < MAXIMUM_FORMING_DEPTH {
        match f {
            SpecForm::Enclosed(e, cs) => {
                if e != Enclosure::Angled {
                    lemma_formed_from_sits(cs, path, depth + 1, 0);
                    if let Ok(ds) = formed_from(cs, path, depth + 1, 0) {
                        lemma_all_sit(ds, path, 0);
                    }
                }
            },
            SpecForm::Headed(h, s, b) => {
                if s == Separator::Period {
                    lemma_formed_sits(*b, path.push(1), depth + 1);
                }
            },
            _ => {},
        }
    }
}

/// The nodes that forming children gives from the `k`-th on each sit at
/// their own child of the path.
proof fn lemma_formed_from_sits(cs: Seq<SpecForm>, path: Seq<i64>, depth: int, k: int)
    requires
        0 <= k <= cs.len(),
    ensures
        formed_from(cs, path, depth, k) matches Ok(ds) ==> ds.len() == cs.len() - k && forall|j: int|
            0 <= j < ds.len() ==> sits_at(#[trigger] ds[j], path.push((k + j) as i64)),
    decreases cs, cs.len() - k,
{
    if k < cs.len() {
        lemma_formed_sits(cs[k], path.push(k as i64), depth);
        lemma_formed_from_sits(cs, path, depth, k + 1);
        if let Ok(ds) = formed_from(cs, path, depth, k) {
            let d = formed(cs[k], path.push(k as i64), depth)->Ok_0;
            let rest = formed_from(cs, path, depth, k + 1)->Ok_0;
            assert(ds == seq![d] + rest);
            assert forall|j: int| 0 <= j < ds.len() implies sits_at(#[trigger] ds[j], path.push((k + j) as i64)) by {
                if j > 0 {
                    assert(ds[j] == rest[j - 1]);
                    assert(k + 1 + (j - 1) == k + j);
                }
            }
        }
    }
}

/// A head that reads as a 64-bit integer (no sign, `-` or `+`, then decimal
/// digits whose value fits, leading zeros and the lone `0` included) over a
/// run of digits forms one bare decimal at the path: `0.5` is the bare `0.5`.
pub proof fn lemma_integer_head_rejoins(
    sign: Seq<char>,
    d: Seq<char>,
    t: Seq<char>,
    path: Seq<i64>,
    depth: int,
)
    requires
        sign == Seq::<char>::empty() || sign == seq!['-'] || sign == seq!['+'],
        d.len() > 0,
        forall|i: int| 0 <= i < d.len() ==> '0' <= #[trigger] d[i] <= '9',
        digits_value(d) <= if sign == seq!['-'] {
            0x8000_0000_0000_0000int
        } else {
            0x7fff_ffff_ffff_ffffint
        },
        t.len() > 0,
        forall|i: int| 0 <= i < t.len() ==> '0' <= #[trigger] t[i] <= '9',
        0 <= depth,
        depth + 1 < MAXIMUM_FORMING_DEPTH,
    ensures
        formed(
            SpecForm::Headed(sign + d, Separator::Period, Box::new(SpecForm::Bare(t))),
            path,
            depth,
        ) == Ok::<SpecPathDatom, SpecError>(
            SpecPathDatom { path, form: SpecPathForm::Bare(sign + d + seq!['.'] + t) },
        ),
{
    let h = sign + d;
    if sign.len() == 0 {
        assert(h =~= d);
        assert(!(h[0] == '+' || h[0] == '-')) by {
            assert('0' <= d[0] <= '9');
        }
    } else {
        assert(h.drop_first() =~= d);
        assert(h[0] == sign[0]);
    }
    assert(all_digits(d));
    assert(integer_head(h));
    assert(digits_only(t));
    assert(h.push('.') + t =~= sign + d + seq!['.'] + t);
    let body = at_path(path.push(1), SpecPathForm::Bare(t));
    assert(formed(SpecForm::Bare(t), path.push(1), depth + 1) == Ok::<SpecPathDatom, SpecError>(body));
    assert(formed(
        SpecForm::Headed(h, Separator::Period, Box::new(SpecForm::Bare(t))),
        path,
        depth,
    ) == Ok::<SpecPathDatom, SpecError>(at_path(path, SpecPathForm::Bare(h.push('.') + t))));
}

/// The word of every 64-bit integer, `0` included, heading a run of digits
/// forms one bare decimal at the path.
pub proof fn lemma_integer_word_head_rejoins(v: i64, t: Seq<char>, path: Seq<i64>, depth: int)
    requires
        t.len() > 0,
        forall|i: int| 0 <= i < t.len() ==> '0' <= #[trigger] t[i] <= '9',
        0 <= depth,
        depth + 1 < MAXIMUM_FORMING_DEPTH,
    ensures
        formed(
            SpecForm::Headed(integer_word(v as int), Separator::Period, Box::new(SpecForm::Bare(t))),
            path,
            depth,
        ) == Ok::<SpecPathDatom, SpecError>(
            SpecPathDatom {
                path,
                form: SpecPathForm::Bare(integer_word(v as int) + seq!['.'] + t),
            },
        ),
{
    if v < 0 {
        let n = (-(v as int)) as nat;
        crate::words::lemma_natural_word(n);
        let d = natural_word(n);
        assert(integer_word(v as int) == seq!['-'] + d);
        lemma_integer_head_rejoins(seq!['-'], d, t, path, depth);
    } else {
        let n = v as nat;
        crate::words::lemma_natural_word(n);
        let d = natural_word(n);
        assert(integer_word(v as int) == Seq::<char>::empty() + d) by {
            assert(Seq::<char>::empty() + d =~= d);
        }
        lemma_integer_head_rejoins(Seq::<char>::empty(), d, t, path, depth);
    }
}

/// A dotted pair that is not an integer over digits stays a variant: when
/// the head does not end in a digit, or the body does not, forming `h.t`
/// gives the variant `h` whose body, the bare `t`, sits at the path's child one.
pub proof fn lemma_word_head_stays_variant(h: Seq<char>, t: Seq<char>, path: Seq<i64>, depth: int)
    requires
        h.len() > 0,
        t.len() > 0,
        !('0' <= h.last() <= '9') || !('0' <= t.last() <= '9'),
        0 <= depth,
        depth + 1 < MAXIMUM_FORMING_DEPTH,
    ensures
        formed(SpecForm::Headed(h, Separator::Period, Box::new(SpecForm::Bare(t))), path, depth)
            == Ok::<SpecPathDatom, SpecError>(
            SpecPathDatom {
                path,
                form: SpecPathForm::Variant(
                    h,
                    Box::new(SpecPathDatom { path: path.push(1), form: SpecPathForm::Bare(t) }),
                ),
            },
        ),
{
    let body = at_path(path.push(1), SpecPathForm::Bare(t));
    assert(formed(SpecForm::Bare(t), path.push(1), depth + 1) == Ok::<SpecPathDatom, SpecError>(body));
    if !('0' <= h.last() <= '9') {
        assert(!integer_head(h)) by {
            let signed = h.len() > 0 && (h[0] == '+' || h[0] == '-');
            let digits = if signed { h.drop_first() } else { h };
            if all_digits(digits) {
                assert(digits[digits.len() - 1] == h.last());
            }
        }
    } else {
        assert(!digits_only(t)) by {
            assert(!is_digit(t[t.len() - 1]));
        }
    }
}

/// Forming children from the `k`-th on gives, in order, what each child
/// forms at its own child of the path.
proof fn lemma_formed_from_each(cs: Seq<SpecForm>, path: Seq<i64>, depth: int, k: int)
    requires
        0 <= k <= cs.len(),
    ensures
        formed_from(cs, path, depth, k) matches Ok(ds) ==> ds.len() == cs.len() - k && forall|j: int|
            0 <= j < ds.len() ==> formed(cs[k + j], path.push((k + j) as i64), depth) == Ok::<
                SpecPathDatom,
                SpecError,
            >(#[trigger] ds[j]),
    decreases cs.len() - k,
{
    if k < cs.len() {
        lemma_formed_from_each(cs, path, depth, k + 1);
        if let Ok(ds) = formed_from(cs, path, depth, k) {
            let rest = formed_from(cs, path, depth, k + 1)->Ok_0;
            assert forall|j: int| 0 <= j < ds.len() implies formed(
                cs[k + j],
                path.push((k + j) as i64),
                depth,
            ) == Ok::<SpecPathDatom, SpecError>(#[trigger] ds[j]) by {
                if j > 0 {
                    assert(ds[j] == rest[j - 1]);
                    assert(k + 1 + (j - 1) == k + j);
                }
            }
        }
    }
}

/// Forming braces, brackets or guillemets gives a struct, a vector or a map
/// with one child for each, in order, each what its child forms one level
/// deeper at the path's child `i`.
pub proof fn lemma_formed_enclosure_children(e: Enclosure, cs: Seq<SpecForm>, path: Seq<i64>, depth: int)
    requires
        0 <= depth < MAXIMUM_FORMING_DEPTH,
        e != Enclosure::Angled,
        formed(SpecForm::Enclosed(e, cs), path, depth) is Ok,
    ensures
        ({
            let d = formed(SpecForm::Enclosed(e, cs), path, depth)->Ok_0;
            let ds = match d.form {
                SpecPathForm::Struct(ds) => ds,
                SpecPathForm::Vector(ds) => ds,
                SpecPathForm::Mapping(ds) => ds,
                _ => Seq::empty(),
            };
            &&& d.path == path
            &&& (e == Enclosure::Braced <==> d.form is Struct)
            &&& (e == Enclosure::Bracketed <==> d.form is Vector)
            &&& (e == Enclosure::Guillemets <==> d.form is Mapping)
            &&& ds.len() == cs.len()
            &&& forall|i: int| 0 <= i < cs.len() ==> formed(cs[i], path.push(i as i64), depth + 1) == Ok::<
                SpecPathDatom,
                SpecError,
            >(#[trigger] ds[i])
        }),
{
    lemma_formed_from_each(cs, path, depth + 1, 0);
    let ds = formed_from(cs, path, depth + 1, 0)->Ok_0;
    assert forall|i: int| 0 <= i < cs.len() implies formed(cs[i], path.push(i as i64), depth + 1) == Ok::<
        SpecPathDatom,
        SpecError,
    >(#[trigger] ds[i]) by {
        assert(0 + i == i);
    }
}

/// The datom a protoform forms, rooted at a path.
pub fn form(root: &Protoform, path: Vec<i64>) -> (r: Result<PathDatom, Error>)
    ensures
        formed(root@, path@, 0) == match r {
            Ok(d) => Ok::<_, SpecError>(d@),
            Err(e) => Err(e@),
        },
{
    form_at(root, path, 0)
}

// ----- the budget -----

/// A caller's allowance for composition: units left to spend, and how deep
/// composition has descended and may descend.
#[derive(Clone, Copy, Debug, PartialEq, Eq, Structural)]
pub struct Budget {
    /// The units left; one is spent for each datom composed.
    pub remaining: i64,
    /// How deep composition has descended.
    pub depth: i64,
    /// How deep composition may descend.
    pub maximum_depth: i64,
}

/// The budget with one unit spent.
pub open spec fn spent(b: Budget) -> Budget {
    Budget { remaining: (b.remaining - 1) as i64, ..b }
}

/// An error of the composition layer at a path.
fn composition_error_at(path: Vec<i64>, kind: ErrorKind) -> (e: Error)
    ensures
        e@ == composition_error(path@, kind@),
{
    Error { layer: ErrorLayer::Composition, path, kind }
}

impl Budget {
    /// Spends one unit for the datom at a path: refused, spending nothing,
    /// when none is left.
    pub fn spend(&mut self, path: &Vec<i64>) -> (r: Result<(), Error>)
        ensures
            old(self).remaining <= 0 ==> r == Err::<(), Error>(r->Err_0) && r->Err_0@
                == composition_error(path@, SpecErrorKind::Budget) && *final(self) == *old(self),
            old(self).remaining > 0 ==> r is Ok && *final(self) == spent(*old(self)),
    {
        if self.remaining <= 0 {
            return Err(composition_error_at(path.clone(), ErrorKind::Budget));
        }
        self.remaining = self.remaining - 1;
        Ok(())
    }
}

// ----- the bare-string rule -----

/// Whitespace as Unicode's White_Space property lists it.
pub open spec fn is_white_space(c: char) -> bool {
    ('\u{9}' <= c && c <= '\u{d}') || c == ' ' || c == '\u{85}' || c == '\u{a0}' || c == '\u{1680}'
        || ('\u{2000}' <= c && c <= '\u{200a}') || c == '\u{2028}' || c == '\u{2029}' || c
        == '\u{202f}' || c == '\u{205f}' || c == '\u{3000}'
}

/// The glyphs that a bare string cannot hold.
pub open spec fn breaks_bare(c: char) -> bool {
    c == '{' || c == '}' || c == '[' || c == ']' || c == '<' || c == '>' || c == '«' || c == '»'
        || c == '(' || c == ')' || c == ';'
}

/// A string that can stand bare: not empty, with no whitespace and none of
/// the glyphs that open, close or comment.
pub open spec fn bare_safe(t: Seq<char>) -> bool {
    t.len() > 0 && forall|i: int| 0 <= i < t.len() ==> !is_white_space(#[trigger] t[i]) && !breaks_bare(t[i])
}

/// Whether a string can stand bare.
fn is_bare_safe(t: &String) -> (r: bool)
    ensures
        r == bare_safe(t@),
{
    let cs = chars_of(t.as_str());
    if cs.len() == 0 {
        return false;
    }
    let mut k: usize = 0;
    while k < cs.len()
        invariant
            0 <= k <= cs.len(),
            cs@ == t@,
            forall|j: int| 0 <= j < k ==> !is_white_space(#[trigger] cs@[j]) && !breaks_bare(cs@[j]),
        decreases cs.len() - k,
    {
        let c = cs[k];
        let white = ('\u{9}' <= c && c <= '\u{d}') || c == ' ' || c == '\u{85}' || c == '\u{a0}'
            || c == '\u{1680}' || ('\u{2000}' <= c && c <= '\u{200a}') || c == '\u{2028}' || c
            == '\u{2029}' || c == '\u{202f}' || c == '\u{205f}' || c == '\u{3000}';
        let breaks = c == '{' || c == '}' || c == '[' || c == ']' || c == '<' || c == '>' || c
            == '«' || c == '»' || c == '(' || c == ')' || c == ';';
        if white || breaks {
            return false;
        }
        k = k + 1;
    }
    true
}

/// The name of a form.
pub open spec fn form_name(f: SpecPathForm) -> Seq<char> {
    match f {
        SpecPathForm::Struct(_) => "Struct"@,
        SpecPathForm::Vector(_) => "Vector"@,
        SpecPathForm::Mapping(_) => "Mapping"@,
        SpecPathForm::Variant(..) => "Variant"@,
        SpecPathForm::Bare(_) => "Bare"@,
        SpecPathForm::String(_) => "String"@,
        SpecPathForm::Meaning(_) => "Meaning"@,
    }
}

/// The name of a form.
fn form_name_of(d: &PathDatom) -> (n: String)
    ensures
        n@ == form_name(d@.form),
{
    match &d.form {
        Form::Struct(_) => "Struct".to_owned(),
        Form::Vector(_) => "Vector".to_owned(),
        Form::Mapping(_) => "Mapping".to_owned(),
        Form::Variant(..) => "Variant".to_owned(),
        Form::Bare(_) => "Bare".to_owned(),
        Form::String(_) => "String".to_owned(),
        Form::Meaning(_) => "Meaning".to_owned(),
    }
}

/// Composing a string from a datom, after `acc` has been rejoined from the
/// heads above it: a scalar text at the start, or a chain of bare heads
/// ending in a bare word, rejoined with the dot. One unit is spent for each
/// link, and each head descends one level.
pub open spec fn bare_string(d: SpecPathDatom, b: Budget, depth: int, acc: Seq<char>) -> (
    Result<Seq<char>, SpecError>,
    Budget,
)
    decreases d,
{
    if b.remaining <= 0 {
        (Err(composition_error(d.path, SpecErrorKind::Budget)), b)
    } else {
        let b1 = spent(b);
        match d.form {
            SpecPathForm::Bare(t) => if acc.len() == 0 {
                (Ok(t), b1)
            } else if bare_safe(t) {
                (Ok(acc + t), b1)
            } else {
                (Err(composition_error(d.path, SpecErrorKind::Form("bare String"@, "Bare"@))), b1)
            },
            SpecPathForm::String(t) => if acc.len() == 0 {
                (Ok(t), b1)
            } else {
                (Err(composition_error(d.path, SpecErrorKind::Form("String"@, "String"@))), b1)
            },
            SpecPathForm::Meaning(t) => if acc.len() == 0 {
                (Ok(t), b1)
            } else {
                (Err(composition_error(d.path, SpecErrorKind::Form("String"@, "Meaning"@))), b1)
            },
            SpecPathForm::Variant(h, body) => if depth >= b.maximum_depth {
                (Err(composition_error(body.path, SpecErrorKind::Budget)), b1)
            } else if !bare_safe(h) {
                (Err(composition_error(d.path, SpecErrorKind::Form("String"@, "Variant"@))), b1)
            } else {
                bare_string(*body, b1, depth + 1, acc + h.push('.'))
            },
            _ => (Err(composition_error(d.path, SpecErrorKind::Form("String"@, form_name(d.form)))), b1),
        }
    }
}

/// Appends the glyphs of a string.
fn push_glyphs(out: &mut Vec<char>, s: &String)
    ensures
        final(out)@ == old(out)@ + s@,
{
    let cs = chars_of(s.as_str());
    let ghost base = out@;
    let mut k: usize = 0;
    while k < cs.len()
        invariant
            0 <= k <= cs.len(),
            out@ == base + cs@.subrange(0, k as int),
        decreases cs.len() - k,
    {
        out.push(cs[k]);
        proof {
            assert(base + cs@.subrange(0, k + 1) =~= (base + cs@.subrange(0, k as int)).push(
                cs@[k as int],
            ));
        }
        k = k + 1;
    }
    proof {
        assert(cs@.subrange(0, cs@.len() as int) =~= cs@);
    }
}

/// A string composed from a datom: a scalar text, or a chain of bare heads
/// rejoined with the dot, spending one unit for each link.
pub fn compose_bare_string(d: &PathDatom, budget: &mut Budget) -> (r: Result<String, Error>)
    ensures
        bare_string(d@, *old(budget), old(budget).depth as int, Seq::empty()) == (
            match r {
                Ok(s) => Ok::<_, SpecError>(s@),
                Err(e) => Err(e@),
            },
            *final(budget),
        ),
{
    let ghost start = *budget;
    let mut current = d;
    let mut depth: i64 = budget.depth;
    let mut value: Vec<char> = Vec::new();
    loop
        invariant
            bare_string(d@, start, start.depth as int, Seq::empty()) == bare_string(
                current@,
                *budget,
                depth as int,
                value@,
            ),
            start == *old(budget),
            budget.depth == start.depth,
            budget.maximum_depth == start.maximum_depth,
            depth >= start.depth,
        decreases budget.remaining,
    {
        if budget.spend(&current.path).is_err() {
            return Err(composition_error_at(current.path.clone(), ErrorKind::Budget));
        }
        match &current.form {
            Form::Bare(t) => {
                if value.len() == 0 {
                    return Ok(t.clone());
                }
                if !is_bare_safe(t) {
                    return Err(
                        composition_error_at(
                            current.path.clone(),
                            ErrorKind::Form { expected: "bare String".to_owned(), found: "Bare".to_owned() },
                        ),
                    );
                }
                push_glyphs(&mut value, t);
                return Ok(string_of(value.as_slice()));
            },
            Form::String(t) => {
                if value.len() == 0 {
                    return Ok(t.clone());
                }
                return Err(
                    composition_error_at(
                        current.path.clone(),
                        ErrorKind::Form { expected: "String".to_owned(), found: "String".to_owned() },
                    ),
                );
            },
            Form::Meaning(t) => {
                if value.len() == 0 {
                    return Ok(t.clone());
                }
                return Err(
                    composition_error_at(
                        current.path.clone(),
                        ErrorKind::Form { expected: "String".to_owned(), found: "Meaning".to_owned() },
                    ),
                );
            },
            Form::Variant(h, body) => {
                proof {
                    assert(current@.form == SpecPathForm::Variant(h@, Box::new((**body)@)));
                    assert((**body)@.path == body.path@);
                }
                if depth >= budget.maximum_depth {
                    return Err(composition_error_at(body.path.clone(), ErrorKind::Budget));
                }
                if !is_bare_safe(h) {
                    return Err(
                        composition_error_at(
                            current.path.clone(),
                            ErrorKind::Form { expected: "String".to_owned(), found: "Variant".to_owned() },
                        ),
                    );
                }
                depth = depth + 1;
                push_glyphs(&mut value, h);
                value.push('.');
                current = &**body;
            },
            _ => {
                let name = form_name_of(current);
                return Err(
                    composition_error_at(
                        current.path.clone(),
                        ErrorKind::Form { expected: "String".to_owned(), found: name },
                    ),
                );
            },
        }
    }
}

// ----- composing -----

/// The kind a value bears to be composed from a datom carrying its path,
/// under a caller's budget; composing spends units and leaves the depth as
/// it found it.
pub trait Compositional: Sized {
    /// The value, as mathematics sees it.
    type Model;

    /// The model of a value.
    spec fn model(&self) -> Self::Model;

    /// What composing a datom under a budget gives, and the budget it leaves.
    spec fn composed(d: SpecPathDatom, b: Budget) -> (Result<Self::Model, SpecError>, Budget);

    /// The value composed from a datom.
    fn compose(datom: &PathDatom, budget: &mut Budget) -> (r: Result<Self, Error>)
        ensures
            Self::composed(datom@, *old(budget)) == (
                match r {
                    Ok(v) => Ok::<Self::Model, SpecError>(v.model()),
                    Err(e) => Err(e@),
                },
                *final(budget),
            ),
            final(budget).depth == old(budget).depth,
            final(budget).maximum_depth == old(budget).maximum_depth,
    ;
}

/// Composing one level deeper: refused at the datom's path when the depth
/// allowed is reached.
pub open spec fn composed_within<T: Compositional>(d: SpecPathDatom, b: Budget) -> (
    Result<T::Model, SpecError>,
    Budget,
) {
    if b.depth >= b.maximum_depth {
        (Err(composition_error(d.path, SpecErrorKind::Budget)), b)
    } else {
        let (r, b2) = T::composed(d, Budget { depth: (b.depth + 1) as i64, ..b });
        (r, Budget { depth: (b2.depth - 1) as i64, ..b2 })
    }
}

/// A value composed from a datom one level deeper.
pub fn compose_within<T: Compositional>(d: &PathDatom, budget: &mut Budget) -> (r: Result<T, Error>)
    ensures
        composed_within::<T>(d@, *old(budget)) == (
            match r {
                Ok(v) => Ok::<T::Model, SpecError>(v.model()),
                Err(e) => Err(e@),
            },
            *final(budget),
        ),
        final(budget).depth == old(budget).depth,
        final(budget).maximum_depth == old(budget).maximum_depth,
{
    if budget.depth >= budget.maximum_depth {
        return Err(composition_error_at(d.path.clone(), ErrorKind::Budget));
    }
    budget.depth = budget.depth + 1;
    let r = T::compose(d, budget);
    budget.depth = budget.depth - 1;
    r
}

impl Compositional for String {
    type Model = Seq<char>;

    open spec fn model(&self) -> Seq<char> {
        self@
    }

    open spec fn composed(d: SpecPathDatom, b: Budget) -> (Result<Seq<char>, SpecError>, Budget) {
        bare_string(d, b, b.depth as int, Seq::empty())
    }

    fn compose(datom: &PathDatom, budget: &mut Budget) -> (r: Result<String, Error>) {
        let r = compose_bare_string(datom, budget);
        proof {
            lemma_bare_string_keeps_depth(datom@, *old(budget), old(budget).depth as int, Seq::empty());
        }
        r
    }
}

/// Composing a string spends units only.
proof fn lemma_bare_string_keeps_depth(d: SpecPathDatom, b: Budget, depth: int, acc: Seq<char>)
    ensures
        bare_string(d, b, depth, acc).1.depth == b.depth,
        bare_string(d, b, depth, acc).1.maximum_depth == b.maximum_depth,
    decreases d,
{
    if b.remaining > 0 {
        if let SpecPathForm::Variant(h, body) = d.form {
            if depth < b.maximum_depth && bare_safe(h) {
                lemma_bare_string_keeps_depth(*body, spent(b), depth + 1, acc + h.push('.'));
            }
        }
    }
}

/// Composing a structural problem: a bare `Depth`, or a variant whose head
/// names the problem and whose body, one level deeper, is the word of an
/// enclosure or a boundary.
pub open spec fn structural_problem_composed(d: SpecPathDatom, b: Budget) -> (
    Result<StructuralProblem, SpecError>,
    Budget,
) {
    if b.remaining <= 0 {
        (Err(composition_error(d.path, SpecErrorKind::Budget)), b)
    } else {
        let b1 = spent(b);
        match d.form {
            SpecPathForm::Bare(name) => (
                if name == "Depth"@ {
                    Ok(StructuralProblem::Depth)
                } else {
                    Err(composition_error(d.path, SpecErrorKind::Variant("StructuralProblem"@, name)))
                },
                b1,
            ),
            SpecPathForm::Variant(head, body) => {
                let (rw, b2) = composed_within::<String>(*body, b1);
                (
                    match rw {
                        Err(e) => Err(e),
                        Ok(word) => if head == "Unclosed"@ || head == "Unopened"@ {
                            match <Enclosure as Worded>::of_word(word) {
                                Some(e) => Ok(
                                    if head == "Unclosed"@ {
                                        StructuralProblem::Unclosed(e)
                                    } else {
                                        StructuralProblem::Unopened(e)
                                    },
                                ),
                                None => Err(
                                    composition_error(body.path, SpecErrorKind::Value("Enclosure"@, word)),
                                ),
                            }
                        } else if head == "Unterminated"@ || head == "Stray"@ {
                            match <Boundary as Worded>::of_word(word) {
                                Some(x) => Ok(
                                    if head == "Unterminated"@ {
                                        StructuralProblem::Unterminated(x)
                                    } else {
                                        StructuralProblem::Stray(x)
                                    },
                                ),
                                None => Err(
                                    composition_error(body.path, SpecErrorKind::Value("Boundary"@, word)),
                                ),
                            }
                        } else {
                            Err(composition_error(d.path, SpecErrorKind::Variant("StructuralProblem"@, head)))
                        },
                    },
                    b2,
                )
            },
            _ => (
                Err(composition_error(d.path, SpecErrorKind::Form("StructuralProblem"@, form_name(d.form)))),
                b1,
            ),
        }
    }
}

/// Whether a string is the given name.
fn named(s: &String, name: &str) -> (r: bool)
    ensures
        r == (s@ == name@),
{
    crate::kinds::is_named(s, name)
}

impl Compositional for StructuralProblem {
    type Model = StructuralProblem;

    open spec fn model(&self) -> StructuralProblem {
        *self
    }

    open spec fn composed(d: SpecPathDatom, b: Budget) -> (Result<StructuralProblem, SpecError>, Budget) {
        structural_problem_composed(d, b)
    }

    fn compose(datom: &PathDatom, budget: &mut Budget) -> (r: Result<StructuralProblem, Error>) {
        if budget.spend(&datom.path).is_err() {
            return Err(composition_error_at(datom.path.clone(), ErrorKind::Budget));
        }
        match &datom.form {
            Form::Bare(name) => {
                if named(name, "Depth") {
                    Ok(StructuralProblem::Depth)
                } else {
                    Err(
                        composition_error_at(
                            datom.path.clone(),
                            ErrorKind::Variant { expected: "StructuralProblem".to_owned(), found: name.clone() },
                        ),
                    )
                }
            },
            Form::Variant(head, body) => {
                let word = match compose_within::<String>(body, budget) {
                    Err(e) => {
                        return Err(e);
                    },
                    Ok(word) => word,
                };
                if named(head, "Unclosed") || named(head, "Unopened") {
                    match Enclosure::from_word(&word) {
                        Some(e) => if named(head, "Unclosed") {
                            Ok(StructuralProblem::Unclosed(e))
                        } else {
                            Ok(StructuralProblem::Unopened(e))
                        },
                        None => Err(
                            composition_error_at(
                                body.path.clone(),
                                ErrorKind::Value { expected: "Enclosure".to_owned(), value: word },
                            ),
                        ),
                    }
                } else if named(head, "Unterminated") || named(head, "Stray") {
                    match Boundary::from_word(&word) {
                        Some(x) => if named(head, "Unterminated") {
                            Ok(StructuralProblem::Unterminated(x))
                        } else {
                            Ok(StructuralProblem::Stray(x))
                        },
                        None => Err(
                            composition_error_at(
                                body.path.clone(),
                                ErrorKind::Value { expected: "Boundary".to_owned(), value: word },
                            ),
                        ),
                    }
                } else {
                    Err(
                        composition_error_at(
                            datom.path.clone(),
                            ErrorKind::Variant { expected: "StructuralProblem".to_owned(), found: head.clone() },
                        ),
                    )
                }
            },
            _ => {
                let name = form_name_of(datom);
                Err(
                    composition_error_at(
                        datom.path.clone(),
                        ErrorKind::Form { expected: "StructuralProblem".to_owned(), found: name },
                    ),
                )
            },
        }
    }
}

// ----- datomizing errors -----

/// The datom of a string at a path: bare when it can stand bare, a string otherwise.
pub open spec fn string_datom(s: Seq<char>, at: Seq<i64>) -> SpecPathDatom {
    at_path(
        at,
        if bare_safe(s) {
            SpecPathForm::Bare(s)
        } else {
            SpecPathForm::String(s)
        },
    )
}

/// A string's datom, bare when the string can stand bare and quoted
/// otherwise, composes back as the string, spending one unit.
pub proof fn lemma_string_datom_composes_back(s: Seq<char>, at: Seq<i64>, b: Budget)
    requires
        b.remaining > 0,
    ensures
        <String as Compositional>::composed(string_datom(s, at), b) == (
            Ok::<Seq<char>, SpecError>(s),
            spent(b),
        ),
{
}

/// At a string's position a bare word, quoted text and a parenthesized
/// meaning are each taken whole as the string, spending one unit.
pub proof fn lemma_scalar_forms_compose_as_string(t: Seq<char>, p: Seq<i64>, b: Budget)
    requires
        b.remaining > 0,
    ensures
        <String as Compositional>::composed(SpecPathDatom { path: p, form: SpecPathForm::Meaning(t) }, b)
            == (
            Ok::<Seq<char>, SpecError>(t),
            Budget { remaining: (b.remaining - 1) as i64, depth: b.depth, maximum_depth: b.maximum_depth },
        ),
        <String as Compositional>::composed(SpecPathDatom { path: p, form: SpecPathForm::String(t) }, b)
            == (
            Ok::<Seq<char>, SpecError>(t),
            Budget { remaining: (b.remaining - 1) as i64, depth: b.depth, maximum_depth: b.maximum_depth },
        ),
        <String as Compositional>::composed(SpecPathDatom { path: p, form: SpecPathForm::Bare(t) }, b)
            == (
            Ok::<Seq<char>, SpecError>(t),
            Budget { remaining: (b.remaining - 1) as i64, depth: b.depth, maximum_depth: b.maximum_depth },
        ),
{
}

/// The datom of a string at a path.
fn string_datom_of(s: &String, at: Vec<i64>) -> (d: PathDatom)
    ensures
        d@ == string_datom(s@, at@),
{
    if is_bare_safe(s) {
        PathDatom { path: at, form: Form::Bare(s.clone()) }
    } else {
        PathDatom { path: at, form: Form::String(s.clone()) }
    }
}

/// The datom of an integer at a path: its bare word.
pub open spec fn integer_datom(v: i64, at: Seq<i64>) -> SpecPathDatom {
    at_path(at, SpecPathForm::Bare(integer_word(v as int)))
}

/// A datom under a head at a path, its body at the path's child one.
pub open spec fn headed_at(at: Seq<i64>, name: Seq<char>, body: SpecPathDatom) -> SpecPathDatom {
    at_path(at, SpecPathForm::Variant(name, Box::new(body)))
}

/// A pair of datoms as a struct at the path's child one.
pub open spec fn pair_at(at: Seq<i64>, a: SpecPathDatom, b: SpecPathDatom) -> SpecPathDatom {
    at_path(at.push(1), SpecPathForm::Struct(seq![a, b]))
}

/// The datom of an error kind at a path: `Budget` bare, the others under
/// their names, their two fields a struct at the path's child one.
pub open spec fn error_kind_datom(k: SpecErrorKind, at: Seq<i64>) -> SpecPathDatom {
    let inner = at.push(1);
    match k {
        SpecErrorKind::Budget => at_path(at, SpecPathForm::Bare("Budget"@)),
        SpecErrorKind::Unstructured(f) => headed_at(
            at,
            "Structural"@,
            placed(<StructuralFault as Datomic>::concept(f), inner),
        ),
        SpecErrorKind::Form(e, f) => headed_at(
            at,
            "Form"@,
            pair_at(at, string_datom(e, inner.push(0)), string_datom(f, inner.push(1))),
        ),
        SpecErrorKind::Arity(e, f) => headed_at(
            at,
            "Arity"@,
            pair_at(at, integer_datom(e, inner.push(0)), integer_datom(f, inner.push(1))),
        ),
        SpecErrorKind::Value(e, v) => headed_at(
            at,
            "Value"@,
            pair_at(at, string_datom(e, inner.push(0)), string_datom(v, inner.push(1))),
        ),
        SpecErrorKind::Variant(e, f) => headed_at(
            at,
            "Variant"@,
            pair_at(at, string_datom(e, inner.push(0)), string_datom(f, inner.push(1))),
        ),
    }
}

/// Every node of an error kind's datom carries the path it sits at.
pub proof fn lemma_error_kind_datom_sits(k: SpecErrorKind, at: Seq<i64>)
    ensures
        sits_at(error_kind_datom(k, at), at),
{
    let inner = at.push(1);
    let d = error_kind_datom(k, at);
    match k {
        SpecErrorKind::Budget => {
            assert(d.path == at && d.form is Bare);
        },
        SpecErrorKind::Unstructured(f) => {
            lemma_placed_sits(<StructuralFault as Datomic>::concept(f), inner);
            if let SpecPathForm::Variant(_, body) = d.form {
                assert(sits_at(*body, inner));
            }
        },
        _ => {
            if let SpecPathForm::Variant(_, body) = d.form {
                if let SpecPathForm::Struct(cs) = body.form {
                    assert(cs.len() == 2);
                    assert(sits_at(cs[0], inner.push(0)));
                    assert(sits_at(cs[1], inner.push(1)));
                    assert(all_sit_from(cs, inner, 2));
                    assert(all_sit_from(cs, inner, 1));
                    assert(all_sit_from(cs, inner, 0));
                    assert(body.path == inner);
                    assert(sits_at(*body, inner));
                }
            }
        },
    }
}

/// A pair of datoms as a struct at a path.
fn pair_of(at: Vec<i64>, a: PathDatom, b: PathDatom) -> (d: PathDatom)
    ensures
        d@ == at_path(at@, SpecPathForm::Struct(seq![a@, b@])),
{
    let ghost (va, vb) = (a@, b@);
    let ds = vec![a, b];
    proof {
        lemma_placeds_view(ds@);
        assert(placeds_view(ds@) =~= seq![va, vb]);
    }
    PathDatom { path: at, form: Form::Struct(ds) }
}

/// The datom of an integer at a path.
fn integer_datom_of(v: i64, at: Vec<i64>) -> (d: PathDatom)
    ensures
        d@ == integer_datom(v, at@),
{
    let w = integer_to_word(v);
    PathDatom { path: at, form: Form::Bare(string_of(w.as_slice())) }
}

impl Datomizable for ErrorKind {
    type Output = PathDatom;

    fn datomize(&self, at: Vec<i64>) -> (d: PathDatom)
        ensures
            d@ == error_kind_datom(self@, at@),
    {
        let inner = at.child(1);
        match self {
            ErrorKind::Budget => PathDatom { path: at, form: Form::Bare("Budget".to_owned()) },
            ErrorKind::Unstructured(f) => {
                let body = f.datomize(inner);
                PathDatom { path: at, form: Form::Variant("Structural".to_owned(), Box::new(body)) }
            },
            ErrorKind::Form { expected, found } => {
                let body = pair_of(
                    inner.clone(),
                    string_datom_of(expected, inner.child(0)),
                    string_datom_of(found, inner.child(1)),
                );
                PathDatom { path: at, form: Form::Variant("Form".to_owned(), Box::new(body)) }
            },
            ErrorKind::Arity { expected, found } => {
                let body = pair_of(
                    inner.clone(),
                    integer_datom_of(*expected, inner.child(0)),
                    integer_datom_of(*found, inner.child(1)),
                );
                PathDatom { path: at, form: Form::Variant("Arity".to_owned(), Box::new(body)) }
            },
            ErrorKind::Value { expected, value } => {
                let body = pair_of(
                    inner.clone(),
                    string_datom_of(expected, inner.child(0)),
                    string_datom_of(value, inner.child(1)),
                );
                PathDatom { path: at, form: Form::Variant("Value".to_owned(), Box::new(body)) }
            },
            ErrorKind::Variant { expected, found } => {
                let body = pair_of(
                    inner.clone(),
                    string_datom_of(expected, inner.child(0)),
                    string_datom_of(found, inner.child(1)),
                );
                PathDatom { path: at, form: Form::Variant("Variant".to_owned(), Box::new(body)) }
            },
        }
    }
}

/// The datom of an error at a path: under the head `Error`, a struct at the
/// path's child one of its layer, its path and its kind.
pub open spec fn error_datom(e: SpecError, at: Seq<i64>) -> SpecPathDatom {
    let inner = at.push(1);
    headed_at(
        at,
        "Error"@,
        at_path(
            inner,
            SpecPathForm::Struct(
                seq![
                    placed(<ErrorLayer as Datomic>::concept(e.layer), inner.push(0)),
                    placed(<Vec<i64> as Datomic>::concept(e.path), inner.push(1)),
                    error_kind_datom(e.kind, inner.push(2)),
                ],
            ),
        ),
    )
}

/// Every node of an error's datom carries the path it sits at.
pub proof fn lemma_error_datom_sits(e: SpecError, at: Seq<i64>)
    ensures
        sits_at(error_datom(e, at), at),
{
    let inner = at.push(1);
    lemma_placed_sits(<ErrorLayer as Datomic>::concept(e.layer), inner.push(0));
    lemma_placed_sits(<Vec<i64> as Datomic>::concept(e.path), inner.push(1));
    lemma_error_kind_datom_sits(e.kind, inner.push(2));
    let d = error_datom(e, at);
    if let SpecPathForm::Variant(_, body) = d.form {
        if let SpecPathForm::Struct(cs) = body.form {
            assert(cs.len() == 3);
            assert(all_sit_from(cs, inner, 3));
            assert(all_sit_from(cs, inner, 2));
            assert(all_sit_from(cs, inner, 1));
            assert(all_sit_from(cs, inner, 0));
            assert(body.path == inner);
            assert(sits_at(*body, inner));
        }
    }
}

impl Datomizable for Error {
    type Output = PathDatom;

    fn datomize(&self, at: Vec<i64>) -> (d: PathDatom)
        ensures
            d@ == error_datom(self@, at@),
    {
        let inner = at.child(1);
        let layer = self.layer.datomize(inner.child(0));
        let path = self.path.datomize(inner.child(1));
        let kind = self.kind.datomize(inner.child(2));
        let ghost (a, b, c) = (layer@, path@, kind@);
        let ds = vec![layer, path, kind];
        proof {
            assert(crate::containers::models::<i64>(self.path@) =~= self.path@);
            assert(a == placed(<ErrorLayer as Datomic>::concept(self.layer), inner@.push(0)));
            assert(b == placed(<Vec<i64> as Datomic>::concept(self.path@), inner@.push(1)));
            assert(c == error_kind_datom(self.kind@, inner@.push(2)));
            lemma_placeds_view(ds@);
            assert(placeds_view(ds@) =~= seq![a, b, c]);
        }
        let body = PathDatom { path: inner, form: Form::Struct(ds) };
        let name = "Error".to_owned();
        proof {
            assert(body@ == at_path(inner@, SpecPathForm::Struct(seq![a, b, c])));
            assert(name@ == "Error"@);
        }
        let d = PathDatom { path: at, form: Form::Variant(name, Box::new(body)) };
        proof {
            assert(d@ == headed_at(at@, "Error"@, body@));
        }
        d
    }
}

// ----- scalars and containers -----

/// Composing an integer: a bare word that spells one, one unit spent.
pub open spec fn integer_composed(d: SpecPathDatom, b: Budget) -> (Result<i64, SpecError>, Budget) {
    if b.remaining <= 0 {
        (Err(composition_error(d.path, SpecErrorKind::Budget)), b)
    } else {
        (
            match d.form {
                SpecPathForm::Bare(w) => match integer_of_word(w) {
                    Some(v) => Ok(v),
                    None => Err(composition_error(d.path, SpecErrorKind::Value("Integer"@, w))),
                },
                _ => Err(composition_error(d.path, SpecErrorKind::Form("Bare"@, form_name(d.form)))),
            },
            spent(b),
        )
    }
}

impl Compositional for i64 {
    type Model = i64;

    open spec fn model(&self) -> i64 {
        *self
    }

    open spec fn composed(d: SpecPathDatom, b: Budget) -> (Result<i64, SpecError>, Budget) {
        integer_composed(d, b)
    }

    fn compose(datom: &PathDatom, budget: &mut Budget) -> (r: Result<i64, Error>) {
        if budget.spend(&datom.path).is_err() {
            return Err(composition_error_at(datom.path.clone(), ErrorKind::Budget));
        }
        match &datom.form {
            Form::Bare(w) => {
                let cs = chars_of(w.as_str());
                match integer_from_word(cs.as_slice()) {
                    Some(v) => Ok(v),
                    None => Err(
                        composition_error_at(
                            datom.path.clone(),
                            ErrorKind::Value { expected: "Integer".to_owned(), value: w.clone() },
                        ),
                    ),
                }
            },
            _ => {
                let name = form_name_of(datom);
                Err(
                    composition_error_at(
                        datom.path.clone(),
                        ErrorKind::Form { expected: "Bare".to_owned(), found: name },
                    ),
                )
            },
        }
    }
}

/// An integer's datom composes back as the integer, spending one unit.
pub proof fn lemma_integer_composes_back(v: i64, at: Seq<i64>, b: Budget)
    requires
        b.remaining > 0,
    ensures
        integer_composed(placed(<i64 as Datomic>::concept(v), at), b) == (Ok::<i64, SpecError>(v), spent(b)),
{
    crate::words::lemma_integer_word_reads_back(v);
}

/// Composing a boolean: the bare word `True` or `False`, one unit spent.
pub open spec fn boolean_composed(d: SpecPathDatom, b: Budget) -> (Result<bool, SpecError>, Budget) {
    if b.remaining <= 0 {
        (Err(composition_error(d.path, SpecErrorKind::Budget)), b)
    } else {
        (
            match d.form {
                SpecPathForm::Bare(w) => match boolean_of_word(w) {
                    Some(v) => Ok(v),
                    None => Err(composition_error(d.path, SpecErrorKind::Value("Boolean"@, w))),
                },
                _ => Err(composition_error(d.path, SpecErrorKind::Form("Bare"@, form_name(d.form)))),
            },
            spent(b),
        )
    }
}

impl Compositional for bool {
    type Model = bool;

    open spec fn model(&self) -> bool {
        *self
    }

    open spec fn composed(d: SpecPathDatom, b: Budget) -> (Result<bool, SpecError>, Budget) {
        boolean_composed(d, b)
    }

    fn compose(datom: &PathDatom, budget: &mut Budget) -> (r: Result<bool, Error>) {
        if budget.spend(&datom.path).is_err() {
            return Err(composition_error_at(datom.path.clone(), ErrorKind::Budget));
        }
        match &datom.form {
            Form::Bare(w) => {
                let cs = chars_of(w.as_str());
                match boolean_from_word(cs.as_slice()) {
                    Some(v) => Ok(v),
                    None => Err(
                        composition_error_at(
                            datom.path.clone(),
                            ErrorKind::Value { expected: "Boolean".to_owned(), value: w.clone() },
                        ),
                    ),
                }
            },
            _ => {
                let name = form_name_of(datom);
                Err(
                    composition_error_at(
                        datom.path.clone(),
                        ErrorKind::Form { expected: "Bare".to_owned(), found: name },
                    ),
                )
            },
        }
    }
}

/// A boolean's datom composes back as the boolean, spending one unit.
pub proof fn lemma_boolean_composes_back(v: bool, at: Seq<i64>, b: Budget)
    requires
        b.remaining > 0,
    ensures
        boolean_composed(placed(<bool as Datomic>::concept(v), at), b) == (Ok::<bool, SpecError>(v), spent(b)),
{
    crate::words::lemma_boolean_words(v, Seq::empty());
}

/// Composing an error layer: the bare word of one, one unit spent.
pub open spec fn error_layer_composed(d: SpecPathDatom, b: Budget) -> (Result<ErrorLayer, SpecError>, Budget) {
    if b.remaining <= 0 {
        (Err(composition_error(d.path, SpecErrorKind::Budget)), b)
    } else {
        (
            match d.form {
                SpecPathForm::Bare(w) => match <ErrorLayer as Worded>::of_word(w) {
                    Some(l) => Ok(l),
                    None => Err(composition_error(d.path, SpecErrorKind::Variant("ErrorLayer"@, w))),
                },
                _ => Err(composition_error(d.path, SpecErrorKind::Form("Bare"@, form_name(d.form)))),
            },
            spent(b),
        )
    }
}

impl Compositional for ErrorLayer {
    type Model = ErrorLayer;

    open spec fn model(&self) -> ErrorLayer {
        *self
    }

    open spec fn composed(d: SpecPathDatom, b: Budget) -> (Result<ErrorLayer, SpecError>, Budget) {
        error_layer_composed(d, b)
    }

    fn compose(datom: &PathDatom, budget: &mut Budget) -> (r: Result<ErrorLayer, Error>) {
        if budget.spend(&datom.path).is_err() {
            return Err(composition_error_at(datom.path.clone(), ErrorKind::Budget));
        }
        match &datom.form {
            Form::Bare(w) => match <ErrorLayer as Worded>::from_word(w) {
                Some(l) => Ok(l),
                None => Err(
                    composition_error_at(
                        datom.path.clone(),
                        ErrorKind::Variant { expected: "ErrorLayer".to_owned(), found: w.clone() },
                    ),
                ),
            },
            _ => {
                let name = form_name_of(datom);
                Err(
                    composition_error_at(
                        datom.path.clone(),
                        ErrorKind::Form { expected: "Bare".to_owned(), found: name },
                    ),
                )
            },
        }
    }
}

/// An error layer's datom composes back as the layer, spending one unit.
pub proof fn lemma_error_layer_composes_back(l: ErrorLayer, at: Seq<i64>, b: Budget)
    requires
        b.remaining > 0,
    ensures
        error_layer_composed(placed(<ErrorLayer as Datomic>::concept(l), at), b) == (
            Ok::<ErrorLayer, SpecError>(l),
            spent(b),
        ),
{
    <ErrorLayer as Worded>::lemma_words(l);
}

/// What a sequence of composed values stands for.
pub open spec fn composed_models<T: Compositional>(vs: Seq<T>) -> Seq<T::Model> {
    vs.map_values(|v: T| <T as Compositional>::model(&v))
}

/// Composing the elements from the `k`-th on, each within the depth, after
/// the values composed so far; the first that fails gives its error.
pub open spec fn elements_composed<T: Compositional>(
    cs: Seq<SpecPathDatom>,
    k: int,
    acc: Seq<T::Model>,
    b: Budget,
) -> (Result<Seq<T::Model>, SpecError>, Budget)
    decreases cs.len() - k,
{
    if k < 0 || k >= cs.len() {
        (Ok(acc), b)
    } else {
        let (r, b2) = composed_within::<T>(cs[k], b);
        match r {
            Err(e) => (Err(e), b2),
            Ok(v) => elements_composed::<T>(cs, k + 1, acc.push(v), b2),
        }
    }
}

/// Composing a vector: one unit spent, then each element within the depth.
pub open spec fn vector_composed<T: Compositional>(d: SpecPathDatom, b: Budget) -> (
    Result<Seq<T::Model>, SpecError>,
    Budget,
) {
    if b.remaining <= 0 {
        (Err(composition_error(d.path, SpecErrorKind::Budget)), b)
    } else {
        match d.form {
            SpecPathForm::Vector(cs) => elements_composed::<T>(cs, 0, Seq::empty(), spent(b)),
            _ => (
                Err(composition_error(d.path, SpecErrorKind::Form("Vector"@, form_name(d.form)))),
                spent(b),
            ),
        }
    }
}

impl<T: Compositional> Compositional for Vec<T> {
    type Model = Seq<T::Model>;

    open spec fn model(&self) -> Seq<T::Model> {
        composed_models::<T>(self@)
    }

    open spec fn composed(d: SpecPathDatom, b: Budget) -> (Result<Seq<T::Model>, SpecError>, Budget) {
        vector_composed::<T>(d, b)
    }

    fn compose(datom: &PathDatom, budget: &mut Budget) -> (r: Result<Vec<T>, Error>) {
        if budget.spend(&datom.path).is_err() {
            return Err(composition_error_at(datom.path.clone(), ErrorKind::Budget));
        }
        let cs = match &datom.form {
            Form::Vector(cs) => cs,
            _ => {
                let name = form_name_of(datom);
                return Err(
                    composition_error_at(
                        datom.path.clone(),
                        ErrorKind::Form { expected: "Vector".to_owned(), found: name },
                    ),
                );
            },
        };
        let ghost cv = placeds_view(cs@);
        let ghost b1 = *budget;
        proof {
            lemma_placeds_view(cs@);
        }
        let mut values: Vec<T> = Vec::new();
        let mut k: usize = 0;
        proof {
            assert(composed_models::<T>(values@) =~= Seq::<T::Model>::empty());
        }
        while k < cs.len()
            invariant
                0 <= k <= cs.len(),
                cv == placeds_view(cs@),
                cv.len() == cs.len(),
                forall|j: int| 0 <= j < cs.len() ==> #[trigger] cv[j] == cs@[j]@,
                datom@.form == SpecPathForm::Vector(cv),
                b1 == spent(*old(budget)),
                old(budget).remaining > 0,
                elements_composed::<T>(cv, 0, Seq::empty(), b1) == elements_composed::<T>(
                    cv,
                    k as int,
                    composed_models::<T>(values@),
                    *budget,
                ),
                budget.depth == old(budget).depth,
                budget.maximum_depth == old(budget).maximum_depth,
            decreases cs.len() - k,
        {
            match compose_within::<T>(&cs[k], budget) {
                Err(e) => {
                    return Err(e);
                },
                Ok(v) => {
                    proof {
                        assert(composed_models::<T>(values@.push(v)) =~= composed_models::<T>(
                            values@,
                        ).push(<T as Compositional>::model(&v)));
                    }
                    values.push(v);
                },
            }
            k = k + 1;
        }
        proof {
            assert(composed_models::<T>(values@) == <Vec<T> as Compositional>::model(&values));
        }
        Ok(values)
    }
}

/// The budget with some units spent.
pub open spec fn spent_by(b: Budget, n: int) -> Budget {
    Budget { remaining: (b.remaining - n) as i64, depth: b.depth, maximum_depth: b.maximum_depth }
}

/// Composing elements from the `k`-th on, when each composes to its value
/// spending one unit, gives all the values and spends one unit for each.
proof fn lemma_elements_compose_all<T: Compositional>(
    cs: Seq<SpecPathDatom>,
    vs: Seq<T::Model>,
    k: int,
    c: Budget,
    depth: i64,
    maximum_depth: i64,
)
    requires
        cs.len() == vs.len(),
        0 <= k <= cs.len(),
        c.remaining >= cs.len() - k,
        c.depth == depth,
        c.maximum_depth == maximum_depth,
        forall|i: int, x: Budget|
            0 <= i < cs.len() && x.remaining > 0 && x.depth == depth && x.maximum_depth == maximum_depth
                ==> #[trigger] composed_within::<T>(cs[i], x) == (Ok::<T::Model, SpecError>(vs[i]), spent_by(x, 1)),
    ensures
        elements_composed::<T>(cs, k, vs.take(k), c) == (
            Ok::<Seq<T::Model>, SpecError>(vs),
            spent_by(c, cs.len() - k),
        ),
    decreases cs.len() - k,
{
    if k < cs.len() {
        assert(composed_within::<T>(cs[k], c) == (Ok::<T::Model, SpecError>(vs[k]), spent_by(c, 1)));
        assert(vs.take(k).push(vs[k]) =~= vs.take(k + 1));
        lemma_elements_compose_all::<T>(cs, vs, k + 1, spent_by(c, 1), depth, maximum_depth);
        assert(spent_by(spent_by(c, 1), cs.len() - (k + 1)) == spent_by(c, cs.len() - k));
    } else {
        assert(vs.take(k) =~= vs);
        assert(spent_by(c, 0) == c);
    }
}

/// A vector datom composes as the values its elements compose to, in order,
/// spending one unit for itself and what its elements spend: when each
/// element composes to its value spending one unit, the vector of `n` such
/// elements composes to those `n` values spending `n + 1` units.
pub proof fn lemma_vector_composes_elements<T: Compositional>(
    cs: Seq<SpecPathDatom>,
    vs: Seq<T::Model>,
    p: Seq<i64>,
    b: Budget,
)
    requires
        cs.len() == vs.len(),
        b.remaining > cs.len(),
        forall|i: int, x: Budget|
            0 <= i < cs.len() && x.remaining > 0 && x.depth == b.depth && x.maximum_depth == b.maximum_depth
                ==> #[trigger] composed_within::<T>(cs[i], x) == (Ok::<T::Model, SpecError>(vs[i]), spent_by(x, 1)),
    ensures
        <Vec<T> as Compositional>::composed(SpecPathDatom { path: p, form: SpecPathForm::Vector(cs) }, b)
            == (Ok::<Seq<T::Model>, SpecError>(vs), spent_by(b, cs.len() + 1int)),
{
    let b1 = spent_by(b, 1);
    assert(spent(b) == b1);
    assert(vs.take(0) =~= Seq::<T::Model>::empty());
    lemma_elements_compose_all::<T>(cs, vs, 0, b1, b.depth, b.maximum_depth);
    assert(spent_by(b1, cs.len() as int) == spent_by(b, cs.len() + 1int));
}

/// The empty vector datom composes as no values, spending one unit.
pub proof fn lemma_empty_vector_composes<T: Compositional>(p: Seq<i64>, b: Budget)
    requires
        b.remaining > 0,
    ensures
        <Vec<T> as Compositional>::composed(
            SpecPathDatom { path: p, form: SpecPathForm::Vector(Seq::empty()) },
            b,
        ) == (Ok::<Seq<T::Model>, SpecError>(Seq::empty()), spent_by(b, 1)),
{
    lemma_vector_composes_elements::<T>(Seq::empty(), Seq::empty(), p, b);
}

/// Integers placed as the elements of a vector compose back as those
/// integers, one unit for the vector and one for each, whenever the depth
/// allows one more level.
pub proof fn lemma_integer_vector_composes_back(vs: Seq<i64>, p: Seq<i64>, b: Budget)
    requires
        b.remaining > vs.len(),
        b.depth < b.maximum_depth,
    ensures
        <Vec<i64> as Compositional>::composed(
            SpecPathDatom {
                path: p,
                form: SpecPathForm::Vector(
                    Seq::new(vs.len(), |i: int| placed(<i64 as Datomic>::concept(vs[i]), p.push(i as i64))),
                ),
            },
            b,
        ) == (Ok::<Seq<i64>, SpecError>(vs), spent_by(b, vs.len() + 1int)),
{
    let cs = Seq::new(vs.len(), |i: int| placed(<i64 as Datomic>::concept(vs[i]), p.push(i as i64)));
    assert forall|i: int, x: Budget|
        0 <= i < cs.len() && x.remaining > 0 && x.depth == b.depth && x.maximum_depth == b.maximum_depth
            implies #[trigger] composed_within::<i64>(cs[i], x) == (Ok::<i64, SpecError>(vs[i]), spent_by(x, 1)) by {
        let inner = Budget { depth: (x.depth + 1) as i64, ..x };
        lemma_integer_composes_back(vs[i], p.push(i as i64), inner);
    }
    lemma_vector_composes_elements::<i64>(cs, vs, p, b);
}

/// Composing an option: the bare word `None`, or a variant headed `Some`
/// whose body is composed within the depth, or headed `None` over an empty
/// bare body.
pub open spec fn option_composed<T: Compositional>(d: SpecPathDatom, b: Budget) -> (
    Result<Option<T::Model>, SpecError>,
    Budget,
) {
    if b.remaining <= 0 {
        (Err(composition_error(d.path, SpecErrorKind::Budget)), b)
    } else {
        let b1 = spent(b);
        match d.form {
            SpecPathForm::Bare(w) => if w == "None"@ {
                (Ok(None), b1)
            } else {
                (Err(composition_error(d.path, SpecErrorKind::Form("Variant"@, "Bare"@))), b1)
            },
            SpecPathForm::Variant(h, body) => if h == "Some"@ {
                let (r, b2) = composed_within::<T>(*body, b1);
                (
                    match r {
                        Ok(v) => Ok(Some(v)),
                        Err(e) => Err(e),
                    },
                    b2,
                )
            } else if h == "None"@ && body.form == SpecPathForm::Bare(Seq::<char>::empty()) {
                (Ok(None), b1)
            } else {
                (Err(composition_error(d.path, SpecErrorKind::Variant("Option"@, h))), b1)
            },
            _ => (Err(composition_error(d.path, SpecErrorKind::Form("Variant"@, form_name(d.form)))), b1),
        }
    }
}

impl<T: Compositional> Compositional for Option<T> {
    type Model = Option<T::Model>;

    open spec fn model(&self) -> Option<T::Model> {
        match self {
            Some(v) => Some(<T as Compositional>::model(v)),
            None => None,
        }
    }

    open spec fn composed(d: SpecPathDatom, b: Budget) -> (Result<Option<T::Model>, SpecError>, Budget) {
        option_composed::<T>(d, b)
    }

    fn compose(datom: &PathDatom, budget: &mut Budget) -> (r: Result<Option<T>, Error>) {
        if budget.spend(&datom.path).is_err() {
            return Err(composition_error_at(datom.path.clone(), ErrorKind::Budget));
        }
        match &datom.form {
            Form::Bare(w) => {
                if named(w, "None") {
                    Ok(None)
                } else {
                    Err(
                        composition_error_at(
                            datom.path.clone(),
                            ErrorKind::Form { expected: "Variant".to_owned(), found: "Bare".to_owned() },
                        ),
                    )
                }
            },
            Form::Variant(h, body) => {
                if named(h, "Some") {
                    match compose_within::<T>(body, budget) {
                        Ok(v) => Ok(Some(v)),
                        Err(e) => Err(e),
                    }
                } else if named(h, "None") && is_empty_bare(body) {
                    Ok(None)
                } else {
                    Err(
                        composition_error_at(
                            datom.path.clone(),
                            ErrorKind::Variant { expected: "Option".to_owned(), found: h.clone() },
                        ),
                    )
                }
            },
            _ => {
                let name = form_name_of(datom);
                Err(
                    composition_error_at(
                        datom.path.clone(),
                        ErrorKind::Form { expected: "Variant".to_owned(), found: name },
                    ),
                )
            },
        }
    }
}

/// Composing a result: a variant headed `Ok` or `Err` whose body is composed
/// within the depth as the value or the error.
pub open spec fn result_composed<T: Compositional, E: Compositional>(d: SpecPathDatom, b: Budget) -> (
    Result<Result<T::Model, E::Model>, SpecError>,
    Budget,
) {
    if b.remaining <= 0 {
        (Err(composition_error(d.path, SpecErrorKind::Budget)), b)
    } else {
        let b1 = spent(b);
        match d.form {
            SpecPathForm::Variant(h, body) => if h == "Ok"@ {
                let (r, b2) = composed_within::<T>(*body, b1);
                (
                    match r {
                        Ok(v) => Ok(Ok(v)),
                        Err(e) => Err(e),
                    },
                    b2,
                )
            } else if h == "Err"@ {
                let (r, b2) = composed_within::<E>(*body, b1);
                (
                    match r {
                        Ok(v) => Ok(Err(v)),
                        Err(e) => Err(e),
                    },
                    b2,
                )
            } else {
                (Err(composition_error(d.path, SpecErrorKind::Variant("Result"@, h))), b1)
            },
            _ => (Err(composition_error(d.path, SpecErrorKind::Form("Variant"@, form_name(d.form)))), b1),
        }
    }
}

impl<T: Compositional, E: Compositional> Compositional for Result<T, E> {
    type Model = Result<T::Model, E::Model>;

    open spec fn model(&self) -> Result<T::Model, E::Model> {
        match self {
            Ok(v) => Ok(<T as Compositional>::model(v)),
            Err(e) => Err(<E as Compositional>::model(e)),
        }
    }

    open spec fn composed(d: SpecPathDatom, b: Budget) -> (
        Result<Result<T::Model, E::Model>, SpecError>,
        Budget,
    ) {
        result_composed::<T, E>(d, b)
    }

    fn compose(datom: &PathDatom, budget: &mut Budget) -> (r: Result<Result<T, E>, Error>) {
        if budget.spend(&datom.path).is_err() {
            return Err(composition_error_at(datom.path.clone(), ErrorKind::Budget));
        }
        match &datom.form {
            Form::Variant(h, body) => {
                if named(h, "Ok") {
                    match compose_within::<T>(body, budget) {
                        Ok(v) => Ok(Ok(v)),
                        Err(e) => Err(e),
                    }
                } else if named(h, "Err") {
                    match compose_within::<E>(body, budget) {
                        Ok(v) => Ok(Err(v)),
                        Err(e) => Err(e),
                    }
                } else {
                    Err(
                        composition_error_at(
                            datom.path.clone(),
                            ErrorKind::Variant { expected: "Result".to_owned(), found: h.clone() },
                        ),
                    )
                }
            },
            _ => {
                let name = form_name_of(datom);
                Err(
                    composition_error_at(
                        datom.path.clone(),
                        ErrorKind::Form { expected: "Variant".to_owned(), found: name },
                    ),
                )
            },
        }
    }
}

/// Composing a meaning: a parenthesized form, its plain text, one unit spent.
pub open spec fn meaning_composed(d: SpecPathDatom, b: Budget) -> (Result<Seq<char>, SpecError>, Budget) {
    if b.remaining <= 0 {
        (Err(composition_error(d.path, SpecErrorKind::Budget)), b)
    } else {
        (
            match d.form {
                SpecPathForm::Meaning(t) => Ok(t),
                _ => Err(composition_error(d.path, SpecErrorKind::Form("Meaning"@, form_name(d.form)))),
            },
            spent(b),
        )
    }
}

impl Compositional for Meaning {
    type Model = Seq<char>;

    open spec fn model(&self) -> Seq<char> {
        match self {
            Meaning::Plain(t) => t@,
        }
    }

    open spec fn composed(d: SpecPathDatom, b: Budget) -> (Result<Seq<char>, SpecError>, Budget) {
        meaning_composed(d, b)
    }

    fn compose(datom: &PathDatom, budget: &mut Budget) -> (r: Result<Meaning, Error>) {
        if budget.spend(&datom.path).is_err() {
            return Err(composition_error_at(datom.path.clone(), ErrorKind::Budget));
        }
        match &datom.form {
            Form::Meaning(t) => Ok(Meaning::Plain(t.clone())),
            _ => {
                let name = form_name_of(datom);
                Err(
                    composition_error_at(
                        datom.path.clone(),
                        ErrorKind::Form { expected: "Meaning".to_owned(), found: name },
                    ),
                )
            },
        }
    }
}

/// Whether a datom is the empty bare word.
fn is_empty_bare(d: &PathDatom) -> (r: bool)
    ensures
        r == (d@.form == SpecPathForm::Bare(Seq::<char>::empty())),
{
    match &d.form {
        Form::Bare(w) => {
            let n = chars_of(w.as_str()).len();
            proof {
                if n == 0 {
                    assert(w@ =~= Seq::<char>::empty());
                }
            }
            n == 0
        },
        _ => false,
    }
}

// ----- composing a text -----

/// The value a text composes to: its one structure, formed at the root and
/// composed as a `T` within the budget's depth. A text without structure is
/// refused at the structural layer, and one that holds other than one
/// structure at the datom layer.
pub open spec fn composed_text<T: Compositional>(text: Seq<char>, b: Budget) -> (
    Result<T::Model, SpecError>,
    Budget,
) {
    match delineated(text) {
        Err(f) => (
            Err(SpecError { layer: ErrorLayer::Protos, path: Seq::empty(), kind: SpecErrorKind::Unstructured(f) }),
            b,
        ),
        Ok((fs, _)) => if fs.len() != 1 {
            (Err(datom_error(Seq::empty(), SpecErrorKind::Arity(1, counted_forms(fs.len())))), b)
        } else {
            match formed(fs[0], Seq::empty(), 0) {
                Err(e) => (Err(e), b),
                Ok(d) => composed_within::<T>(d, b),
            }
        },
    }
}

/// A count of structures as the dialect's integers hold it.
pub open spec fn counted_forms(n: nat) -> i64 {
    if n <= i64::MAX {
        n as i64
    } else {
        i64::MAX
    }
}

/// The canonical text of an integer composes back as the integer, spending
/// one unit, whenever a unit is left and the depth allows one more level.
pub proof fn lemma_integer_text_composes_back(v: i64, b: Budget)
    requires
        b.remaining > 0,
        b.depth < b.maximum_depth,
    ensures
        composed_text::<i64>(textualized::<i64>(v), b) == (Ok::<i64, SpecError>(v), spent(b)),
{
    let w = integer_word(v as int);
    crate::words::lemma_integer_word_glyphs(v as int);
    assert(no_separator(w)) by {
        assert forall|j: int| 0 <= j < w.len() implies !is_separator(#[trigger] w[j]) by {
            assert(is_digit(w[j]) || w[j] == '-');
        }
    }
    assert(!chain_word(w));
    assert(protosized(<i64 as Datomic>::concept(v)) == SpecForm::Bare(w));
    let nowhere = crate::form::SpecSituation { extent: (0, 0), children: Seq::empty() };
    <i64 as Datomic>::lemma_reads_back(v, nowhere, 0);
    lemma_datom_text_rereads(<i64 as Datomic>::concept(v));
    crate::words::lemma_integer_word_reads_back(v);
    let d = at_path(Seq::empty(), SpecPathForm::Bare(w));
    assert(formed(SpecForm::Bare(w), Seq::empty(), 0) == Ok::<SpecPathDatom, SpecError>(d));
    let inner = Budget { depth: (b.depth + 1) as i64, ..b };
    assert(integer_composed(d, inner) == (Ok::<i64, SpecError>(v), spent(inner)));
}

/// The written text of parenthesized content, or of quoted text, composes
/// as a string into exactly that content, spending one unit, whatever the
/// content: `(a b)` composes as `a b`.
pub proof fn lemma_opaque_text_composes_as_string(bd: Boundary, t: Seq<char>, b: Budget)
    requires
        b.remaining > 0,
        b.depth < b.maximum_depth,
    ensures
        composed_text::<String>(written(SpecForm::Opaque(bd, t)), b) == (
            Ok::<Seq<char>, SpecError>(t),
            spent_by(b, 1),
        ),
{
    let f = SpecForm::Opaque(bd, t);
    assert(crate::rereading::well_formed(f, 0));
    crate::rereading::lemma_text_rereads(f);
    let d = if bd == Boundary::CurlyQuotes {
        at_path(Seq::empty(), SpecPathForm::String(t))
    } else {
        at_path(Seq::empty(), SpecPathForm::Meaning(t))
    };
    assert(formed(f, Seq::empty(), 0) == Ok::<SpecPathDatom, SpecError>(d));
    let inner = Budget { depth: (b.depth + 1) as i64, ..b };
    lemma_scalar_forms_compose_as_string(t, Seq::empty(), inner);
}

/// Two bare words joined by the dot compose as one string, the dot kept,
/// spending a unit for each link: `gpt-5.6-luna` composes as `gpt-5.6-luna`.
pub proof fn lemma_bare_chain_composes(h: Seq<char>, t: Seq<char>, p: Seq<i64>, b: Budget)
    requires
        bare_safe(h),
        bare_safe(t),
        b.remaining >= 2,
        b.depth < b.maximum_depth,
    ensures
        <String as Compositional>::composed(
            SpecPathDatom {
                path: p,
                form: SpecPathForm::Variant(
                    h,
                    Box::new(SpecPathDatom { path: p.push(1), form: SpecPathForm::Bare(t) }),
                ),
            },
            b,
        ) == (Ok::<Seq<char>, SpecError>(h + seq!['.'] + t), spent_by(b, 2)),
{
    let body = SpecPathDatom { path: p.push(1), form: SpecPathForm::Bare(t) };
    let d = SpecPathDatom { path: p, form: SpecPathForm::Variant(h, Box::new(body)) };
    let acc = Seq::<char>::empty() + h.push('.');
    assert(acc.len() > 0);
    assert(bare_string(d, b, b.depth as int, Seq::empty()) == bare_string(body, spent(b), b.depth + 1, acc));
    assert(acc + t =~= h + seq!['.'] + t);
    assert(bare_string(body, spent(b), b.depth + 1, acc) == (
        Ok::<Seq<char>, SpecError>(acc + t),
        spent(spent(b)),
    ));
    assert(spent(spent(b)) == spent_by(b, 2));
}

/// A head followed by quoted text is not a bare string: composing it is
/// refused at the quoted text, after a unit for each link.
pub proof fn lemma_chain_to_quoted_text_is_refused(h: Seq<char>, t: Seq<char>, p: Seq<i64>, b: Budget)
    requires
        bare_safe(h),
        b.remaining >= 2,
        b.depth < b.maximum_depth,
    ensures
        <String as Compositional>::composed(
            SpecPathDatom {
                path: p,
                form: SpecPathForm::Variant(
                    h,
                    Box::new(SpecPathDatom { path: p.push(1), form: SpecPathForm::String(t) }),
                ),
            },
            b,
        ) == (
            Err::<Seq<char>, SpecError>(
                composition_error(p.push(1), SpecErrorKind::Form("String"@, "String"@)),
            ),
            spent_by(b, 2),
        ),
{
    let body = SpecPathDatom { path: p.push(1), form: SpecPathForm::String(t) };
    let d = SpecPathDatom { path: p, form: SpecPathForm::Variant(h, Box::new(body)) };
    let acc = Seq::<char>::empty() + h.push('.');
    assert(acc.len() > 0);
    assert(bare_string(d, b, b.depth as int, Seq::empty()) == bare_string(body, spent(b), b.depth + 1, acc));
    assert(spent(spent(b)) == spent_by(b, 2));
}

/// Composes a `T` from a text.
pub fn compose_text<T: Compositional>(text: &str, budget: &mut Budget) -> (r: Result<T, Error>)
    requires
        text@.len() <= usize::MAX / 8,
    ensures
        composed_text::<T>(text@, *old(budget)) == (
            match r {
                Ok(v) => Ok::<T::Model, SpecError>(v.model()),
                Err(e) => Err(e@),
            },
            *final(budget),
        ),
{
    let d = match delineate(text) {
        Ok(d) => d,
        Err(f) => {
            return Err(Error { layer: ErrorLayer::Protos, path: Vec::new(), kind: ErrorKind::Unstructured(f) });
        },
    };
    proof {
        lemma_forms_view_len(d.forms@);
    }
    if d.forms.len() != 1 {
        let n: i64 = if d.forms.len() as u64 <= i64::MAX as u64 {
            d.forms.len() as i64
        } else {
            i64::MAX
        };
        return Err(datom_error_at(Vec::new(), ErrorKind::Arity { expected: 1, found: n }));
    }
    proof {
        assert(forms_view(d.forms@)[0] == d.forms@[0]@);
    }
    let root = match form(&d.forms[0], Vec::new()) {
        Ok(root) => root,
        Err(e) => {
            return Err(e);
        },
    };
    compose_within::<T>(&root, budget)
}

} // verus!

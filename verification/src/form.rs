//! The protoform: the structure of a datom text, before it means anything.

use vstd::prelude::*;

use crate::glyph::{Boundary, Enclosure, Separator};

verus! {

/// A span of the text, in bytes: start and end.
#[derive(Clone, Copy, Debug, PartialEq, Eq, Structural)]
pub struct Extent(pub i64, pub i64);

/// Where a structure is: its extent, and the situations of its parts.
#[derive(Debug)]
pub struct Situation {
    /// The span of the structure.
    pub extent: Extent,
    /// The situations of its parts, in order.
    pub children: Vec<Situation>,
}

/// A structure together with where it is.
#[derive(Debug)]
pub struct Situated<T>(pub Situation, pub T);

/// The structure of a text.
#[derive(Debug)]
pub enum Protoform {
    /// A bare run of word glyphs.
    Bare(String),
    /// A symbol, a separator, and a body.
    Headed(String, Separator, Box<Protoform>),
    /// A symbol qualified by angled parameters.
    Qualified(String, Vec<Protoform>),
    /// A qualified symbol, a separator, and a body.
    QualifiedHeaded(String, Vec<Protoform>, Separator, Box<Protoform>),
    /// An enclosure and its children.
    Enclosed(Enclosure, Vec<Protoform>),
    /// Opaque content between a boundary.
    Opaque(Boundary, String),
}

impl View for Situation {
    type V = SpecSituation;

    open spec fn view(&self) -> SpecSituation
        decreases self,
    {
        SpecSituation {
            extent: (self.extent.0 as int, self.extent.1 as int),
            children: situations_view(self.children@),
        }
    }
}

/// The mathematical situations of a sequence of situations.
pub open spec fn situations_view(cs: Seq<Situation>) -> Seq<SpecSituation>
    decreases cs,
{
    if cs.len() == 0 {
        Seq::empty()
    } else {
        seq![cs[0].view()] + situations_view(cs.drop_first())
    }
}

/// The mathematical protoform.
pub enum SpecForm {
    Bare(Seq<char>),
    Headed(Seq<char>, Separator, Box<SpecForm>),
    Qualified(Seq<char>, Seq<SpecForm>),
    QualifiedHeaded(Seq<char>, Seq<SpecForm>, Separator, Box<SpecForm>),
    Enclosed(Enclosure, Seq<SpecForm>),
    Opaque(Boundary, Seq<char>),
}

/// The mathematical situation: a byte extent and the situations of the parts.
pub struct SpecSituation {
    pub extent: (int, int),
    pub children: Seq<SpecSituation>,
}

impl View for Protoform {
    type V = SpecForm;

    open spec fn view(&self) -> SpecForm
        decreases self,
    {
        match self {
            Protoform::Bare(w) => SpecForm::Bare(w@),
            Protoform::Headed(h, s, b) => SpecForm::Headed(h@, *s, Box::new((**b).view())),
            Protoform::Qualified(h, cs) => SpecForm::Qualified(h@, forms_view(cs@)),
            Protoform::QualifiedHeaded(h, cs, s, b) => SpecForm::QualifiedHeaded(
                h@,
                forms_view(cs@),
                *s,
                Box::new((**b).view()),
            ),
            Protoform::Enclosed(e, cs) => SpecForm::Enclosed(*e, forms_view(cs@)),
            Protoform::Opaque(b, c) => SpecForm::Opaque(*b, c@),
        }
    }
}

/// The mathematical protoforms of a sequence of protoforms.
pub open spec fn forms_view(cs: Seq<Protoform>) -> Seq<SpecForm>
    decreases cs,
{
    if cs.len() == 0 {
        Seq::empty()
    } else {
        seq![cs[0].view()] + forms_view(cs.drop_first())
    }
}

} // verus!

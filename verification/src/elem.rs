//! The rule-element tree and its mathematical model.

use vstd::prelude::*;

verus! {

/// The model of a rule element: the same tree with mathematical sequences
/// for children.
pub enum Element {
    Char(char),
    Sequence(Seq<Element>),
    Alt(Seq<Element>),
    RepeatAny(Box<Element>),
    RepeatOne(Box<Element>),
    Optional(Box<Element>),
    Wildcard,
    WordBoundary,
    Invert(Box<Element>),
    Capture,
    Null,
}

/// One element of a rule, as the grammar builds it.
#[derive(Debug, PartialEq, Eq)]
pub enum LexcElem {
    /// A literal character, or the name of a class.
    Char(char),
    /// Two or more elements in order.
    Sequence(Vec<LexcElem>),
    /// A choice between branches.
    Alt(Vec<LexcElem>),
    /// Zero or more repetitions.
    RepeatAny(Box<LexcElem>),
    /// One or more repetitions.
    RepeatOne(Box<LexcElem>),
    /// Zero or one occurrence.
    Optional(Box<LexcElem>),
    /// Any single unit of input.
    Wildcard,
    /// The edge of a word.
    WordBoundary,
    /// Whatever the inner element does not match.
    Invert(Box<LexcElem>),
    /// The text that the match consumed.
    Capture,
    /// Nothing at all.
    Null,
}

impl LexcElem {
    /// The tree that this element stands for.
    pub open spec fn model(self) -> Element
        decreases self,
    {
        match self {
            LexcElem::Char(c) => Element::Char(c),
            LexcElem::Sequence(items) => Element::Sequence(Self::models(items@)),
            LexcElem::Alt(items) => Element::Alt(Self::models(items@)),
            LexcElem::RepeatAny(inner) => Element::RepeatAny(Box::new((*inner).model())),
            LexcElem::RepeatOne(inner) => Element::RepeatOne(Box::new((*inner).model())),
            LexcElem::Optional(inner) => Element::Optional(Box::new((*inner).model())),
            LexcElem::Wildcard => Element::Wildcard,
            LexcElem::WordBoundary => Element::WordBoundary,
            LexcElem::Invert(inner) => Element::Invert(Box::new((*inner).model())),
            LexcElem::Capture => Element::Capture,
            LexcElem::Null => Element::Null,
        }
    }

    /// The trees of a list of elements, in order.
    pub open spec fn models(items: Seq<LexcElem>) -> Seq<Element>
        decreases items,
    {
        Seq::new(
            items.len(),
            |i: int|
                if 0 <= i < items.len() {
                    items[i].model()
                } else {
                    Element::Null
                },
        )
    }
}

impl Element {
    /// Whether the tree is one that the grammar can build: a sequence has
    /// two members or more, an alternation has a branch, and what stands
    /// inside is well formed in turn.
    pub open spec fn well_formed(self) -> bool
        decreases self,
    {
        match self {
            Element::Sequence(items) => items.len() >= 2 && forall|i: int|
                0 <= i < items.len() ==> (#[trigger] items[i]).well_formed(),
            Element::Alt(items) => items.len() >= 1 && forall|i: int|
                0 <= i < items.len() ==> (#[trigger] items[i]).well_formed(),
            Element::RepeatAny(inner) => inner.well_formed(),
            Element::RepeatOne(inner) => inner.well_formed(),
            Element::Optional(inner) => inner.well_formed(),
            Element::Invert(inner) => inner.well_formed(),
            Element::Char(_) => true,
            Element::Wildcard => true,
            Element::WordBoundary => true,
            Element::Capture => true,
            Element::Null => true,
        }
    }

    /// How many literal characters and alternations the tree holds: no
    /// resolution hands out more binding indices than that.
    pub open spec fn binders(self) -> nat
        decreases self, 0nat,
    {
        match self {
            Element::Char(_) => 1,
            Element::Sequence(items) => Self::binders_upto(items, items.len()),
            Element::Alt(items) => 1 + Self::binders_upto(items, items.len()),
            Element::RepeatAny(inner) => inner.binders(),
            Element::RepeatOne(inner) => inner.binders(),
            Element::Optional(inner) => inner.binders(),
            Element::Invert(inner) => inner.binders(),
            Element::Wildcard => 0,
            Element::WordBoundary => 0,
            Element::Capture => 0,
            Element::Null => 0,
        }
    }

    /// The same count over the first `n` of `items`.
    pub open spec fn binders_upto(items: Seq<Element>, n: nat) -> nat
        decreases items, n,
    {
        if n == 0 || n > items.len() {
            0
        } else {
            Self::binders_upto(items, (n - 1) as nat) + items[n - 1].binders()
        }
    }
}

impl View for LexcElem {
    type V = Element;

    open spec fn view(&self) -> Element {
        self.model()
    }
}

} // verus!

//! The directives that a script is turned into, and their models.

use crate::elem::{Element, LexcElem};
use vstd::prelude::*;

verus! {

/// The model of an environment clause.
pub struct Environment {
    pub pre: Option<Element>,
    pub post: Option<Element>,
}

/// The model of a rule.
pub struct Rule {
    pub matcher: Element,
    pub replacer: Element,
    pub env: Option<Environment>,
}

/// The model of a directive.
pub enum DirectiveModel {
    Config(Seq<char>, bool),
    DefineClass(char, Seq<Seq<char>>),
    Transform(Seq<char>, Rule),
}

/// Whether an element that may be absent is well formed where it is there.
pub open spec fn well_formed_if_any(elem: Option<Element>) -> bool {
    match elem {
        Some(e) => e.well_formed(),
        None => true,
    }
}

impl Environment {
    /// Whether both sides are well formed.
    pub open spec fn well_formed(self) -> bool {
        well_formed_if_any(self.pre) && well_formed_if_any(self.post)
    }
}

impl Rule {
    /// Whether all elements of the rule are well formed.
    pub open spec fn well_formed(self) -> bool {
        &&& self.matcher.well_formed()
        &&& self.replacer.well_formed()
        &&& match self.env {
            Some(env) => env.well_formed(),
            None => true,
        }
    }
}

impl DirectiveModel {
    /// Whether the directive, where it is a rule, holds a well-formed rule.
    pub open spec fn well_formed(self) -> bool {
        match self {
            DirectiveModel::Transform(_, rule) => rule.well_formed(),
            _ => true,
        }
    }
}

/// The context that a rule asks for around the place where it applies: what
/// stands before that place and what stands behind it.
#[derive(Debug, PartialEq, Eq)]
pub struct EnvironmentDef {
    pub pre: Option<LexcElem>,
    pub post: Option<LexcElem>,
}

/// A rule: what it matches, what it puts there, and the context it asks for.
#[derive(Debug, PartialEq, Eq)]
pub struct RuleDef {
    pub matcher: LexcElem,
    pub replacer: LexcElem,
    pub env: Option<EnvironmentDef>,
}

/// One entry of the list that a script is turned into.
#[derive(Debug, PartialEq, Eq)]
pub enum Directive {
    /// A setting of the engine: its name and whether it is switched on.
    Config(String, bool),
    /// The definition of a class: its name and its members.
    DefineClass(char, Vec<String>),
    /// A rule under its identifier.
    Transform(String, RuleDef),
}

/// The model of an element that may be absent.
pub open spec fn element_of(elem: Option<LexcElem>) -> Option<Element> {
    match elem {
        Some(e) => Some(e@),
        None => None,
    }
}

impl View for EnvironmentDef {
    type V = Environment;

    open spec fn view(&self) -> Environment {
        Environment { pre: element_of(self.pre), post: element_of(self.post) }
    }
}

impl View for RuleDef {
    type V = Rule;

    open spec fn view(&self) -> Rule {
        Rule {
            matcher: self.matcher@,
            replacer: self.replacer@,
            env: match self.env {
                Some(env) => Some(env@),
                None => None,
            },
        }
    }
}

impl View for Directive {
    type V = DirectiveModel;

    open spec fn view(&self) -> DirectiveModel {
        match self {
            Directive::Config(name, on) => DirectiveModel::Config(name@, *on),
            Directive::DefineClass(name, members) => DirectiveModel::DefineClass(
                *name,
                members.deep_view(),
            ),
            Directive::Transform(id, rule) => DirectiveModel::Transform(id@, rule@),
        }
    }
}

} // verus!

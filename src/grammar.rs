use vstd::prelude::*;

verus! {

/// A grammar document: its declarations, its rules and the trailing program text.
#[derive(Debug, Clone, PartialEq, Eq)]
pub struct Grammar {
    pub directives: Vec<Directive>,
    pub rules: Vec<Rule>,
    pub programs: String,
}

/// One `%` declaration of the directive section.
#[derive(Debug, Clone, PartialEq, Eq)]
pub enum Directive {
    /// `%pure-parser`
    PureParser,
    /// `%expect number`
    Expect { number: i32 },
    /// `%name-prefix = "prefix"`
    NamePrefix { prefix: String },
    /// `%locations`
    Locations,
    /// `%parse-param { params }`
    ParseParam { params: String },
    /// `%lex-param { params }`
    LexParam { params: String },
    /// `%union { code }`
    Union { code: String },
    /// `%type <type> names`
    Type { type_tag: String, rule_names: Vec<String> },
    /// `%token [<type>] names`
    Token { token_name: Option<String>, rule_names: Vec<String> },
    /// `%left names`
    Left { rule_names: Vec<String> },
    /// `%right names`
    Right { rule_names: Vec<String> },
    /// `%nonassoc names`
    NonAssoc { rule_names: Vec<String> },
}

/// A named production: `name: alternative | alternative ;`
#[derive(Debug, Clone, PartialEq, Eq)]
pub struct Rule {
    pub name: String,
    pub alternatives: Vec<Alternative>,
}

/// One right-hand side: symbols, then an optional `{ ... }` action.
#[derive(Debug, Clone, PartialEq, Eq)]
pub struct Alternative {
    pub elements: Vec<String>,
    pub action: Option<String>,
}

pub enum DirectiveView {
    PureParser,
    Expect { number: int },
    NamePrefix { prefix: Seq<char> },
    Locations,
    ParseParam { params: Seq<char> },
    LexParam { params: Seq<char> },
    Union { code: Seq<char> },
    Type { type_tag: Seq<char>, rule_names: Seq<Seq<char>> },
    Token { token_name: Option<Seq<char>>, rule_names: Seq<Seq<char>> },
    Left { rule_names: Seq<Seq<char>> },
    Right { rule_names: Seq<Seq<char>> },
    NonAssoc { rule_names: Seq<Seq<char>> },
}

pub struct AlternativeView {
    pub elements: Seq<Seq<char>>,
    pub action: Option<Seq<char>>,
}

pub struct RuleView {
    pub name: Seq<char>,
    pub alternatives: Seq<AlternativeView>,
}

pub struct GrammarView {
    pub directives: Seq<DirectiveView>,
    pub rules: Seq<RuleView>,
    pub programs: Seq<char>,
}

pub open spec fn strings_view(v: Vec<String>) -> Seq<Seq<char>> {
    v@.map_values(|s: String| s@)
}

pub open spec fn opt_view(o: Option<String>) -> Option<Seq<char>> {
    match o {
        Some(s) => Some(s@),
        None => None,
    }
}

impl View for Directive {
    type V = DirectiveView;

    open spec fn view(&self) -> DirectiveView {
        match self {
            Directive::PureParser => DirectiveView::PureParser,
            Directive::Expect { number } => DirectiveView::Expect { number: *number as int },
            Directive::NamePrefix { prefix } => DirectiveView::NamePrefix { prefix: prefix@ },
            Directive::Locations => DirectiveView::Locations,
            Directive::ParseParam { params } => DirectiveView::ParseParam { params: params@ },
            Directive::LexParam { params } => DirectiveView::LexParam { params: params@ },
            Directive::Union { code } => DirectiveView::Union { code: code@ },
            Directive::Type { type_tag, rule_names } => DirectiveView::Type {
                type_tag: type_tag@,
                rule_names: strings_view(*rule_names),
            },
            Directive::Token { token_name, rule_names } => DirectiveView::Token {
                token_name: opt_view(*token_name),
                rule_names: strings_view(*rule_names),
            },
            Directive::Left { rule_names } => DirectiveView::Left {
                rule_names: strings_view(*rule_names),
            },
            Directive::Right { rule_names } => DirectiveView::Right {
                rule_names: strings_view(*rule_names),
            },
            Directive::NonAssoc { rule_names } => DirectiveView::NonAssoc {
                rule_names: strings_view(*rule_names),
            },
        }
    }
}

impl View for Alternative {
    type V = AlternativeView;

    open spec fn view(&self) -> AlternativeView {
        AlternativeView { elements: strings_view(self.elements), action: opt_view(self.action) }
    }
}

impl View for Rule {
    type V = RuleView;

    open spec fn view(&self) -> RuleView {
        RuleView { name: self.name@, alternatives: self.alternatives@.map_values(|a: Alternative| a@) }
    }
}

impl View for Grammar {
    type V = GrammarView;

    open spec fn view(&self) -> GrammarView {
        GrammarView {
            directives: self.directives@.map_values(|d: Directive| d@),
            rules: self.rules@.map_values(|r: Rule| r@),
            programs: self.programs@,
        }
    }
}

} // verus!

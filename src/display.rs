use vstd::prelude::*;
use vstd::string::StrSliceExecFns;
use vstd::string::StringExecFns;
use crate::grammar::{
    strings_view, Alternative, AlternativeView, Directive, DirectiveView, Grammar, GrammarView,
    Rule, RuleView,
};

verus! {

pub open spec fn digit_chars() -> Seq<char> {
    "0123456789"@
}

/// Decimal digits of `n`, most significant first.
pub open spec fn digits_text(n: nat) -> Seq<char>
    decreases n,
{
    if n < 10 {
        digit_chars().subrange(n as int, n as int + 1)
    } else {
        digits_text(n / 10) + digit_chars().subrange((n % 10) as int, (n % 10) as int + 1)
    }
}

/// Decimal form of `n`, with a leading `-` when negative.
pub open spec fn decimal_text(n: int) -> Seq<char> {
    if n < 0 {
        "-"@ + digits_text((-n) as nat)
    } else {
        digits_text(n as nat)
    }
}

/// Each name preceded by one space.
pub open spec fn spaced(ns: Seq<Seq<char>>) -> Seq<char>
    decreases ns.len(),
{
    if ns.len() == 0 {
        seq![]
    } else {
        spaced(ns.drop_last()) + " "@ + ns.last()
    }
}

pub open spec fn directive_text(d: DirectiveView) -> Seq<char> {
    match d {
        DirectiveView::PureParser => "%pure-parser\n"@,
        DirectiveView::Expect { number } => "%expect "@ + decimal_text(number) + "\n"@,
        DirectiveView::NamePrefix { prefix } => "%name-prefix="@ + prefix + "\n"@,
        DirectiveView::Locations => "%locations\n"@,
        DirectiveView::ParseParam { params } => "%parse-param "@ + params + "\n"@,
        DirectiveView::LexParam { params } => "%lex-param "@ + params + "\n"@,
        DirectiveView::Union { code } => "%union "@ + code + "\n"@,
        DirectiveView::Type { type_tag, rule_names } => "%type "@ + type_tag + spaced(rule_names)
            + "\n"@,
        DirectiveView::Token { token_name, rule_names } => "%token"@ + match token_name {
            Some(t) => " "@ + t,
            None => seq![],
        } + spaced(rule_names) + "\n"@,
        DirectiveView::Left { rule_names } => "%left"@ + spaced(rule_names) + "\n"@,
        DirectiveView::Right { rule_names } => "%right"@ + spaced(rule_names) + "\n"@,
        DirectiveView::NonAssoc { rule_names } => "%nonassoc"@ + spaced(rule_names) + "\n"@,
    }
}

/// The names separated by single spaces.
pub open spec fn joined(ns: Seq<Seq<char>>) -> Seq<char>
    decreases ns.len(),
{
    if ns.len() == 0 {
        seq![]
    } else if ns.len() == 1 {
        ns[0]
    } else {
        joined(ns.drop_last()) + " "@ + ns.last()
    }
}

/// The symbols separated by single spaces, then a space and the action.
pub open spec fn alternative_text(a: AlternativeView) -> Seq<char> {
    joined(a.elements) + match a.action {
        Some(c) => " "@ + c,
        None => seq![],
    }
}

/// An alternative as it stands after `:` or `|`: a space first when it begins
/// with a symbol (the action already begins with one).
pub open spec fn alternative_piece(a: AlternativeView) -> Seq<char> {
    if a.elements.len() > 0 {
        " "@ + alternative_text(a)
    } else {
        alternative_text(a)
    }
}

/// The alternatives separated by ` |`.
pub open spec fn alternatives_text(alts: Seq<AlternativeView>) -> Seq<char>
    decreases alts.len(),
{
    if alts.len() == 0 {
        seq![]
    } else if alts.len() == 1 {
        alternative_piece(alts[0])
    } else {
        alternatives_text(alts.drop_last()) + " |"@ + alternative_piece(alts.last())
    }
}

pub open spec fn rule_text(r: RuleView) -> Seq<char> {
    r.name + ":"@ + alternatives_text(r.alternatives) + " ;\n"@
}

pub open spec fn directives_text(ds: Seq<DirectiveView>) -> Seq<char>
    decreases ds.len(),
{
    if ds.len() == 0 {
        seq![]
    } else {
        directives_text(ds.drop_last()) + directive_text(ds.last())
    }
}

pub open spec fn rules_text(rs: Seq<RuleView>) -> Seq<char>
    decreases rs.len(),
{
    if rs.len() == 0 {
        seq![]
    } else {
        rules_text(rs.drop_last()) + rule_text(rs.last())
    }
}

/// Source text for a document: directives, `%%`, rules, and the program text
/// after a second `%%` when there is any.
pub open spec fn grammar_text(g: GrammarView) -> Seq<char> {
    directives_text(g.directives) + "%%\n"@ + rules_text(g.rules) + if g.programs.len() == 0 {
        seq![]
    } else {
        "%%\n"@ + g.programs
    }
}

fn push_digits(out: &mut String, n: u32)
    ensures
        final(out)@ == old(out)@ + digits_text(n as nat),
    decreases n,
{
    let digits = "0123456789";
    proof {
        reveal_strlit("0123456789");
    }
    if n >= 10 {
        push_digits(out, n / 10);
    }
    let d = (n % 10) as usize;
    out.append(digits.substring_char(d, d + 1));
}

fn push_decimal(out: &mut String, n: i32)
    ensures
        final(out)@ == old(out)@ + decimal_text(n as int),
{
    if n < 0 {
        out.append("-");
        let m = (0 - (n as i64)) as u32;
        push_digits(out, m);
        proof {
            assert(final(out)@ =~= old(out)@ + decimal_text(n as int));
        }
    } else {
        push_digits(out, n as u32);
    }
}

fn push_spaced(out: &mut String, names: &Vec<String>)
    ensures
        final(out)@ == old(out)@ + spaced(strings_view(*names)),
{
    let ghost start = out@;
    let mut i: usize = 0;
    while i < names.len()
        invariant
            i <= names@.len(),
            out@ == start + spaced(strings_view(*names).subrange(0, i as int)),
        decreases names@.len() - i,
    {
        let ghost ns = strings_view(*names);
        out.append(" ");
        out.append(names[i].as_str());
        proof {
            let pre = ns.subrange(0, i as int + 1);
            assert(pre.drop_last() =~= ns.subrange(0, i as int));
            assert(pre.last() == names@[i as int]@);
        }
        i = i + 1;
    }
    proof {
        assert(strings_view(*names).subrange(0, names@.len() as int) =~= strings_view(*names));
    }
}

impl Directive {
    /// One source line declaring this directive.
    pub fn to_text(&self) -> (r: String)
        ensures
            r@ == directive_text(self@),
    {
        let mut out = String::new();
        match self {
            Directive::PureParser => out.append("%pure-parser\n"),
            Directive::Expect { number } => {
                out.append("%expect ");
                push_decimal(&mut out, *number);
                out.append("\n");
            },
            Directive::NamePrefix { prefix } => {
                out.append("%name-prefix=");
                out.append(prefix.as_str());
                out.append("\n");
            },
            Directive::Locations => out.append("%locations\n"),
            Directive::ParseParam { params } => {
                out.append("%parse-param ");
                out.append(params.as_str());
                out.append("\n");
            },
            Directive::LexParam { params } => {
                out.append("%lex-param ");
                out.append(params.as_str());
                out.append("\n");
            },
            Directive::Union { code } => {
                out.append("%union ");
                out.append(code.as_str());
                out.append("\n");
            },
            Directive::Type { type_tag, rule_names } => {
                out.append("%type ");
                out.append(type_tag.as_str());
                push_spaced(&mut out, rule_names);
                out.append("\n");
            },
            Directive::Token { token_name, rule_names } => {
                out.append("%token");
                match token_name {
                    Some(t) => {
                        out.append(" ");
                        out.append(t.as_str());
                    },
                    None => {},
                }
                push_spaced(&mut out, rule_names);
                out.append("\n");
            },
            Directive::Left { rule_names } => {
                out.append("%left");
                push_spaced(&mut out, rule_names);
                out.append("\n");
            },
            Directive::Right { rule_names } => {
                out.append("%right");
                push_spaced(&mut out, rule_names);
                out.append("\n");
            },
            Directive::NonAssoc { rule_names } => {
                out.append("%nonassoc");
                push_spaced(&mut out, rule_names);
                out.append("\n");
            },
        }
        proof {
            assert(out@ =~= directive_text(self@));
        }
        out
    }
}

fn push_joined(out: &mut String, names: &Vec<String>)
    ensures
        final(out)@ == old(out)@ + joined(strings_view(*names)),
{
    let ghost start = out@;
    let mut i: usize = 0;
    while i < names.len()
        invariant
            i <= names@.len(),
            out@ == start + joined(strings_view(*names).subrange(0, i as int)),
        decreases names@.len() - i,
    {
        let ghost ns = strings_view(*names);
        if i > 0 {
            out.append(" ");
        }
        out.append(names[i].as_str());
        proof {
            let pre = ns.subrange(0, i as int + 1);
            assert(pre.drop_last() =~= ns.subrange(0, i as int));
            assert(pre.last() == names@[i as int]@);
            if i == 0 {
                assert(pre[0] == names@[0]@);
                assert(out@ =~= start + joined(pre));
            }
        }
        i = i + 1;
    }
    proof {
        assert(strings_view(*names).subrange(0, names@.len() as int) =~= strings_view(*names));
    }
}

impl Alternative {
    /// The symbols separated by single spaces, then a space and the action.
    pub fn to_text(&self) -> (r: String)
        ensures
            r@ == alternative_text(self@),
    {
        let mut out = String::new();
        push_joined(&mut out, &self.elements);
        match &self.action {
            Some(c) => {
                out.append(" ");
                out.append(c.as_str());
            },
            None => {},
        }
        proof {
            assert(out@ =~= alternative_text(self@));
        }
        out
    }
}

impl Rule {
    /// `name:`, the alternatives separated by ` |` (each that begins with a symbol
    /// after a space), then ` ;` and a line break.
    pub fn to_text(&self) -> (r: String)
        ensures
            r@ == rule_text(self@),
    {
        let mut out = String::new();
        out.append(self.name.as_str());
        out.append(":");
        let ghost start = out@;
        let ghost alts = self@.alternatives;
        let mut i: usize = 0;
        while i < self.alternatives.len()
            invariant
                i <= self.alternatives@.len(),
                alts == self@.alternatives,
                alts.len() == self.alternatives@.len(),
                out@ == start + alternatives_text(alts.subrange(0, i as int)),
            decreases self.alternatives@.len() - i,
        {
            if i > 0 {
                out.append(" |");
            }
            if self.alternatives[i].elements.len() > 0 {
                out.append(" ");
            }
            let a = self.alternatives[i].to_text();
            out.append(a.as_str());
            proof {
                let pre = alts.subrange(0, i as int + 1);
                assert(pre.drop_last() =~= alts.subrange(0, i as int));
                assert(pre.last() == self.alternatives@[i as int]@);
                if i == 0 {
                    assert(alts.subrange(0, 0).len() == 0);
                }
            }
            i = i + 1;
        }
        out.append(" ;\n");
        proof {
            assert(alts.subrange(0, alts.len() as int) =~= alts);
            assert(out@ =~= rule_text(self@));
        }
        out
    }
}

impl Grammar {
    /// Source text that declares this document.
    pub fn to_text(&self) -> (r: String)
        ensures
            r@ == grammar_text(self@),
    {
        let mut out = String::new();
        let ghost ds = self@.directives;
        let mut i: usize = 0;
        while i < self.directives.len()
            invariant
                i <= self.directives@.len(),
                ds == self@.directives,
                ds.len() == self.directives@.len(),
                out@ == directives_text(ds.subrange(0, i as int)),
            decreases self.directives@.len() - i,
        {
            let t = self.directives[i].to_text();
            out.append(t.as_str());
            proof {
                let pre = ds.subrange(0, i as int + 1);
                assert(pre.drop_last() =~= ds.subrange(0, i as int));
                assert(pre.last() == self.directives@[i as int]@);
            }
            i = i + 1;
        }
        proof {
            assert(ds.subrange(0, ds.len() as int) =~= ds);
        }
        out.append("%%\n");
        let ghost mid = out@;
        let ghost rs = self@.rules;
        let mut j: usize = 0;
        while j < self.rules.len()
            invariant
                j <= self.rules@.len(),
                rs == self@.rules,
                rs.len() == self.rules@.len(),
                out@ == mid + rules_text(rs.subrange(0, j as int)),
            decreases self.rules@.len() - j,
        {
            let t = self.rules[j].to_text();
            out.append(t.as_str());
            proof {
                let pre = rs.subrange(0, j as int + 1);
                assert(pre.drop_last() =~= rs.subrange(0, j as int));
                assert(pre.last() == self.rules@[j as int]@);
            }
            j = j + 1;
        }
        proof {
            assert(rs.subrange(0, rs.len() as int) =~= rs);
        }
        if self.programs.as_str().unicode_len() > 0 {
            out.append("%%\n");
            out.append(self.programs.as_str());
        }
        proof {
            assert(out@ =~= grammar_text(self@));
        }
        out
    }
}

} // verus!

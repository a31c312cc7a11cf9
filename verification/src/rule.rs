//! A production rule: a left-hand-side term and its alternatives.
use crate::alternatives::{dedup_alts, render_alts, Alternatives};
use crate::term::{Term, TermV};
use crate::text;
use vstd::prelude::*;

verus! {

/// Mathematical value of a [`Rule`].
#[verifier::ext_equal]
pub ghost struct RuleV {
    pub lhs: TermV,
    pub alts: Seq<Seq<TermV>>,
}

/// One production rule.
pub struct Rule {
    pub lhs: Term,
    pub rhs: Alternatives,
}

impl View for Rule {
    type V = RuleV;

    open spec fn view(&self) -> RuleV {
        RuleV { lhs: self.lhs@, alts: self.rhs@ }
    }
}

impl DeepView for Rule {
    type V = RuleV;

    open spec fn deep_view(&self) -> RuleV {
        self.view()
    }
}

impl Clone for Rule {
    fn clone(&self) -> (res: Self)
        ensures
            res@ == self@,
    {
        Rule { lhs: self.lhs.clone(), rhs: self.rhs.clone() }
    }
}

/// Textual rendering of a rule: the left-hand side, " ::= ", then the
/// alternatives.
pub open spec fn render_rule(r: RuleV) -> Seq<char> {
    r.lhs.render() + seq![' ', ':', ':', '=', ' '] + render_alts(r.alts)
}

impl Rule {
    /// Merging two rules with one left-hand side: that side, over the
    /// deduplicated concatenation of the two alternative lists.
    pub fn merge(&self, other: &Self) -> (r: Self)
        ensures
            r@.lhs == self@.lhs,
            r@.alts == dedup_alts(self@.alts + other@.alts),
    {
        Rule { lhs: self.lhs.clone(), rhs: self.rhs.merge(&other.rhs) }
    }

    /// Appends the textual rendering of this rule to `out`.
    pub fn render_into(&self, out: &mut String)
        ensures
            final(out)@ == old(out)@ + render_rule(self@),
    {
        self.lhs.render_into(out);
        text::push_char(out, ' ');
        text::push_char(out, ':');
        text::push_char(out, ':');
        text::push_char(out, '=');
        text::push_char(out, ' ');
        self.rhs.render_into(out);
        assert(final(out)@ =~= old(out)@ + render_rule(self@));
    }

    /// The textual rendering of this rule.
    pub fn to_text(&self) -> (r: String)
        ensures
            r@ == render_rule(self@),
    {
        let mut out = String::new();
        self.render_into(&mut out);
        proof {
            assert(out@ =~= render_rule(self@));
        }
        out
    }
}

} // verus!

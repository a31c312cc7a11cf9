//! Grammar symbols: terminals carrying literal content and nonterminals
//! naming production rules.
use crate::error::Error;
use crate::text;
use vstd::prelude::*;

verus! {

/// Kind of a grammar symbol: a terminal carries literal content, a
/// nonterminal names a production rule.
#[derive(Clone, Copy, Debug, PartialEq, Eq, Structural)]
pub enum TermKind {
    Terminal,
    Nonterminal,
}

/// Mathematical value of a [`Term`]: its kind together with its content,
/// seen as a sequence of characters.
#[verifier::ext_equal]
pub ghost struct TermV {
    pub kind: TermKind,
    pub content: Seq<char>,
}

impl TermV {
    /// The empty terminal.
    pub open spec fn is_eps(self) -> bool {
        self.kind == TermKind::Terminal && self.content.len() == 0
    }

    /// A terminal whose content is one single character.
    pub open spec fn is_atomic(self) -> bool {
        self.kind == TermKind::Terminal && self.content.len() == 1
    }

    pub open spec fn is_terminal(self) -> bool {
        self.kind == TermKind::Terminal
    }

    pub open spec fn is_nonterminal(self) -> bool {
        self.kind == TermKind::Nonterminal
    }

    /// The nonterminal with the given name.
    pub open spec fn nt(name: Seq<char>) -> TermV {
        TermV { kind: TermKind::Nonterminal, content: name }
    }

    /// The terminal with the given content.
    pub open spec fn t(content: Seq<char>) -> TermV {
        TermV { kind: TermKind::Terminal, content }
    }

    /// Textual rendering: terminals double-quoted with their content
    /// escaped, nonterminals wrapped in angle brackets.
    pub open spec fn render(self) -> Seq<char> {
        if self.kind == TermKind::Terminal {
            seq!['"'] + text::escape_seq(self.content) + seq!['"']
        } else {
            seq!['<'] + self.content + seq!['>']
        }
    }
}

/// A grammar symbol.
pub struct Term {
    pub kind: TermKind,
    pub content: String,
}

impl View for Term {
    type V = TermV;

    open spec fn view(&self) -> TermV {
        TermV { kind: self.kind, content: self.content@ }
    }
}

impl DeepView for Term {
    type V = TermV;

    open spec fn deep_view(&self) -> TermV {
        self.view()
    }
}

impl Clone for Term {
    fn clone(&self) -> (res: Self)
        ensures
            res == *self,
    {
        Term { kind: self.kind, content: self.content.clone() }
    }
}

impl PartialEq for Term {
    fn eq(&self, other: &Self) -> (res: bool) {
        self.kind == other.kind && self.content == other.content
    }
}

impl Eq for Term {

}

impl vstd::std_specs::cmp::PartialEqSpecImpl for Term {
    open spec fn obeys_eq_spec() -> bool {
        true
    }

    open spec fn eq_spec(&self, other: &Self) -> bool {
        self@ == other@
    }
}

impl Term {
    /// A terminal with the given content.
    pub fn terminal(content: &str) -> (t: Self)
        ensures
            t@ == TermV::t(content@),
    {
        Term { kind: TermKind::Terminal, content: content.to_owned() }
    }

    /// A nonterminal with the given name.
    pub fn nonterminal(content: &str) -> (t: Self)
        ensures
            t@ == TermV::nt(content@),
    {
        Term { kind: TermKind::Nonterminal, content: content.to_owned() }
    }

    /// The empty terminal.
    pub fn epsilon() -> (t: Self)
        ensures
            t@.is_eps(),
            t@ == TermV::t(Seq::<char>::empty()),
    {
        let t = Term::terminal("");
        proof {
            reveal_strlit("");
            assert(t@.content =~= Seq::<char>::empty());
        }
        t
    }

    /// First character of the content; for an atomic terminal this is the
    /// whole content.
    pub fn atomic_terminal_content(&self) -> (c: char)
        requires
            self@.content.len() >= 1,
        ensures
            c == self@.content[0],
    {
        self.content.as_str().get_char(0)
    }

    /// The content, for terminals only.
    pub fn terminal_content(&self) -> (r: Result<&String, Error>)
        ensures
            match r {
                Ok(s) => self@.is_terminal() && s@ == self@.content,
                Err(e) => self@.is_nonterminal() && e is NotATerminalError,
            },
    {
        match self.kind {
            TermKind::Terminal => Ok(&self.content),
            TermKind::Nonterminal => Err(
                Error::NotATerminalError(String::from_str("expected terminal but got nonterminal")),
            ),
        }
    }

    pub fn is_epsilon(&self) -> (r: bool)
        ensures
            r == self@.is_eps(),
    {
        self.kind == TermKind::Terminal && self.content.as_str().is_empty()
    }

    pub fn is_atomic_terminal(&self) -> (r: bool)
        ensures
            r == self@.is_atomic(),
    {
        self.kind == TermKind::Terminal && self.content.as_str().unicode_len() == 1
    }

    pub fn is_terminal(&self) -> (r: bool)
        ensures
            r == self@.is_terminal(),
    {
        self.kind == TermKind::Terminal
    }

    pub fn is_nonterminal(&self) -> (r: bool)
        ensures
            r == self@.is_nonterminal(),
    {
        self.kind == TermKind::Nonterminal
    }

    /// Splits a terminal into the ordered sequence of its single-character
    /// terminals; fails on a nonterminal.
    pub fn atomize(&self) -> (r: Result<Vec<Self>, Error>)
        ensures
            match r {
                Ok(v) => {
                    &&& self@.is_terminal()
                    &&& v@.len() == self@.content.len()
                    &&& forall|i: int|
                        0 <= i < v@.len() ==> (#[trigger] v@[i])@ == TermV::t(
                            seq![self@.content[i]],
                        )
                },
                Err(e) => self@.is_nonterminal() && e is NotATerminalError,
            },
    {
        match self.kind {
            TermKind::Terminal => {
                let n: usize = self.content.as_str().unicode_len();
                let mut v: Vec<Term> = Vec::new();
                let mut i: usize = 0;
                while i < n
                    invariant
                        self@.is_terminal(),
                        n == self@.content.len(),
                        i <= n,
                        v@.len() == i,
                        forall|j: int|
                            0 <= j < i ==> (#[trigger] v@[j])@ == TermV::t(
                                seq![self@.content[j]],
                            ),
                    decreases n - i,
                {
                    let c = self.content.as_str().get_char(i);
                    let mut s = String::new();
                    text::push_char(&mut s, c);
                    proof {
                        assert(s@ =~= seq![self@.content[i as int]]);
                    }
                    v.push(Term { kind: TermKind::Terminal, content: s });
                    i = i + 1;
                }
                Ok(v)
            },
            TermKind::Nonterminal => Err(
                Error::NotATerminalError(String::from_str("expected a terminal for atomization")),
            ),
        }
    }

    /// Appends the textual rendering of this term to `out`.
    pub fn render_into(&self, out: &mut String)
        ensures
            final(out)@ == old(out)@ + self@.render(),
    {
        match self.kind {
            TermKind::Terminal => {
                text::push_char(out, '"');
                text::push_escaped(out, self.content.as_str());
                text::push_char(out, '"');
            },
            TermKind::Nonterminal => {
                text::push_char(out, '<');
                text::push_str_plain(out, self.content.as_str());
                text::push_char(out, '>');
            },
        }
        assert(final(out)@ =~= old(out)@ + self@.render());
    }

    /// The textual rendering of this term.
    pub fn to_text(&self) -> (r: String)
        ensures
            r@ == self@.render(),
    {
        let mut out = String::new();
        self.render_into(&mut out);
        proof {
            assert(out@ =~= self@.render());
        }
        out
    }
}

} // verus!

//! The grammar: an ordered list of collapsed rules whose first rule defines
//! the start symbol, together with its builder and its normalization.
use crate::alternatives::{clone_terms, dedup_alts, term_eq};
use crate::error::Error;
use crate::rule::{render_rule, Rule, RuleV};
use crate::term::{Term, TermKind, TermV};
use crate::text;
use vstd::prelude::*;

verus! {

/// The sort key of a rule: the rendering of its left-hand side.
pub open spec fn rule_key(r: RuleV) -> Seq<char> {
    r.lhs.render()
}

/// Stable insertion of a rule into a list sorted by [`rule_key`]: the rule
/// goes after every element whose key is not greater than its own.
pub open spec fn insert_rule(x: RuleV, s: Seq<RuleV>) -> Seq<RuleV>
    decreases s.len(),
{
    if s.len() == 0 {
        seq![x]
    } else if text::lex_lt(rule_key(x), rule_key(s.last())) {
        insert_rule(x, s.drop_last()).push(s.last())
    } else {
        s.push(x)
    }
}

/// Stable insertion sort of rules by [`rule_key`].
pub open spec fn sort_rules(s: Seq<RuleV>) -> Seq<RuleV>
    decreases s.len(),
{
    if s.len() == 0 {
        Seq::empty()
    } else {
        insert_rule(s.last(), sort_rules(s.drop_last()))
    }
}

/// Folding a rule list from the left, merging each rule into its
/// predecessor when the two share a left-hand side.
pub open spec fn fold_rules(s: Seq<RuleV>) -> Seq<RuleV>
    decreases s.len(),
{
    if s.len() == 0 {
        Seq::empty()
    } else {
        let p = fold_rules(s.drop_last());
        if p.len() > 0 && p.last().lhs == s.last().lhs {
            p.update(
                p.len() - 1,
                RuleV { lhs: p.last().lhs, alts: dedup_alts(p.last().alts + s.last().alts) },
            )
        } else {
            p.push(s.last())
        }
    }
}

/// Index of the first rule with the given left-hand side.
pub open spec fn find_lhs(s: Seq<RuleV>, lhs: TermV) -> Option<int>
    decreases s.len(),
{
    if s.len() == 0 {
        None
    } else if s[0].lhs == lhs {
        Some(0int)
    } else {
        match find_lhs(s.drop_first(), lhs) {
            Some(i) => Some(i + 1),
            None => None,
        }
    }
}

/// What the builder makes of a rule list: sort by key, merge rules sharing
/// a left-hand side, and move the rule of the first given left-hand side to
/// the front by one swap.
pub open spec fn collapse_spec(rs: Seq<RuleV>) -> Seq<RuleV> {
    if rs.len() == 0 {
        rs
    } else {
        let folded = fold_rules(sort_rules(rs));
        match find_lhs(folded, rs[0].lhs) {
            Some(i) => folded.update(0, folded[i]).update(i, folded[0]),
            None => folded,
        }
    }
}

pub proof fn lemma_find_lhs_characterization(s: Seq<RuleV>, lhs: TermV)
    ensures
        match find_lhs(s, lhs) {
            Some(i) => 0 <= i < s.len() && s[i].lhs == lhs && (forall|j: int|
                0 <= j < i ==> s[j].lhs != lhs),
            None => forall|j: int| 0 <= j < s.len() ==> s[j].lhs != lhs,
        },
    decreases s.len(),
{
    if s.len() > 0 && s[0].lhs != lhs {
        let d = s.drop_first();
        lemma_find_lhs_characterization(d, lhs);
        match find_lhs(d, lhs) {
            Some(i) => {
                assert(find_lhs(s, lhs) == Some(i + 1));
                assert(d[i] == s[i + 1]);
                assert forall|j: int| 0 <= j < i + 1 implies s[j].lhs != lhs by {
                    if j > 0 {
                        assert(d[j - 1] == s[j]);
                    }
                }
            },
            None => {
                assert forall|j: int| 0 <= j < s.len() implies s[j].lhs != lhs by {
                    if j > 0 {
                        assert(d[j - 1] == s[j]);
                    }
                }
            },
        }
    }
}

/// A copy of a rule list.
pub fn clone_rules(v: &Vec<Rule>) -> (r: Vec<Rule>)
    ensures
        r.deep_view() == v.deep_view(),
        r@.len() == v@.len(),
{
    let n: usize = v.len();
    let mut r: Vec<Rule> = Vec::new();
    let mut i: usize = 0;
    while i < n
        invariant
            n == v@.len(),
            i <= n,
            r@.len() == i,
            forall|j: int| 0 <= j < i ==> r.deep_view()[j] == v.deep_view()[j],
        decreases n - i,
    {
        r.push(v[i].clone());
        i = i + 1;
    }
    proof {
        assert(r.deep_view() =~= v.deep_view());
    }
    r
}

proof fn lemma_insert_rule_at(x: RuleV, s: Seq<RuleV>, p: int)
    requires
        0 <= p <= s.len(),
        forall|j: int| p <= j < s.len() ==> text::lex_lt(rule_key(x), rule_key(#[trigger] s[j])),
        p > 0 ==> !text::lex_lt(rule_key(x), rule_key(s[p - 1])),
    ensures
        insert_rule(x, s) == s.take(p).push(x) + s.skip(p),
    decreases s.len(),
{
    if s.len() == 0 {
        assert(insert_rule(x, s) =~= s.take(p).push(x) + s.skip(p));
    } else if p == s.len() {
        assert(insert_rule(x, s) == s.push(x));
        assert(s.push(x) =~= s.take(p).push(x) + s.skip(p));
    } else {
        assert(text::lex_lt(rule_key(x), rule_key(s.last()))) by {
            assert(s[s.len() - 1] == s.last());
        }
        lemma_insert_rule_at(x, s.drop_last(), p);
        assert(s.drop_last().take(p) =~= s.take(p));
        assert(insert_rule(x, s) == (s.drop_last().take(p).push(x) + s.drop_last().skip(p)).push(
            s.last(),
        ));
        assert((s.take(p).push(x) + s.drop_last().skip(p)).push(s.last()) =~= s.take(p).push(x)
            + s.skip(p));
    }
}

/// Inserts `x` into `out`, which is sorted by key, after every element with
/// a key not above its own.
fn insert_rule_exec(out: &mut Vec<Rule>, x: Rule)
    ensures
        final(out).deep_view() == insert_rule(x@, old(out).deep_view()),
{
    let key = x.lhs.to_text();
    let mut pos: usize = out.len();
    loop
        invariant
            pos <= out@.len(),
            key@ == rule_key(x@),
            out@ == old(out)@,
            forall|j: int|
                pos <= j < out@.len() ==> text::lex_lt(
                    rule_key(x@),
                    rule_key(#[trigger] out.deep_view()[j]),
                ),
        ensures
            pos <= out@.len(),
            out@ == old(out)@,
            forall|j: int|
                pos <= j < out@.len() ==> text::lex_lt(
                    rule_key(x@),
                    rule_key(#[trigger] out.deep_view()[j]),
                ),
            pos > 0 ==> !text::lex_lt(rule_key(x@), rule_key(out.deep_view()[pos - 1])),
        decreases pos,
    {
        if pos == 0 {
            break;
        }
        let prev = out[pos - 1].lhs.to_text();
        if !text::str_lex_lt(key.as_str(), prev.as_str()) {
            break;
        }
        pos = pos - 1;
    }
    proof {
        lemma_insert_rule_at(x@, out.deep_view(), pos as int);
    }
    out.insert(pos, x);
    proof {
        assert(out.deep_view() =~= old(out).deep_view().take(pos as int).push(x@) + old(
            out,
        ).deep_view().skip(pos as int));
    }
}

/// The grammar that a builder produces: rules collapsed by left-hand side,
/// the start rule first.
pub struct Grammar {
    pub rules: Vec<Rule>,
}

impl View for Grammar {
    type V = Seq<RuleV>;

    open spec fn view(&self) -> Seq<RuleV> {
        self.rules.deep_view()
    }
}

impl Clone for Grammar {
    fn clone(&self) -> (res: Self)
        ensures
            res@ == self@,
    {
        Grammar { rules: clone_rules(&self.rules) }
    }
}

/// Collects rules and builds a [`Grammar`] from them.
pub struct GrammarBuilder {
    pub rules: Vec<Rule>,
}

impl View for GrammarBuilder {
    type V = Seq<RuleV>;

    open spec fn view(&self) -> Seq<RuleV> {
        self.rules.deep_view()
    }
}

impl Default for GrammarBuilder {
    fn default() -> (r: Self)
        ensures
            r@ == Seq::<RuleV>::empty(),
    {
        let r = GrammarBuilder { rules: Vec::new() };
        proof {
            assert(r@ =~= Seq::<RuleV>::empty());
        }
        r
    }
}

impl GrammarBuilder {
    /// Appends one rule.
    pub fn rule(self, rule: Rule) -> (r: Self)
        ensures
            r@ == self@.push(rule@),
    {
        let ghost orig = self@;
        let mut rules = self.rules;
        rules.push(rule);
        let r = GrammarBuilder { rules };
        proof {
            assert(r@ =~= orig.push(r.rules@.last()@));
        }
        r
    }

    /// Appends a list of rules.
    pub fn rules(self, rules: &[Rule]) -> (r: Self)
        ensures
            r@ == self@ + rules.deep_view(),
    {
        let ghost orig = self@;
        let mut acc = self.rules;
        let n: usize = rules.len();
        let mut i: usize = 0;
        while i < n
            invariant
                n == rules@.len(),
                i <= n,
                acc@.len() == orig.len() + i,
                forall|j: int| 0 <= j < orig.len() ==> acc.deep_view()[j] == orig[j],
                forall|j: int|
                    0 <= j < i ==> acc.deep_view()[orig.len() + j] == rules.deep_view()[j],
            decreases n - i,
        {
            let x = rules[i].clone();
            proof {
                assert(x@ == rules.deep_view()[i as int]);
            }
            acc.push(x);
            i = i + 1;
        }
        let r = GrammarBuilder { rules: acc };
        proof {
            assert(r@ =~= orig + rules.deep_view());
        }
        r
    }

    /// Sorts the rules by their left-hand side's rendering, merges
    /// neighbours sharing a left-hand side, and swaps the rule of the start
    /// symbol (the first given left-hand side) to the front.
    fn collapse(rules: Vec<Rule>) -> (r: Vec<Rule>)
        ensures
            r.deep_view() == collapse_spec(rules.deep_view()),
    {
        if rules.len() == 0 {
            return rules;
        }
        let ghost rs = rules.deep_view();
        let start_lhs = rules[0].lhs.clone();
        // stable insertion sort by key
        let mut sorted: Vec<Rule> = Vec::new();
        let n: usize = rules.len();
        let mut i: usize = 0;
        while i < n
            invariant
                n == rules@.len(),
                rs == rules.deep_view(),
                i <= n,
                sorted.deep_view() == sort_rules(rs.take(i as int)),
            decreases n - i,
        {
            proof {
                assert(rs.take(i as int + 1).drop_last() =~= rs.take(i as int));
                assert(rs.take(i as int + 1).last() == rs[i as int]);
            }
            insert_rule_exec(&mut sorted, rules[i].clone());
            i = i + 1;
        }
        proof {
            assert(rs.take(n as int) =~= rs);
        }
        // fold neighbours that share a left-hand side
        let ghost sv = sorted.deep_view();
        let mut folded: Vec<Rule> = Vec::new();
        let m: usize = sorted.len();
        let mut k: usize = 0;
        while k < m
            invariant
                m == sorted@.len(),
                sv == sorted.deep_view(),
                k <= m,
                folded.deep_view() == fold_rules(sv.take(k as int)),
            decreases m - k,
        {
            proof {
                assert(sv.take(k as int + 1).drop_last() =~= sv.take(k as int));
                assert(sv.take(k as int + 1).last() == sv[k as int]);
            }
            let flen = folded.len();
            if flen > 0 && term_eq(&folded[flen - 1].lhs, &sorted[k].lhs) {
                let merged = folded[flen - 1].merge(&sorted[k]);
                let popped = folded.pop();
                assert(popped is Some);
                folded.push(merged);
                proof {
                    let p = fold_rules(sv.take(k as int));
                    assert(folded.deep_view() =~= p.update(
                        p.len() - 1,
                        RuleV {
                            lhs: p.last().lhs,
                            alts: dedup_alts(p.last().alts + sv[k as int].alts),
                        },
                    ));
                }
            } else {
                let x = sorted[k].clone();
                folded.push(x);
                proof {
                    assert(folded.deep_view() =~= fold_rules(sv.take(k as int)).push(
                        sv[k as int],
                    ));
                }
            }
            k = k + 1;
        }
        proof {
            assert(sv.take(m as int) =~= sv);
        }
        // swap the start rule to the front
        let ghost fv = folded.deep_view();
        let flen2: usize = folded.len();
        let mut idx_opt: Option<usize> = None;
        let mut j: usize = 0;
        while j < flen2 && idx_opt.is_none()
            invariant
                flen2 == folded@.len(),
                fv == folded.deep_view(),
                j <= flen2,
                match idx_opt {
                    Some(idx) => j == idx + 1 && idx < flen2 && fv[idx as int].lhs
                        == rs[0].lhs && (forall|t: int| 0 <= t < idx ==> fv[t].lhs != rs[0].lhs),
                    None => forall|t: int| 0 <= t < j ==> fv[t].lhs != rs[0].lhs,
                },
                start_lhs@ == rs[0].lhs,
            decreases flen2 - j,
        {
            if term_eq(&folded[j].lhs, &start_lhs) {
                idx_opt = Some(j);
            }
            j = j + 1;
        }
        proof {
            lemma_find_lhs_characterization(fv, rs[0].lhs);
        }
        match idx_opt {
            Some(idx) => {
                proof {
                    assert(find_lhs(fv, rs[0].lhs) == Some(idx as int));
                }
                let first = folded[0].clone();
                let at_idx = folded[idx].clone();
                let mut swapped: Vec<Rule> = Vec::new();
                let mut t: usize = 0;
                let ghost target = fv.update(0, fv[idx as int]).update(idx as int, fv[0]);
                while t < flen2
                    invariant
                        flen2 == folded@.len(),
                        fv == folded.deep_view(),
                        idx < flen2,
                        t <= flen2,
                        swapped@.len() == t,
                        first@ == fv[0],
                        at_idx@ == fv[idx as int],
                        target == fv.update(0, fv[idx as int]).update(idx as int, fv[0]),
                        forall|u: int| 0 <= u < t ==> swapped.deep_view()[u] == target[u],
                    decreases flen2 - t,
                {
                    if t == 0 {
                        swapped.push(at_idx.clone());
                    } else if t == idx {
                        swapped.push(first.clone());
                    } else {
                        let y = folded[t].clone();
                        swapped.push(y);
                    }
                    t = t + 1;
                }
                proof {
                    assert(swapped.deep_view() =~= target);
                }
                swapped
            },
            None => {
                proof {
                    assert(find_lhs(fv, rs[0].lhs) is None);
                }
                folded
            },
        }
    }

    /// Builds the grammar: fails exactly on an empty rule list, and
    /// otherwise collapses the rules as [`collapse_spec`] describes.
    pub fn build(self) -> (r: Result<Grammar, Error>)
        ensures
            match r {
                Ok(g) => self@.len() > 0 && g@ == collapse_spec(self@),
                Err(e) => self@.len() == 0 && e is EmptyGrammarError,
            },
    {
        if self.rules.len() == 0 {
            return Err(
                Error::EmptyGrammarError(
                    String::from_str(
                        "cannot find starting symbol, a grammar requires at least one production rule",
                    ),
                ),
            );
        }
        let collapsed = Self::collapse(self.rules);
        Ok(Grammar { rules: collapsed })
    }
}

impl Grammar {
    /// A fresh builder with no rules.
    pub fn builder() -> (r: GrammarBuilder)
        ensures
            r@ == Seq::<RuleV>::empty(),
    {
        GrammarBuilder::default()
    }

    /// Index of the first rule whose left-hand side equals `lhs`.
    pub fn rule_index(&self, lhs: &Term) -> (r: Option<usize>)
        ensures
            match r {
                Some(i) => i < self@.len() && self@[i as int].lhs == lhs@ && (forall|j: int|
                    0 <= j < i ==> self@[j].lhs != lhs@),
                None => forall|j: int| 0 <= j < self@.len() ==> self@[j].lhs != lhs@,
            },
    {
        let n: usize = self.rules.len();
        let mut i: usize = 0;
        while i < n
            invariant
                n == self@.len(),
                i <= n,
                forall|j: int| 0 <= j < i ==> self@[j].lhs != lhs@,
            decreases n - i,
        {
            if term_eq(&self.rules[i].lhs, lhs) {
                return Some(i);
            }
            i = i + 1;
        }
        None
    }

    /// Appends the textual rendering of the grammar to `out`: the rules'
    /// renderings joined by single newlines.
    pub fn render_into(&self, out: &mut String)
        ensures
            final(out)@ == old(out)@ + render_grammar(self@),
    {
        let n: usize = self.rules.len();
        let mut i: usize = 0;
        while i < n
            invariant
                n == self@.len(),
                i <= n,
                out@ == old(out)@ + text::join(
                    self@.take(i as int).map_values(|r: RuleV| render_rule(r)),
                    seq!['\n'],
                ),
            decreases n - i,
        {
            if i > 0 {
                text::push_char(out, '\n');
            }
            self.rules[i].render_into(out);
            proof {
                let rv = self@[i as int];
                assert(self@.take(i as int + 1) =~= self@.take(i as int).push(rv));
                text::lemma_join_push(
                    self@.take(i as int).map_values(|r: RuleV| render_rule(r)),
                    render_rule(rv),
                    seq!['\n'],
                );
                assert(self@.take(i as int + 1).map_values(|r: RuleV| render_rule(r)) =~= self@.take(
                    i as int,
                ).map_values(|r: RuleV| render_rule(r)).push(render_rule(rv)));
                assert(out@ =~= old(out)@ + text::join(
                    self@.take(i as int + 1).map_values(|r: RuleV| render_rule(r)),
                    seq!['\n'],
                ));
            }
            i = i + 1;
        }
        proof {
            assert(self@.take(n as int) =~= self@);
        }
    }

    /// The textual rendering of the grammar.
    pub fn to_text(&self) -> (r: String)
        ensures
            r@ == render_grammar(self@),
    {
        let mut out = String::new();
        self.render_into(&mut out);
        proof {
            assert(out@ =~= render_grammar(self@));
        }
        out
    }
}

/// The textual rendering of a grammar: its rules joined by newlines.
pub open spec fn render_grammar(g: Seq<RuleV>) -> Seq<char> {
    text::join(g.map_values(|r: RuleV| render_rule(r)), seq!['\n'])
}

/// What atomization makes of one term: nonterminals, single-character
/// terminals and the empty terminal pass through; any other terminal is
/// split into its single-character terminals.
pub open spec fn atomize_term(t: TermV) -> Seq<TermV> {
    if t.is_nonterminal() || t.is_atomic() || t.is_eps() {
        seq![t]
    } else {
        Seq::new(t.content.len(), |i: int| TermV::t(seq![t.content[i]]))
    }
}

/// Atomization of a whole alternative: each term replaced by its split,
/// in order.
pub open spec fn atomize_alt(alt: Seq<TermV>) -> Seq<TermV>
    decreases alt.len(),
{
    if alt.len() == 0 {
        Seq::empty()
    } else {
        atomize_term(alt[0]) + atomize_alt(alt.drop_first())
    }
}

pub proof fn lemma_atomize_alt_push(alt: Seq<TermV>, t: TermV)
    ensures
        atomize_alt(alt.push(t)) == atomize_alt(alt) + atomize_term(t),
    decreases alt.len(),
{
    if alt.len() == 0 {
        assert(alt =~= Seq::<TermV>::empty());
        assert(alt.push(t)[0] == t);
        assert(alt.push(t).drop_first() =~= Seq::<TermV>::empty());
        assert(atomize_alt(alt.push(t)) == atomize_term(t) + atomize_alt(Seq::<TermV>::empty()));
        assert(atomize_alt(alt.push(t)) =~= atomize_alt(alt) + atomize_term(t));
    } else {
        assert(alt.push(t).drop_first() =~= alt.drop_first().push(t));
        lemma_atomize_alt_push(alt.drop_first(), t);
        assert(atomize_alt(alt.push(t)) =~= atomize_alt(alt) + atomize_term(t));
    }
}

/// Atomization of a rule: the alternatives are atomized, the left-hand
/// side stays.
pub open spec fn atomize_rule(r: RuleV) -> RuleV {
    RuleV { lhs: r.lhs, alts: r.alts.map_values(|a: Seq<TermV>| atomize_alt(a)) }
}

/// Atomization of a whole grammar.
pub open spec fn atomize_grammar(g: Seq<RuleV>) -> Seq<RuleV> {
    g.map_values(|r: RuleV| atomize_rule(r))
}

/// Every element of the alternative already passes atomization unchanged.
pub open spec fn alt_is_atomized(alt: Seq<TermV>) -> bool {
    forall|i: int|
        0 <= i < alt.len() ==> (#[trigger] alt[i]).is_nonterminal() || alt[i].is_atomic()
            || alt[i].is_eps()
}

proof fn lemma_atomize_alt_of_atomized(alt: Seq<TermV>)
    requires
        alt_is_atomized(alt),
    ensures
        atomize_alt(alt) == alt,
    decreases alt.len(),
{
    if alt.len() == 0 {
        assert(atomize_alt(alt) =~= alt);
    } else {
        assert(alt[0].is_nonterminal() || alt[0].is_atomic() || alt[0].is_eps());
        assert(forall|i: int|
            0 <= i < alt.drop_first().len() ==> #[trigger] alt.drop_first()[i] == alt[i + 1]);
        lemma_atomize_alt_of_atomized(alt.drop_first());
        assert(atomize_alt(alt) =~= alt);
    }
}

pub proof fn lemma_atomize_alt_atomizes(alt: Seq<TermV>)
    ensures
        alt_is_atomized(atomize_alt(alt)),
    decreases alt.len(),
{
    if alt.len() > 0 {
        lemma_atomize_alt_atomizes(alt.drop_first());
        let head = atomize_term(alt[0]);
        assert forall|i: int| 0 <= i < head.len() implies (#[trigger] head[i]).is_nonterminal()
            || head[i].is_atomic() || head[i].is_eps() by {
            if !(alt[0].is_nonterminal() || alt[0].is_atomic() || alt[0].is_eps()) {
                assert(head[i] == TermV::t(seq![alt[0].content[i]]));
            }
        }
        assert forall|i: int|
            0 <= i < atomize_alt(alt).len() implies (#[trigger] atomize_alt(
            alt,
        )[i]).is_nonterminal() || atomize_alt(alt)[i].is_atomic() || atomize_alt(alt)[i].is_eps()
        by {
            if i < head.len() {
                assert(atomize_alt(alt)[i] == head[i]);
            } else {
                assert(atomize_alt(alt)[i] == atomize_alt(alt.drop_first())[i - head.len()]);
            }
        }
    }
}

/// Atomization is idempotent: normalizing a normalized grammar changes
/// nothing.
pub proof fn lemma_atomize_idempotent(g: Seq<RuleV>)
    ensures
        atomize_grammar(atomize_grammar(g)) == atomize_grammar(g),
{
    let once = atomize_grammar(g);
    assert forall|r: int| 0 <= r < once.len() implies #[trigger] atomize_grammar(once)[r]
        == once[r] by {
        let rv = g[r];
        assert(once[r] == atomize_rule(rv));
        let alts = atomize_rule(rv).alts;
        assert forall|a: int| 0 <= a < alts.len() implies #[trigger] atomize_alt(alts[a])
            == alts[a] by {
            assert(alts[a] == atomize_alt(rv.alts[a]));
            lemma_atomize_alt_atomizes(rv.alts[a]);
            lemma_atomize_alt_of_atomized(atomize_alt(rv.alts[a]));
        }
        assert(atomize_rule(once[r]).alts =~= alts);
    }
    assert(atomize_grammar(once) =~= once);
}

impl Grammar {
    /// Rewrites every right-hand side so that each element is a
    /// nonterminal, an atomic terminal, or the empty terminal.
    pub fn atomize_terminals(&mut self)
        ensures
            final(self)@ == atomize_grammar(old(self)@),
    {
        let n: usize = self.rules.len();
        let mut new_rules: Vec<Rule> = Vec::new();
        let mut i: usize = 0;
        while i < n
            invariant
                n == self@.len(),
                self@ == old(self)@,
                i <= n,
                new_rules@.len() == i,
                forall|r: int|
                    0 <= r < i ==> new_rules.deep_view()[r] == atomize_rule(#[trigger] self@[r]),
            decreases n - i,
        {
            let rule = &self.rules[i];
            let ghost rv = self@[i as int];
            let m: usize = rule.rhs.alternatives.len();
            let mut new_alts: Vec<Vec<Term>> = Vec::new();
            let mut j: usize = 0;
            while j < m
                invariant
                    m == rv.alts.len(),
                    rule@ == rv,
                    j <= m,
                    new_alts@.len() == j,
                    forall|a: int|
                        0 <= a < j ==> new_alts.deep_view()[a] == atomize_alt(
                            #[trigger] rv.alts[a],
                        ),
                decreases m - j,
            {
                let alt = &rule.rhs.alternatives[j];
                let ghost av = rv.alts[j as int];
                let p: usize = alt.len();
                let mut new_alt: Vec<Term> = Vec::new();
                let mut k: usize = 0;
                while k < p
                    invariant
                        p == av.len(),
                        alt.deep_view() == av,
                        k <= p,
                        new_alt.deep_view() == atomize_alt(av.take(k as int)),
                    decreases p - k,
                {
                    proof {
                        assert(av.take(k as int + 1) =~= av.take(k as int).push(av[k as int]));
                        lemma_atomize_alt_push(av.take(k as int), av[k as int]);
                    }
                    let t = &alt[k];
                    if t.is_nonterminal() || t.is_atomic_terminal() || t.is_epsilon() {
                        new_alt.push(t.clone());
                        proof {
                            assert(atomize_term(av[k as int]) =~= seq![av[k as int]]);
                            assert(new_alt.deep_view() =~= atomize_alt(av.take(k as int)).push(
                                av[k as int],
                            ));
                        }
                    } else {
                        proof {
                            assert(t@ == av[k as int]);
                            assert(atomize_term(av[k as int]) == Seq::new(
                                av[k as int].content.len(),
                                |w: int| TermV::t(seq![av[k as int].content[w]]),
                            ));
                        }
                        match t.atomize() {
                            Ok(pieces) => {
                                let q: usize = pieces.len();
                                let mut u: usize = 0;
                                while u < q
                                    invariant
                                        q == pieces@.len(),
                                        q == av[k as int].content.len(),
                                        k < p == av.len(),
                                        u <= q,
                                        atomize_term(av[k as int]) == Seq::new(
                                            av[k as int].content.len(),
                                            |w: int| TermV::t(seq![av[k as int].content[w]]),
                                        ),
                                        forall|w: int|
                                            0 <= w < q ==> (#[trigger] pieces@[w])@ == TermV::t(
                                                seq![av[k as int].content[w]],
                                            ),
                                        new_alt.deep_view() == atomize_alt(av.take(k as int))
                                            + atomize_term(av[k as int]).take(u as int),
                                    decreases q - u,
                                {
                                    new_alt.push(pieces[u].clone());
                                    proof {
                                        assert(atomize_term(av[k as int])[u as int] == (pieces@[u as int])@);
                                        assert(atomize_term(av[k as int]).take(u as int + 1)
                                            =~= atomize_term(av[k as int]).take(u as int).push(
                                            atomize_term(av[k as int])[u as int],
                                        ));
                                        assert(new_alt.deep_view() =~= (atomize_alt(
                                            av.take(k as int),
                                        ) + atomize_term(av[k as int]).take(u as int)).push(
                                            (pieces@[u as int])@,
                                        ));
                                        assert(new_alt.deep_view() =~= atomize_alt(
                                            av.take(k as int),
                                        ) + atomize_term(av[k as int]).take(u as int + 1));
                                    }
                                    u = u + 1;
                                }
                                proof {
                                    assert(atomize_term(av[k as int]).take(q as int)
                                        =~= atomize_term(av[k as int]));
                                }
                            },
                            Err(_) => {
                                proof {
                                    assert(false);
                                }
                            },
                        }
                    }
                    k = k + 1;
                }
                proof {
                    assert(av.take(p as int) =~= av);
                }
                new_alts.push(new_alt);
                proof {
                    assert(new_alts.deep_view()[j as int] == atomize_alt(rv.alts[j as int]));
                }
                j = j + 1;
            }
            let lhs = rule.lhs.clone();
            new_rules.push(Rule { lhs, rhs: crate::alternatives::Alternatives { alternatives: new_alts } });
            proof {
                assert(new_rules.deep_view()[i as int].alts =~= atomize_rule(rv).alts);
                assert(new_rules.deep_view()[i as int] =~= atomize_rule(rv));
            }
            i = i + 1;
        }
        self.rules = new_rules;
        proof {
            assert(self@ =~= atomize_grammar(old(self)@));
        }
    }
}

// ---------------------------------------------------------------------
// The collapse law: what `build` guarantees about rules sharing a
// left-hand side.
// ---------------------------------------------------------------------
proof fn lemma_char_cast_injective(c1: char, c2: char)
    requires
        c1 as u32 == c2 as u32,
    ensures
        c1 == c2,
{
}

proof fn lemma_lex_lt_irrefl(a: Seq<char>)
    ensures
        !text::lex_lt(a, a),
    decreases a.len(),
{
    if a.len() > 0 {
        lemma_lex_lt_irrefl(a.drop_first());
    }
}

proof fn lemma_lex_lt_trans(a: Seq<char>, b: Seq<char>, c: Seq<char>)
    requires
        text::lex_lt(a, b),
        text::lex_lt(b, c),
    ensures
        text::lex_lt(a, c),
    decreases a.len() + b.len() + c.len(),
{
    if c.len() == 0 {
        assert(false);
    } else if b.len() == 0 {
        assert(false);
    } else if a.len() == 0 {
    } else {
        if a[0] == b[0] && b[0] == c[0] {
            lemma_lex_lt_trans(a.drop_first(), b.drop_first(), c.drop_first());
        }
    }
}

proof fn lemma_lex_lt_total(a: Seq<char>, b: Seq<char>)
    ensures
        text::lex_lt(a, b) || text::lex_lt(b, a) || a == b,
    decreases a.len(),
{
    if a.len() == 0 && b.len() == 0 {
        assert(a =~= b);
    } else if a.len() > 0 && b.len() > 0 {
        if a[0] == b[0] {
            lemma_lex_lt_total(a.drop_first(), b.drop_first());
            if a.drop_first() == b.drop_first() {
                assert forall|i: int| 0 <= i < a.len() implies a[i] == b[i] by {
                    if i > 0 {
                        assert(a.drop_first()[i - 1] == a[i]);
                        assert(b.drop_first()[i - 1] == b[i]);
                    }
                }
                assert(a =~= b);
            }
        } else {
            if (a[0] as u32) == (b[0] as u32) {
                lemma_char_cast_injective(a[0], b[0]);
            }
            assert((a[0] as u32) < (b[0] as u32) || (b[0] as u32) < (a[0] as u32));
        }
    }
}

proof fn lemma_lex_lt_asym(a: Seq<char>, b: Seq<char>)
    requires
        text::lex_lt(a, b),
    ensures
        !text::lex_lt(b, a),
{
    if text::lex_lt(b, a) {
        lemma_lex_lt_trans(a, b, a);
        lemma_lex_lt_irrefl(a);
    }
}

/// Two nonterminals that render alike are one.
proof fn lemma_render_nt_injective(a: TermV, b: TermV)
    requires
        a.is_nonterminal(),
        b.is_nonterminal(),
        a.render() == b.render(),
    ensures
        a == b,
{
    let ra = a.render();
    let rb = b.render();
    assert(ra.len() == a.content.len() + 2);
    assert(rb.len() == b.content.len() + 2);
    assert forall|i: int| 0 <= i < a.content.len() implies a.content[i] == b.content[i] by {
        assert(ra[i + 1] == a.content[i]);
        assert(rb[i + 1] == b.content[i]);
    }
    assert(a.content =~= b.content);
}
/// The alternatives the input offers for one left-hand side, concatenated
/// in input order.
pub open spec fn gathered_alts(rs: Seq<RuleV>, lhs: TermV) -> Seq<Seq<TermV>>
    decreases rs.len(),
{
    if rs.len() == 0 {
        Seq::empty()
    } else {
        gathered_alts(rs.drop_last(), lhs) + if rs.last().lhs == lhs {
            rs.last().alts
        } else {
            Seq::empty()
        }
    }
}

/// The input rules carrying one left-hand side, in input order.
pub open spec fn group_rules(rs: Seq<RuleV>, lhs: TermV) -> Seq<RuleV>
    decreases rs.len(),
{
    if rs.len() == 0 {
        Seq::empty()
    } else if rs.last().lhs == lhs {
        group_rules(rs.drop_last(), lhs).push(rs.last())
    } else {
        group_rules(rs.drop_last(), lhs)
    }
}

/// Whether some rule of the list carries the left-hand side.
pub open spec fn lhs_in(rs: Seq<RuleV>, lhs: TermV) -> bool {
    exists|i: int| 0 <= i < rs.len() && rs[i].lhs == lhs
}

proof fn lemma_gathered_push(rs: Seq<RuleV>, x: RuleV, lhs: TermV)
    ensures
        gathered_alts(rs.push(x), lhs) == gathered_alts(rs, lhs) + if x.lhs == lhs {
            x.alts
        } else {
            Seq::<Seq<TermV>>::empty()
        },
        group_rules(rs.push(x), lhs) == if x.lhs == lhs {
            group_rules(rs, lhs).push(x)
        } else {
            group_rules(rs, lhs)
        },
{
    assert(rs.push(x).drop_last() =~= rs);
    assert(rs.push(x).last() == x);
}

proof fn lemma_lhs_in_drop_last(rs: Seq<RuleV>, lhs: TermV)
    requires
        rs.len() > 0,
    ensures
        lhs_in(rs, lhs) <==> (lhs_in(rs.drop_last(), lhs) || rs.last().lhs == lhs),
{
    if lhs_in(rs, lhs) {
        let i = choose|i: int| 0 <= i < rs.len() && rs[i].lhs == lhs;
        if i < rs.len() - 1 {
            assert(rs.drop_last()[i] == rs[i]);
        }
    }
    if lhs_in(rs.drop_last(), lhs) {
        let i = choose|i: int| 0 <= i < rs.drop_last().len() && rs.drop_last()[i].lhs == lhs;
        assert(rs[i].lhs == lhs);
    }
    if rs.last().lhs == lhs {
        assert(rs[rs.len() - 1].lhs == lhs);
    }
}

proof fn lemma_gathered_absent(rs: Seq<RuleV>, lhs: TermV)
    requires
        !lhs_in(rs, lhs),
    ensures
        gathered_alts(rs, lhs) == Seq::<Seq<TermV>>::empty(),
        group_rules(rs, lhs) == Seq::<RuleV>::empty(),
    decreases rs.len(),
{
    if rs.len() > 0 {
        lemma_lhs_in_drop_last(rs, lhs);
        lemma_gathered_absent(rs.drop_last(), lhs);
        assert(gathered_alts(rs, lhs) =~= Seq::<Seq<TermV>>::empty());
    }
}

/// Inserting a rule keeps the gathered alternatives of every left-hand
/// side, appending the new rule's own at the end of its group.
proof fn lemma_insert_gathered(x: RuleV, s: Seq<RuleV>, lhs: TermV)
    ensures
        gathered_alts(insert_rule(x, s), lhs) == gathered_alts(s, lhs) + if x.lhs == lhs {
            x.alts
        } else {
            Seq::<Seq<TermV>>::empty()
        },
        group_rules(insert_rule(x, s), lhs) == if x.lhs == lhs {
            group_rules(s, lhs).push(x)
        } else {
            group_rules(s, lhs)
        },
    decreases s.len(),
{
    if s.len() == 0 || !text::lex_lt(rule_key(x), rule_key(s.last())) {
        if s.len() == 0 {
            assert(insert_rule(x, s) =~= s.push(x));
        }
        assert(insert_rule(x, s) == s.push(x));
        lemma_gathered_push(s, x, lhs);
    } else {
        let d = s.drop_last();
        let last = s.last();
        lemma_insert_gathered(x, d, lhs);
        lemma_gathered_push(insert_rule(x, d), last, lhs);
        // x and the element it moved past cannot share a left-hand side
        if x.lhs == last.lhs {
            lemma_lex_lt_irrefl(rule_key(x));
            assert(rule_key(x) == rule_key(last));
            assert(false);
        }
        assert(s =~= d.push(last));
        lemma_gathered_push(d, last, lhs);
        let a = insert_rule(x, d);
        assert(insert_rule(x, s) == a.push(last));
        lemma_gathered_push(a, last, lhs);
        if x.lhs == lhs {
            assert(last.lhs != lhs);
            assert(gathered_alts(insert_rule(x, s), lhs) =~= gathered_alts(s, lhs) + x.alts);
            assert(group_rules(a, lhs) == group_rules(d, lhs).push(x));
            assert(group_rules(insert_rule(x, s), lhs) == group_rules(a, lhs));
            assert(group_rules(s, lhs) == group_rules(d, lhs));
            assert(group_rules(insert_rule(x, s), lhs) =~= group_rules(s, lhs).push(x));
        } else if last.lhs == lhs {
            assert(gathered_alts(insert_rule(x, s), lhs) =~= gathered_alts(s, lhs));
            assert(group_rules(insert_rule(x, s), lhs) == group_rules(a, lhs).push(last));
            assert(group_rules(a, lhs) == group_rules(d, lhs));
            assert(group_rules(s, lhs) == group_rules(d, lhs).push(last));
            assert(group_rules(insert_rule(x, s), lhs) =~= group_rules(s, lhs));
        } else {
            assert(gathered_alts(insert_rule(x, s), lhs) =~= gathered_alts(s, lhs));
            assert(group_rules(insert_rule(x, s), lhs) == group_rules(a, lhs));
            assert(group_rules(a, lhs) == group_rules(d, lhs));
            assert(group_rules(s, lhs) == group_rules(d, lhs));
        }
    }
}

/// Sorting keeps the gathered alternatives of every left-hand side.
proof fn lemma_sort_gathered(rs: Seq<RuleV>, lhs: TermV)
    ensures
        gathered_alts(sort_rules(rs), lhs) == gathered_alts(rs, lhs),
        group_rules(sort_rules(rs), lhs) == group_rules(rs, lhs),
    decreases rs.len(),
{
    if rs.len() > 0 {
        lemma_sort_gathered(rs.drop_last(), lhs);
        lemma_insert_gathered(rs.last(), sort_rules(rs.drop_last()), lhs);
        assert(rs =~= rs.drop_last().push(rs.last()));
        lemma_gathered_push(rs.drop_last(), rs.last(), lhs);
        if rs.last().lhs != lhs {
            assert(gathered_alts(rs, lhs) =~= gathered_alts(rs.drop_last(), lhs));
        }
    }
}

/// Ascending keys.
pub open spec fn sorted_rules(s: Seq<RuleV>) -> bool {
    forall|i: int, j: int|
        0 <= i < j < s.len() ==> !text::lex_lt(rule_key(#[trigger] s[j]), rule_key(#[trigger] s[i]))
}

/// Every key of the list is at most `k`.
spec fn keys_at_most(s: Seq<RuleV>, k: Seq<char>) -> bool {
    forall|t: int| 0 <= t < s.len() ==> !text::lex_lt(k, rule_key(#[trigger] s[t]))
}

proof fn lemma_insert_keys_at_most(x: RuleV, s: Seq<RuleV>, k: Seq<char>)
    requires
        keys_at_most(s, k),
        !text::lex_lt(k, rule_key(x)),
    ensures
        keys_at_most(insert_rule(x, s), k),
    decreases s.len(),
{
    if s.len() == 0 || !text::lex_lt(rule_key(x), rule_key(s.last())) {
        let r = s.push(x);
        assert forall|t: int| 0 <= t < r.len() implies !text::lex_lt(
            k,
            rule_key(#[trigger] r[t]),
        ) by {
            if t < s.len() {
                assert(r[t] == s[t]);
            } else {
                assert(r[t] == x);
            }
        }
    } else {
        assert(keys_at_most(s.drop_last(), k)) by {
            assert forall|t: int| 0 <= t < s.drop_last().len() implies !text::lex_lt(
                k,
                rule_key(#[trigger] s.drop_last()[t]),
            ) by {
                assert(s.drop_last()[t] == s[t]);
            }
        }
        lemma_insert_keys_at_most(x, s.drop_last(), k);
        let a = insert_rule(x, s.drop_last());
        let r = a.push(s.last());
        assert forall|t: int| 0 <= t < r.len() implies !text::lex_lt(
            k,
            rule_key(#[trigger] r[t]),
        ) by {
            if t < a.len() {
                assert(r[t] == a[t]);
            } else {
                assert(r[t] == s.last());
                assert(s[s.len() - 1] == s.last());
            }
        }
    }
}

proof fn lemma_insert_sorted(x: RuleV, s: Seq<RuleV>)
    requires
        sorted_rules(s),
    ensures
        sorted_rules(insert_rule(x, s)),
    decreases s.len(),
{
    if s.len() == 0 {
    } else if !text::lex_lt(rule_key(x), rule_key(s.last())) {
        let r = s.push(x);
        assert forall|i: int, j: int| 0 <= i < j < r.len() implies !text::lex_lt(
            rule_key(#[trigger] r[j]),
            rule_key(#[trigger] r[i]),
        ) by {
            if j < s.len() {
                assert(r[i] == s[i] && r[j] == s[j]);
            } else {
                assert(r[j] == x && r[i] == s[i]);
                assert(s[s.len() - 1] == s.last());
                // key(s[i]) <= key(last) <= key(x)
                if text::lex_lt(rule_key(x), rule_key(s[i])) {
                    lemma_lex_lt_total(rule_key(s[i]), rule_key(s.last()));
                    if text::lex_lt(rule_key(s[i]), rule_key(s.last())) {
                        lemma_lex_lt_trans(rule_key(x), rule_key(s[i]), rule_key(s.last()));
                    }
                }
            }
        }
    } else {
        let d = s.drop_last();
        assert(sorted_rules(d)) by {
            assert forall|i: int, j: int| 0 <= i < j < d.len() implies !text::lex_lt(
                rule_key(#[trigger] d[j]),
                rule_key(#[trigger] d[i]),
            ) by {
                assert(d[i] == s[i] && d[j] == s[j]);
            }
        }
        lemma_insert_sorted(x, d);
        assert(keys_at_most(d, rule_key(s.last()))) by {
            assert forall|t: int| 0 <= t < d.len() implies !text::lex_lt(
                rule_key(s.last()),
                rule_key(#[trigger] d[t]),
            ) by {
                assert(d[t] == s[t]);
                assert(s[s.len() - 1] == s.last());
            }
        }
        lemma_lex_lt_asym(rule_key(x), rule_key(s.last()));
        lemma_insert_keys_at_most(x, d, rule_key(s.last()));
        let a = insert_rule(x, d);
        let r = a.push(s.last());
        assert forall|i: int, j: int| 0 <= i < j < r.len() implies !text::lex_lt(
            rule_key(#[trigger] r[j]),
            rule_key(#[trigger] r[i]),
        ) by {
            if j < a.len() {
                assert(r[i] == a[i] && r[j] == a[j]);
            } else {
                assert(r[j] == s.last() && r[i] == a[i]);
            }
        }
    }
}

proof fn lemma_sort_sorted(rs: Seq<RuleV>)
    ensures
        sorted_rules(sort_rules(rs)),
    decreases rs.len(),
{
    if rs.len() > 0 {
        lemma_sort_sorted(rs.drop_last());
        lemma_insert_sorted(rs.last(), sort_rules(rs.drop_last()));
    }
}

/// Rules sharing a left-hand side stand contiguously once sorted, when
/// every left-hand side is a nonterminal.
pub open spec fn grouped_rules(s: Seq<RuleV>) -> bool {
    forall|i: int, k: int, j: int|
        0 <= i < k < j < s.len() && (#[trigger] s[i]).lhs == (#[trigger] s[j]).lhs
            ==> (#[trigger] s[k]).lhs == s[i].lhs
}

proof fn lemma_sorted_grouped(s: Seq<RuleV>)
    requires
        sorted_rules(s),
        forall|i: int| 0 <= i < s.len() ==> (#[trigger] s[i]).lhs.is_nonterminal(),
    ensures
        grouped_rules(s),
{
    assert forall|i: int, k: int, j: int|
        0 <= i < k < j < s.len() && (#[trigger] s[i]).lhs == (#[trigger] s[j]).lhs implies (
    #[trigger] s[k]).lhs == s[i].lhs by {
        // the key of s[k] is wedged between two copies of the same key
        lemma_lex_lt_total(rule_key(s[i]), rule_key(s[k]));
        if rule_key(s[i]) == rule_key(s[k]) {
            lemma_render_nt_injective(s[i].lhs, s[k].lhs);
        } else if text::lex_lt(rule_key(s[i]), rule_key(s[k]))  {
            // then key(s[j]) == key(s[i]) < key(s[k]) contradicts order
            assert(rule_key(s[j]) == rule_key(s[i]));
            assert(!text::lex_lt(rule_key(s[j]), rule_key(s[k])));
            lemma_lex_lt_total(rule_key(s[k]), rule_key(s[j]));
            if text::lex_lt(rule_key(s[k]), rule_key(s[j])) {
            } else {
                assert(rule_key(s[k]) == rule_key(s[j]));
                lemma_lex_lt_irrefl(rule_key(s[k]));
            }
            lemma_lex_lt_asym(rule_key(s[i]), rule_key(s[k]));
            assert(false);
        } else {
            // key(s[k]) < key(s[i]) contradicts order directly
            assert(!text::lex_lt(rule_key(s[k]), rule_key(s[i])));
            assert(false);
        }
    }
}
proof fn lemma_dedup_contains(s: Seq<Seq<TermV>>, x: Seq<TermV>)
    ensures
        dedup_alts(s).contains(x) <==> s.contains(x),
{
    if dedup_alts(s).contains(x) {
        crate::alternatives::lemma_dedup_alts_seen(s, dedup_alts(s), x);
    }
    if s.contains(x) && !dedup_alts(s).contains(x) {
        crate::alternatives::lemma_dedup_alts_unseen(s, dedup_alts(s), x);
    }
}

proof fn lemma_dedup_idempotent(a: Seq<Seq<TermV>>)
    ensures
        dedup_alts(dedup_alts(a)) == dedup_alts(a),
    decreases a.len(),
{
    if a.len() > 0 {
        let d = a.drop_last();
        lemma_dedup_idempotent(d);
        if d.contains(a.last()) {
        } else {
            crate::alternatives::lemma_dedup_alts_push(dedup_alts(d), a.last());
            lemma_dedup_contains(d, a.last());
        }
    } else {
        assert(dedup_alts(a) =~= Seq::<Seq<TermV>>::empty());
    }
}

proof fn lemma_dedup_flatten(a: Seq<Seq<TermV>>, b: Seq<Seq<TermV>>)
    ensures
        dedup_alts(dedup_alts(a) + b) == dedup_alts(a + b),
    decreases b.len(),
{
    if b.len() == 0 {
        assert(dedup_alts(a) + b =~= dedup_alts(a));
        assert(a + b =~= a);
        lemma_dedup_idempotent(a);
    } else {
        let bd = b.drop_last();
        let y = b.last();
        lemma_dedup_flatten(a, bd);
        assert(dedup_alts(a) + b =~= (dedup_alts(a) + bd).push(y));
        assert(a + b =~= (a + bd).push(y));
        crate::alternatives::lemma_dedup_alts_push(dedup_alts(a) + bd, y);
        crate::alternatives::lemma_dedup_alts_push(a + bd, y);
        // the two membership tests agree
        lemma_dedup_contains(a, y);
        assert((dedup_alts(a) + bd).contains(y) <==> (a + bd).contains(y)) by {
            if (dedup_alts(a) + bd).contains(y) {
                let i = choose|i: int|
                    0 <= i < (dedup_alts(a) + bd).len() && (dedup_alts(a) + bd)[i] == y;
                if i < dedup_alts(a).len() {
                    assert(dedup_alts(a).contains(y));
                    let k = choose|k: int| 0 <= k < a.len() && a[k] == y;
                    assert((a + bd)[k] == y);
                } else {
                    assert(bd[i - dedup_alts(a).len()] == y);
                    assert((a + bd)[i - dedup_alts(a).len() + a.len()] == y);
                }
            }
            if (a + bd).contains(y) {
                let i = choose|i: int| 0 <= i < (a + bd).len() && (a + bd)[i] == y;
                if i < a.len() {
                    assert(a.contains(y));
                    let k = choose|k: int| 0 <= k < dedup_alts(a).len() && dedup_alts(a)[k] == y;
                    assert((dedup_alts(a) + bd)[k] == y);
                } else {
                    assert(bd[i - a.len()] == y);
                    assert((dedup_alts(a) + bd)[i - a.len() + dedup_alts(a).len()] == y);
                }
            }
        }
    }
}

/// The concatenation of the groups' alternatives, in order.
pub open spec fn alts_concat(group: Seq<RuleV>) -> Seq<Seq<TermV>>
    decreases group.len(),
{
    if group.len() == 0 {
        Seq::empty()
    } else {
        alts_concat(group.drop_last()) + group.last().alts
    }
}

/// What collapsing leaves for one left-hand side: a lone rule's
/// alternatives stand unchanged; rules sharing the side contribute the
/// deduplicated concatenation of theirs, in input order.
pub open spec fn collapsed_group_alts(group: Seq<RuleV>) -> Seq<Seq<TermV>> {
    if group.len() == 1 {
        group[0].alts
    } else {
        dedup_alts(alts_concat(group))
    }
}

proof fn lemma_group_nonempty(rs: Seq<RuleV>, lhs: TermV)
    ensures
        lhs_in(rs, lhs) <==> group_rules(rs, lhs).len() > 0,
    decreases rs.len(),
{
    if rs.len() > 0 {
        lemma_group_nonempty(rs.drop_last(), lhs);
        lemma_lhs_in_drop_last(rs, lhs);
    }
}

/// What the left-to-right fold makes of a list whose same-sided rules are
/// contiguous: one rule per occurring left-hand side, carrying its
/// collapsed alternatives, ordered by first occurrence.
proof fn lemma_fold_full(s: Seq<RuleV>)
    requires
        grouped_rules(s),
    ensures
        ({
            let f = fold_rules(s);
            &&& forall|t: int| 0 <= t < f.len() ==> lhs_in(s, (#[trigger] f[t]).lhs)
            &&& forall|t1: int, t2: int| 0 <= t1 < t2 < f.len() ==> f[t1].lhs != f[t2].lhs
            &&& forall|t: int|
                0 <= t < f.len() ==> (#[trigger] f[t]).alts == collapsed_group_alts(
                    group_rules(s, f[t].lhs),
                )
            &&& forall|l: TermV| #[trigger] lhs_in(s, l) ==> exists|t: int|
                0 <= t < f.len() && f[t].lhs == l
            &&& s.len() > 0 ==> f.len() > 0 && f.last().lhs == s.last().lhs
        }),
    decreases s.len(),
{
    if s.len() == 0 {
    } else {
        let d = s.drop_last();
        let x = s.last();
        assert(grouped_rules(d)) by {
            assert forall|i: int, k: int, j: int|
                0 <= i < k < j < d.len() && (#[trigger] d[i]).lhs == (#[trigger] d[j]).lhs implies (
            #[trigger] d[k]).lhs == d[i].lhs by {
                assert(d[i] == s[i] && d[k] == s[k] && d[j] == s[j]);
            }
        }
        lemma_fold_full(d);
        let p = fold_rules(d);
        assert(s =~= d.push(x));
        // membership in s versus membership in d
        assert forall|l: TermV| #[trigger] lhs_in(d, l) implies lhs_in(s, l) by {
            lemma_lhs_in_drop_last(s, l);
        }
        assert(lhs_in(s, x.lhs)) by {
            assert(s[s.len() - 1].lhs == x.lhs);
        }
        if p.len() > 0 && p.last().lhs == x.lhs {
            // the last group grows by one rule
            let lhs = x.lhs;
            let f = fold_rules(s);
            let merged = RuleV { lhs: p.last().lhs, alts: dedup_alts(p.last().alts + x.alts) };
            assert(f == p.update(p.len() - 1, merged));
            assert forall|t: int| 0 <= t < f.len() implies lhs_in(s, (#[trigger] f[t]).lhs) by {
                if t < p.len() - 1 {
                    assert(f[t] == p[t]);
                } else {
                    assert(f[t].lhs == p.last().lhs);
                    assert(p[p.len() - 1] == p.last());
                }
            }
            assert forall|t1: int, t2: int| 0 <= t1 < t2 < f.len() implies f[t1].lhs
                != f[t2].lhs by {
                assert(f[t1].lhs == p[t1].lhs && f[t2].lhs == p[t2].lhs);
            }
            // group of the grown side
            lemma_gathered_push(d, x, lhs);
            let gd = group_rules(d, lhs);
            assert(group_rules(s, lhs) == gd.push(x));
            lemma_group_nonempty(d, lhs);
            assert(lhs_in(d, lhs)) by {
                assert(p[p.len() - 1] == p.last());
            }
            assert(gd.len() > 0);
            assert(p.last().alts == collapsed_group_alts(gd)) by {
                assert(p[p.len() - 1] == p.last());
            }
            assert(merged.alts == collapsed_group_alts(gd.push(x))) by {
                if gd.len() == 1 {
                    assert(alts_concat(gd.push(x)) =~= gd[0].alts + x.alts) by {
                        assert(gd.push(x).drop_last() =~= gd);
                        assert(gd.drop_last() =~= Seq::<RuleV>::empty());
                        assert(alts_concat(Seq::<RuleV>::empty()) =~= Seq::<Seq<TermV>>::empty());
                        assert(gd[0] == gd.last());
                        assert(alts_concat(gd) =~= gd[0].alts);
                    }
                    assert(merged.alts == dedup_alts(gd[0].alts + x.alts));
                } else {
                    assert(gd.push(x).drop_last() =~= gd);
                    assert(alts_concat(gd.push(x)) == alts_concat(gd) + x.alts);
                    lemma_dedup_flatten(alts_concat(gd), x.alts);
                }
            }
            assert forall|t: int| 0 <= t < f.len() implies (#[trigger] f[t]).alts
                == collapsed_group_alts(group_rules(s, f[t].lhs)) by {
                if t < p.len() - 1 {
                    assert(f[t] == p[t]);
                    assert(p[t].lhs != p[p.len() - 1].lhs);
                    assert(p[p.len() - 1] == p.last());
                    lemma_gathered_push(d, x, p[t].lhs);
                    assert(group_rules(s, p[t].lhs) == group_rules(d, p[t].lhs));
                } else {
                    assert(f[t] == merged);
                }
            }
            assert forall|l: TermV| #[trigger] lhs_in(s, l) implies exists|t: int|
                0 <= t < f.len() && f[t].lhs == l by {
                lemma_lhs_in_drop_last(s, l);
                if l == x.lhs {
                    assert(f[p.len() - 1].lhs == l);
                } else {
                    let t = choose|t: int| 0 <= t < p.len() && p[t].lhs == l;
                    assert(t < p.len() - 1) by {
                        assert(p[p.len() - 1] == p.last());
                    }
                    assert(f[t].lhs == l);
                }
            }
            assert(f.last().lhs == s.last().lhs);
        } else {
            // a fresh side starts its own rule
            let f = fold_rules(s);
            assert(f == p.push(x));
            // the new side is absent from everything before
            assert(!lhs_in(d, x.lhs)) by {
                if lhs_in(d, x.lhs) {
                    let t = choose|t: int| 0 <= t < p.len() && p[t].lhs == x.lhs;
                    assert(p.len() > 0);
                    assert(d.len() > 0) by {
                        if d.len() == 0 {
                            assert(p.len() == 0);
                        }
                    }
                    assert(p.last().lhs == d.last().lhs);
                    if t == p.len() - 1 {
                        assert(p[p.len() - 1] == p.last());
                        assert(false);
                    } else {
                        // a rule with this side lies strictly inside d,
                        // yet d's last rule has another side: that breaks
                        // the grouping of s
                        assert(lhs_in(d, p[t].lhs));
                        let i = choose|i: int| 0 <= i < d.len() && d[i].lhs == x.lhs;
                        assert(i < d.len() - 1) by {
                            if i == d.len() - 1 {
                                assert(d[d.len() - 1] == d.last());
                            }
                        }
                        assert(s[i].lhs == s[s.len() - 1].lhs);
                        assert(s[d.len() - 1] == d[d.len() - 1]);
                        assert(s[d.len() - 1].lhs == s[i].lhs);
                        assert(d[d.len() - 1] == d.last());
                        assert(false);
                    }
                }
            }
            assert forall|t: int| 0 <= t < f.len() implies lhs_in(s, (#[trigger] f[t]).lhs) by {
                if t < p.len() {
                    assert(f[t] == p[t]);
                } else {
                    assert(f[t] == x);
                }
            }
            assert forall|t1: int, t2: int| 0 <= t1 < t2 < f.len() implies f[t1].lhs
                != f[t2].lhs by {
                if t2 < p.len() {
                    assert(f[t1] == p[t1] && f[t2] == p[t2]);
                } else {
                    assert(f[t2] == x && f[t1] == p[t1]);
                    assert(lhs_in(d, p[t1].lhs));
                }
            }
            lemma_group_nonempty(d, x.lhs);
            lemma_gathered_absent(d, x.lhs);
            assert forall|t: int| 0 <= t < f.len() implies (#[trigger] f[t]).alts
                == collapsed_group_alts(group_rules(s, f[t].lhs)) by {
                if t < p.len() {
                    assert(f[t] == p[t]);
                    assert(p[t].lhs != x.lhs) by {
                        assert(lhs_in(d, p[t].lhs));
                    }
                    lemma_gathered_push(d, x, p[t].lhs);
                    assert(group_rules(s, p[t].lhs) == group_rules(d, p[t].lhs));
                } else {
                    assert(f[t] == x);
                    lemma_gathered_push(d, x, x.lhs);
                    assert(group_rules(s, x.lhs) =~= Seq::<RuleV>::empty().push(x));
                    assert(group_rules(s, x.lhs).len() == 1);
                    assert(group_rules(s, x.lhs)[0] == x);
                }
            }
            assert forall|l: TermV| #[trigger] lhs_in(s, l) implies exists|t: int|
                0 <= t < f.len() && f[t].lhs == l by {
                lemma_lhs_in_drop_last(s, l);
                if l == x.lhs {
                    assert(f[p.len() as int].lhs == l);
                } else {
                    let t = choose|t: int| 0 <= t < p.len() && p[t].lhs == l;
                    assert(f[t].lhs == l);
                }
            }
            assert(f.last().lhs == s.last().lhs);
        }
    }
}

/// The collapse law: in a grammar built from nonterminal-headed rules,
/// each occurring left-hand side heads exactly one rule, and rules that
/// shared a left-hand side were merged into the deduplicated
/// concatenation of their alternatives, in input order.
pub proof fn lemma_collapse_collects(rs: Seq<RuleV>, lhs: TermV)
    requires
        rs.len() > 0,
        forall|i: int| 0 <= i < rs.len() ==> (#[trigger] rs[i]).lhs.is_nonterminal(),
        lhs_in(rs, lhs),
    ensures
        ({
            let out = collapse_spec(rs);
            &&& exists|j: int|
                0 <= j < out.len() && (#[trigger] out[j]).lhs == lhs && out[j].alts
                    == collapsed_group_alts(group_rules(rs, lhs))
            &&& forall|j1: int, j2: int|
                0 <= j1 < j2 < out.len() ==> !((#[trigger] out[j1]).lhs == lhs && (
                #[trigger] out[j2]).lhs == lhs)
        }),
{
    let srt = sort_rules(rs);
    lemma_sort_sorted(rs);
    // every side of the sorted list occurs in the input, so stays a
    // nonterminal
    assert forall|i: int| 0 <= i < srt.len() implies (#[trigger] srt[i]).lhs.is_nonterminal() by {
        let l = srt[i].lhs;
        assert(lhs_in(srt, l));
        lemma_group_nonempty(srt, l);
        lemma_sort_gathered(rs, l);
        lemma_group_nonempty(rs, l);
        let k = choose|k: int| 0 <= k < rs.len() && rs[k].lhs == l;
        assert(rs[k].lhs.is_nonterminal());
    }
    lemma_sorted_grouped(srt);
    lemma_fold_full(srt);
    let folded = fold_rules(srt);
    lemma_sort_gathered(rs, lhs);
    lemma_group_nonempty(srt, lhs);
    lemma_group_nonempty(rs, lhs);
    assert(lhs_in(srt, lhs));
    let jf = choose|t: int| 0 <= t < folded.len() && folded[t].lhs == lhs;
    assert(folded[jf].alts == collapsed_group_alts(group_rules(rs, lhs)));
    lemma_find_lhs_characterization(folded, rs[0].lhs);
    match find_lhs(folded, rs[0].lhs) {
        Option::Some(i) => {
            let out = folded.update(0, folded[i]).update(i, folded[0]);
            assert(collapse_spec(rs) == out);
            // out permutes folded by one swap
            assert forall|j: int| 0 <= j < out.len() implies #[trigger] out[j] == folded[
                if j == 0 {
                    i
                } else if j == i {
                    0
                } else {
                    j
                }
            ] by {}
            let jo: int = if jf == 0 {
                i
            } else if jf == i {
                0
            } else {
                jf
            };
            assert(out[jo] == folded[jf]);
            assert(exists|j: int|
                0 <= j < out.len() && (#[trigger] out[j]).lhs == lhs && out[j].alts
                    == collapsed_group_alts(group_rules(rs, lhs)));
            assert forall|j1: int, j2: int| 0 <= j1 < j2 < out.len() implies !((
            #[trigger] out[j1]).lhs == lhs && (#[trigger] out[j2]).lhs == lhs) by {
                let m1: int = if j1 == 0 {
                    i
                } else if j1 == i {
                    0
                } else {
                    j1
                };
                let m2: int = if j2 == 0 {
                    i
                } else if j2 == i {
                    0
                } else {
                    j2
                };
                assert(out[j1] == folded[m1] && out[j2] == folded[m2]);
                assert(m1 != m2);
                if folded[m1].lhs == lhs && folded[m2].lhs == lhs {
                    if m1 < m2 {
                        assert(folded[m1].lhs != folded[m2].lhs);
                    } else {
                        assert(folded[m2].lhs != folded[m1].lhs);
                    }
                }
            }
        },
        Option::None => {
            assert(collapse_spec(rs) == folded);
        },
    }
}
} // verus!

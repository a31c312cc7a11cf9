//! The Earley recognizer over an interned, atomized grammar, with Leo's
//! deterministic reduction and shared-packed-parse-forest construction.
use crate::alternatives::term_eq;
use crate::grammar::{alt_is_atomized, atomize_grammar, Grammar};
use crate::rule::RuleV;
use crate::sppf::{add_family_spec, has_label, insert_spec, labels_distinct, make_node_label, Sppf, SppfLabel, SppfNodeV};
use crate::term::{Term, TermKind, TermV};
use vstd::pervasive::VecAdditionalExecFns;
use vstd::prelude::*;

verus! {

/// An interned grammar symbol, after atomization: the empty terminal, a
/// single-character terminal, or a nonterminal by its table index.
#[derive(Clone, Copy, Debug, PartialEq, Eq, Structural)]
pub enum PSym {
    Eps,
    Ch(char),
    Nt(usize),
}

impl DeepView for PSym {
    type V = PSym;

    open spec fn deep_view(&self) -> PSym {
        *self
    }
}

/// One interned rule: its left-hand side's table index and its
/// alternatives.
pub struct PRule {
    pub lhs: usize,
    pub alts: Vec<Vec<PSym>>,
}

/// Mathematical value of a [`PRule`].
#[verifier::ext_equal]
pub ghost struct PRuleV {
    pub lhs: usize,
    pub alts: Seq<Seq<PSym>>,
}

impl View for PRule {
    type V = PRuleV;

    open spec fn view(&self) -> PRuleV {
        PRuleV { lhs: self.lhs, alts: self.alts.deep_view() }
    }
}

impl DeepView for PRule {
    type V = PRuleV;

    open spec fn deep_view(&self) -> PRuleV {
        self.view()
    }
}

/// The interned grammar the recognizer runs on: a table of nonterminal
/// names, the rules over table indices, and a rule lookup by index.
pub struct PGrammar {
    pub nts: Vec<String>,
    pub rules: Vec<PRule>,
    pub rule_of: Vec<Option<usize>>,
}

/// Mathematical value of a [`PGrammar`].
#[verifier::ext_equal]
pub ghost struct PGrammarV {
    pub nts: Seq<Seq<char>>,
    pub rules: Seq<PRuleV>,
    pub rule_of: Seq<Option<usize>>,
}

impl View for PGrammar {
    type V = PGrammarV;

    open spec fn view(&self) -> PGrammarV {
        PGrammarV {
            nts: self.nts.deep_view(),
            rules: self.rules.deep_view(),
            rule_of: self.rule_of@,
        }
    }
}

/// A nonterminal reference stays inside the name table.
pub open spec fn sym_ok(s: PSym, n_nts: int) -> bool {
    match s {
        PSym::Nt(id) => (id as int) < n_nts,
        _ => true,
    }
}

impl PGrammarV {
    /// Well-formedness: the lookup table matches the name table, every
    /// left-hand side and every nonterminal reference stays in range, and
    /// the lookup is sound and complete.
    pub open spec fn wf(self) -> bool {
        &&& self.rule_of.len() == self.nts.len()
        &&& forall|r: int|
            0 <= r < self.rules.len() ==> ((#[trigger] self.rules[r].lhs) as int) < self.nts.len()
        &&& forall|r: int, a: int, k: int|
            0 <= r < self.rules.len() && 0 <= a < self.rules[r].alts.len() && 0 <= k
                < self.rules[r].alts[a].len() ==> sym_ok(
                #[trigger] self.rules[r].alts[a][k],
                self.nts.len() as int,
            )
        &&& forall|id: int|
            0 <= id < self.rule_of.len() && (#[trigger] self.rule_of[id]) is Some ==> ((
            self.rule_of[id]->Some_0) as int) < self.rules.len() && self.rules[self.rule_of[id]->Some_0 as int].lhs as int
                == id
        &&& forall|id: int, r: int|
            #![trigger self.rule_of[id], self.rules[r]]
            0 <= id < self.rule_of.len() && self.rule_of[id] is None && 0 <= r < self.rules.len()
                ==> self.rules[r].lhs as int != id
    }
}

/// How an interned symbol corresponds to a term of the source grammar.
pub open spec fn sym_matches(nts: Seq<Seq<char>>, s: PSym, t: TermV) -> bool {
    match s {
        PSym::Eps => t.is_eps(),
        PSym::Ch(c) => t.is_terminal() && t.content == seq![c],
        PSym::Nt(id) => t.is_nonterminal() && (id as int) < nts.len() && t.content == nts[
            id as int
        ],
    }
}

/// How a whole interned grammar corresponds to a source grammar: same rule
/// list, left-hand sides by name, and right-hand sides symbol by symbol.
pub open spec fn represents(pg: PGrammarV, g: Seq<RuleV>) -> bool {
    &&& pg.rules.len() == g.len()
    &&& forall|r: int|
        0 <= r < g.len() ==> ((#[trigger] pg.rules[r].lhs) as int) < pg.nts.len() && pg.nts[pg.rules[r].lhs as int]
            == g[r].lhs.content
    &&& forall|r: int|
        0 <= r < g.len() ==> (#[trigger] pg.rules[r].alts.len()) == g[r].alts.len()
    &&& forall|r: int, a: int|
        0 <= r < g.len() && 0 <= a < g[r].alts.len() ==> (#[trigger] pg.rules[r].alts[a].len())
            == g[r].alts[a].len()
    &&& forall|r: int, a: int, k: int|
        0 <= r < g.len() && 0 <= a < g[r].alts.len() && 0 <= k < g[r].alts[a].len()
            ==> sym_matches(pg.nts, #[trigger] pg.rules[r].alts[a][k], g[r].alts[a][k])
}

/// Whether the table holds the name.
pub open spec fn name_in(nts: Seq<Seq<char>>, c: Seq<char>) -> bool {
    exists|j: int| 0 <= j < nts.len() && nts[j] == c
}

/// Interns a nonterminal name, appending it when it is new; returns its
/// index.
fn intern_name(nts: &mut Vec<String>, name: &String) -> (id: usize)
    ensures
        id < final(nts)@.len(),
        final(nts).deep_view()[id as int] == name@,
        old(nts)@.len() <= final(nts)@.len() <= old(nts)@.len() + 1,
        forall|j: int|
            0 <= j < old(nts)@.len() ==> final(nts).deep_view()[j] == old(nts).deep_view()[j],
        name_in(final(nts).deep_view(), name@),
{
    let n: usize = nts.len();
    let mut i: usize = 0;
    while i < n
        invariant
            n == nts@.len(),
            nts@ == old(nts)@,
            i <= n,
        decreases n - i,
    {
        if nts[i] == *name {
            proof {
                assert(nts.deep_view()[i as int] == name@);
            }
            return i;
        }
        i = i + 1;
    }
    nts.push(name.clone());
    proof {
        assert(nts.deep_view() =~= old(nts).deep_view().push(name@));
    }
    n
}

/// First pass of interning: collect every nonterminal name that occurs as
/// a left-hand side or on a right-hand side.
fn collect_names(g: &Grammar) -> (nts: Vec<String>)
    ensures
        forall|r: int| 0 <= r < g@.len() ==> name_in(nts.deep_view(), (#[trigger] g@[r]).lhs.content),
        forall|r: int, a: int, k: int|
            0 <= r < g@.len() && 0 <= a < g@[r].alts.len() && 0 <= k < g@[r].alts[a].len()
                && (#[trigger] g@[r].alts[a][k]).is_nonterminal() ==> name_in(
                nts.deep_view(),
                g@[r].alts[a][k].content,
            ),
{
    let ghost gv = g@;
    let mut nts: Vec<String> = Vec::new();
    let n: usize = g.rules.len();
    let mut r: usize = 0;
    while r < n
        invariant
            n == g@.len(),
            gv == g@,
            r <= n,
            forall|t: int| 0 <= t < r ==> name_in(nts.deep_view(), (#[trigger] gv[t]).lhs.content),
            forall|t: int, a: int, k: int|
                0 <= t < r && 0 <= a < gv[t].alts.len() && 0 <= k < gv[t].alts[a].len()
                    && (#[trigger] gv[t].alts[a][k]).is_nonterminal() ==> name_in(
                    nts.deep_view(),
                    gv[t].alts[a][k].content,
                ),
        decreases n - r,
    {
        let rule = &g.rules[r];
        let ghost nts0 = nts.deep_view();
        let _lhs_id = intern_name(&mut nts, &rule.lhs.content);
        proof {
            lemma_names_persist(nts0, nts.deep_view(), gv, r as int, gv.len() as int);
        }
        let m: usize = rule.rhs.alternatives.len();
        let mut a: usize = 0;
        while a < m
            invariant
                n == g@.len(),
                gv == g@,
                r < n,
                rule@ == gv[r as int],
                m == gv[r as int].alts.len(),
                a <= m,
                name_in(nts.deep_view(), gv[r as int].lhs.content),
                forall|t: int|
                    0 <= t < r ==> name_in(nts.deep_view(), (#[trigger] gv[t]).lhs.content),
                forall|t: int, a2: int, k: int|
                    0 <= t < r && 0 <= a2 < gv[t].alts.len() && 0 <= k < gv[t].alts[a2].len()
                        && (#[trigger] gv[t].alts[a2][k]).is_nonterminal() ==> name_in(
                        nts.deep_view(),
                        gv[t].alts[a2][k].content,
                    ),
                forall|a2: int, k: int|
                    0 <= a2 < a && 0 <= k < gv[r as int].alts[a2].len() && (#[trigger] gv[
                        r as int
                    ].alts[a2][k]).is_nonterminal() ==> name_in(
                        nts.deep_view(),
                        gv[r as int].alts[a2][k].content,
                    ),
            decreases m - a,
        {
            let alt = &rule.rhs.alternatives[a];
            let p: usize = alt.len();
            let mut k: usize = 0;
            while k < p
                invariant
                    n == g@.len(),
                    gv == g@,
                    r < n,
                    a < m == gv[r as int].alts.len(),
                    alt.deep_view() == gv[r as int].alts[a as int],
                    p == gv[r as int].alts[a as int].len(),
                    k <= p,
                    name_in(nts.deep_view(), gv[r as int].lhs.content),
                    forall|t: int|
                        0 <= t < r ==> name_in(nts.deep_view(), (#[trigger] gv[t]).lhs.content),
                    forall|t: int, a2: int, k2: int|
                        0 <= t < r && 0 <= a2 < gv[t].alts.len() && 0 <= k2 < gv[t].alts[a2].len()
                            && (#[trigger] gv[t].alts[a2][k2]).is_nonterminal() ==> name_in(
                            nts.deep_view(),
                            gv[t].alts[a2][k2].content,
                        ),
                    forall|a2: int, k2: int|
                        0 <= a2 < a && 0 <= k2 < gv[r as int].alts[a2].len() && (#[trigger] gv[
                            r as int
                        ].alts[a2][k2]).is_nonterminal() ==> name_in(
                            nts.deep_view(),
                            gv[r as int].alts[a2][k2].content,
                        ),
                    forall|k2: int|
                        0 <= k2 < k && (#[trigger] gv[r as int].alts[a as int][k2]).is_nonterminal()
                            ==> name_in(nts.deep_view(), gv[r as int].alts[a as int][k2].content),
                decreases p - k,
            {
                if alt[k].is_nonterminal() {
                    let ghost nts1 = nts.deep_view();
                    let _id = intern_name(&mut nts, &alt[k].content);
                    proof {
                        assert(alt.deep_view()[k as int] == gv[r as int].alts[a as int][k as int]);
                        lemma_names_persist(nts1, nts.deep_view(), gv, r as int + 1, gv.len() as int);
                    }
                }
                k = k + 1;
            }
            a = a + 1;
        }
        r = r + 1;
    }
    nts
}

/// Every membership fact about the name table survives its growth by
/// appended entries.
proof fn lemma_names_persist(nts1: Seq<Seq<char>>, nts2: Seq<Seq<char>>, gv: Seq<RuleV>, upto: int, n: int)
    requires
        nts1.len() <= nts2.len(),
        forall|j: int| 0 <= j < nts1.len() ==> nts2[j] == nts1[j],
    ensures
        forall|c: Seq<char>| name_in(nts1, c) ==> #[trigger] name_in(nts2, c),
{
    assert forall|c: Seq<char>| name_in(nts1, c) implies #[trigger] name_in(nts2, c) by {
        let j = choose|j: int| 0 <= j < nts1.len() && nts1[j] == c;
        assert(nts2[j] == c);
    }
}

/// Looks a known name up in the fixed table.
fn lookup_name(nts: &Vec<String>, name: &String) -> (id: usize)
    requires
        name_in(nts.deep_view(), name@),
    ensures
        id < nts@.len(),
        nts.deep_view()[id as int] == name@,
{
    let n: usize = nts.len();
    let mut i: usize = 0;
    while i < n
        invariant
            n == nts@.len(),
            i <= n,
            forall|j: int| 0 <= j < i ==> nts.deep_view()[j] != name@,
        decreases n - i,
    {
        if nts[i] == *name {
            proof {
                assert(nts.deep_view()[i as int] == name@);
            }
            return i;
        }
        i = i + 1;
    }
    proof {
        assert(false);
    }
    0
}

/// Second pass: translates one atomized term against the fixed table.
fn intern_sym(nts: &Vec<String>, t: &Term) -> (s: PSym)
    requires
        t@.is_nonterminal() || t@.is_atomic() || t@.is_eps(),
        t@.is_nonterminal() ==> name_in(nts.deep_view(), t@.content),
    ensures
        sym_matches(nts.deep_view(), s, t@),
        sym_ok(s, nts.deep_view().len() as int),
{
    if t.is_nonterminal() {
        let id = lookup_name(nts, &t.content);
        PSym::Nt(id)
    } else if t.is_epsilon() {
        PSym::Eps
    } else {
        let c = t.atomic_terminal_content();
        proof {
            assert(t@.content =~= seq![t@.content[0]]);
        }
        PSym::Ch(c)
    }
}

/// Builds the interned form of an atomized grammar.
pub fn intern_grammar(g: &Grammar) -> (pg: PGrammar)
    requires
        forall|r: int, a: int|
            0 <= r < g@.len() && 0 <= a < g@[r].alts.len() ==> alt_is_atomized(
                #[trigger] g@[r].alts[a],
            ),
    ensures
        pg@.wf(),
        represents(pg@, g@),
{
    let ghost gv = g@;
    let nts = collect_names(g);
    let mut rules: Vec<PRule> = Vec::new();
    let n: usize = g.rules.len();
    let mut r: usize = 0;
    while r < n
        invariant
            n == g@.len(),
            gv == g@,
            r <= n,
            rules@.len() == r,
            forall|r2: int, a: int|
                0 <= r2 < g@.len() && 0 <= a < g@[r2].alts.len() ==> alt_is_atomized(
                    #[trigger] g@[r2].alts[a],
                ),
            forall|r2: int, a: int, k: int|
                0 <= r2 < gv.len() && 0 <= a < gv[r2].alts.len() && 0 <= k < gv[r2].alts[a].len()
                    && (#[trigger] gv[r2].alts[a][k]).is_nonterminal() ==> name_in(
                    nts.deep_view(),
                    gv[r2].alts[a][k].content,
                ),
            forall|r2: int|
                0 <= r2 < gv.len() ==> name_in(nts.deep_view(), (#[trigger] gv[r2]).lhs.content),
            forall|t: int|
                0 <= t < r ==> ((#[trigger] rules.deep_view()[t].lhs) as int)
                    < nts.deep_view().len() && nts.deep_view()[rules.deep_view()[t].lhs as int]
                    == gv[t].lhs.content,
            forall|t: int|
                0 <= t < r ==> (#[trigger] rules.deep_view()[t].alts.len()) == gv[t].alts.len(),
            forall|t: int, a: int|
                0 <= t < r && 0 <= a < gv[t].alts.len() ==> (#[trigger] rules.deep_view()[t].alts[a].len())
                    == gv[t].alts[a].len(),
            forall|t: int, a: int, k: int|
                0 <= t < r && 0 <= a < gv[t].alts.len() && 0 <= k < gv[t].alts[a].len()
                    ==> sym_matches(
                    nts.deep_view(),
                    #[trigger] rules.deep_view()[t].alts[a][k],
                    gv[t].alts[a][k],
                ),
        decreases n - r,
    {
        let rule = &g.rules[r];
        let lhs_id = lookup_name(&nts, &rule.lhs.content);
        let m: usize = rule.rhs.alternatives.len();
        let mut alts: Vec<Vec<PSym>> = Vec::new();
        let mut a: usize = 0;
        while a < m
            invariant
                n == g@.len(),
                gv == g@,
                r < n,
                rule@ == gv[r as int],
                m == gv[r as int].alts.len(),
                a <= m,
                alts@.len() == a,
                forall|a2: int|
                    0 <= a2 < gv[r as int].alts.len() ==> alt_is_atomized(
                        #[trigger] gv[r as int].alts[a2],
                    ),
                forall|a2: int, k: int|
                    0 <= a2 < gv[r as int].alts.len() && 0 <= k < gv[r as int].alts[a2].len() && (
                    #[trigger] gv[r as int].alts[a2][k]).is_nonterminal() ==> name_in(
                        nts.deep_view(),
                        gv[r as int].alts[a2][k].content,
                    ),
                forall|b: int|
                    0 <= b < a ==> (#[trigger] alts.deep_view()[b].len()) == gv[r as int].alts[b].len(),
                forall|b: int, k: int|
                    0 <= b < a && 0 <= k < gv[r as int].alts[b].len() ==> sym_matches(
                        nts.deep_view(),
                        #[trigger] alts.deep_view()[b][k],
                        gv[r as int].alts[b][k],
                    ),
            decreases m - a,
        {
            let alt = &rule.rhs.alternatives[a];
            let ghost av = gv[r as int].alts[a as int];
            let p: usize = alt.len();
            let mut ps: Vec<PSym> = Vec::new();
            let mut k: usize = 0;
            while k < p
                invariant
                    gv == g@,
                    r < n,
                    n == g@.len(),
                    a < m,
                    m == gv[r as int].alts.len(),
                    alt.deep_view() == av,
                    av == gv[r as int].alts[a as int],
                    alt_is_atomized(av),
                    forall|k2: int|
                        0 <= k2 < av.len() && (#[trigger] av[k2]).is_nonterminal() ==> name_in(
                            nts.deep_view(),
                            av[k2].content,
                        ),
                    p == av.len(),
                    k <= p,
                    ps@.len() == k,
                    forall|j: int|
                        0 <= j < k ==> sym_matches(nts.deep_view(), #[trigger] ps@[j], av[j]),
                decreases p - k,
            {
                proof {
                    assert(av[k as int].is_nonterminal() || av[k as int].is_atomic()
                        || av[k as int].is_eps());
                }
                let s = intern_sym(&nts, &alt[k]);
                ps.push(s);
                k = k + 1;
            }
            let ghost avs0 = alts.deep_view();
            let ghost psv = ps@;
            alts.push(ps);
            proof {
                assert(alts.deep_view() =~= avs0.push(psv)) by {
                    assert(alts@.last().deep_view() =~= psv);
                    assert(alts.deep_view() =~= avs0.push(alts@.last().deep_view()));
                }
                assert(alts.deep_view()[a as int] == psv);
            }
            a = a + 1;
        }
        let ghost rvs0 = rules.deep_view();
        let ghost altsv = alts.deep_view();
        rules.push(PRule { lhs: lhs_id, alts });
        proof {
            assert(rules.deep_view() =~= rvs0.push(PRuleV { lhs: lhs_id, alts: altsv }));
            assert(rules.deep_view()[r as int].alts == altsv);
        }
        r = r + 1;
    }
    // rule lookup table
    let mut rule_of: Vec<Option<usize>> = Vec::new();
    let nn: usize = nts.len();
    let mut id: usize = 0;
    while id < nn
        invariant
            nn == nts@.len(),
            id <= nn,
            rule_of@.len() == id,
            forall|t: int|
                0 <= t < id && (#[trigger] rule_of@[t]) is Some ==> ((rule_of@[t]->Some_0) as int)
                    < rules@.len() && rules.deep_view()[rule_of@[t]->Some_0 as int].lhs as int == t,
            forall|t: int, rr: int|
                #![trigger rule_of@[t], rules.deep_view()[rr]]
                0 <= t < id && rule_of@[t] is None && 0 <= rr < rules@.len()
                    ==> (rules.deep_view()[rr].lhs as int) != t,
            forall|t: int|
                0 <= t < rules@.len() ==> ((#[trigger] rules.deep_view()[t].lhs) as int)
                    < nts@.len() && nts.deep_view()[rules.deep_view()[t].lhs as int] == gv[t].lhs.content,
            rules@.len() == gv.len(),
            forall|t: int|
                0 <= t < rules@.len() ==> (#[trigger] rules.deep_view()[t].alts.len()) == gv[t].alts.len(),
            forall|t: int, a: int|
                0 <= t < rules@.len() && 0 <= a < gv[t].alts.len() ==> (#[trigger] rules.deep_view()[t].alts[a].len())
                    == gv[t].alts[a].len(),
            forall|t: int, a: int, k: int|
                0 <= t < rules@.len() && 0 <= a < gv[t].alts.len() && 0 <= k < gv[t].alts[a].len()
                    ==> sym_matches(
                    nts.deep_view(),
                    #[trigger] rules.deep_view()[t].alts[a][k],
                    gv[t].alts[a][k],
                ),
        decreases nn - id,
    {
        let mut found: Option<usize> = None;
        let nr: usize = rules.len();
        let mut rr: usize = 0;
        while rr < nr && found.is_none()
            invariant
                nr == rules@.len(),
                rr <= nr,
                match found {
                    Some(x) => (x as int) < rules@.len() && rules.deep_view()[x as int].lhs == id,
                    None => forall|t: int|
                        0 <= t < rr ==> (#[trigger] rules.deep_view()[t].lhs) != id,
                },
            decreases nr - rr,
        {
            if rules[rr].lhs == id {
                proof {
                    assert(rules.deep_view()[rr as int].lhs == id);
                }
                found = Some(rr);
            }
            rr = rr + 1;
        }
        rule_of.push(found);
        id = id + 1;
    }
    let pg = PGrammar { nts, rules, rule_of };
    proof {
        assert forall|r2: int, a: int, k: int|
            0 <= r2 < pg@.rules.len() && 0 <= a < pg@.rules[r2].alts.len() && 0 <= k
                < pg@.rules[r2].alts[a].len() implies sym_ok(
            #[trigger] pg@.rules[r2].alts[a][k],
            pg@.nts.len() as int,
        ) by {
            assert(sym_matches(pg@.nts, pg@.rules[r2].alts[a][k], gv[r2].alts[a][k]));
        }
        assert(pg@.wf());
        assert(represents(pg@, gv));
    }
    pg
}

/// Whether a symbol is nullable, given a set of nullable nonterminals.
pub open spec fn sym_nullable_in(s: PSym, set: Set<usize>) -> bool {
    match s {
        PSym::Eps => true,
        PSym::Ch(_) => false,
        PSym::Nt(id) => set.contains(id),
    }
}

/// Whether every element of an alternative is nullable.
pub open spec fn alt_nullable_in(alt: Seq<PSym>, set: Set<usize>) -> bool {
    forall|k: int| 0 <= k < alt.len() ==> sym_nullable_in(#[trigger] alt[k], set)
}

/// A set is closed under the nullability rule: whenever some alternative
/// of a rule is wholly nullable, the rule's left-hand side is in the set.
pub open spec fn nullable_closed(g: PGrammarV, set: Set<usize>) -> bool {
    forall|r: int|
        0 <= r < g.rules.len() && (exists|a: int|
            0 <= a < g.rules[r].alts.len() && alt_nullable_in(
                #[trigger] g.rules[r].alts[a],
                set,
            )) ==> set.contains((#[trigger] g.rules[r]).lhs)
}

/// The set of indices a boolean table marks.
pub open spec fn bools_as_set(nb: Seq<bool>) -> Set<usize> {
    Set::new(|id: usize| (id as int) < nb.len() && nb[id as int])
}

/// The marked entries are contained in every closed set.
pub open spec fn below_all_closed(g: PGrammarV, nb: Seq<bool>) -> bool {
    forall|s: Set<usize>, id: int|
        #![trigger nullable_closed(g, s), nb[id]]
        nullable_closed(g, s) && 0 <= id < nb.len() && nb[id] ==> s.contains(id as usize)
}

/// Two least closed sets are one: the nullable set of a grammar is unique.
pub proof fn lemma_least_closed_unique(g: PGrammarV, s1: Set<usize>, s2: Set<usize>)
    requires
        nullable_closed(g, s1),
        nullable_closed(g, s2),
        forall|s: Set<usize>, x: usize|
            #![trigger nullable_closed(g, s), s1.contains(x)]
            nullable_closed(g, s) && s1.contains(x) ==> s.contains(x),
        forall|s: Set<usize>, x: usize|
            #![trigger nullable_closed(g, s), s2.contains(x)]
            nullable_closed(g, s) && s2.contains(x) ==> s.contains(x),
    ensures
        s1 =~= s2,
{
}

proof fn lemma_alt_nullable_monotone(alt: Seq<PSym>, s1: Set<usize>, s2: Set<usize>)
    requires
        alt_nullable_in(alt, s1),
        forall|x: usize| s1.contains(x) ==> #[trigger] s2.contains(x),
    ensures
        alt_nullable_in(alt, s2),
{
    assert forall|k: int| 0 <= k < alt.len() implies sym_nullable_in(#[trigger] alt[k], s2) by {
        assert(sym_nullable_in(alt[k], s1));
        match alt[k] {
            PSym::Nt(id) => {
                assert(s1.contains(id));
            },
            _ => {},
        }
    }
}

/// How many entries of a boolean table are set.
pub open spec fn count_true(s: Seq<bool>) -> int
    decreases s.len(),
{
    if s.len() == 0 {
        0
    } else {
        count_true(s.drop_last()) + if s.last() {
            1int
        } else {
            0int
        }
    }
}

proof fn lemma_count_true_le(s: Seq<bool>)
    ensures
        0 <= count_true(s) <= s.len(),
    decreases s.len(),
{
    if s.len() > 0 {
        lemma_count_true_le(s.drop_last());
    }
}

proof fn lemma_count_true_update(s: Seq<bool>, i: int)
    requires
        0 <= i < s.len(),
        !s[i],
    ensures
        count_true(s.update(i, true)) == count_true(s) + 1,
    decreases s.len(),
{
    let u = s.update(i, true);
    if i == s.len() - 1 {
        assert(u.drop_last() =~= s.drop_last());
        assert(u.last());
    } else {
        assert(u.drop_last() =~= s.drop_last().update(i, true));
        lemma_count_true_update(s.drop_last(), i);
        assert(u.last() == s.last());
    }
}

/// Whether the alternative is wholly nullable under the current table.
fn alt_nullable_exec(pg: &PGrammar, nb: &Vec<bool>, r: usize, a: usize) -> (res: bool)
    requires
        pg@.wf(),
        r < pg@.rules.len(),
        a < pg@.rules[r as int].alts.len(),
        nb@.len() == pg@.nts.len(),
    ensures
        res == alt_nullable_in(pg@.rules[r as int].alts[a as int], bools_as_set(nb@)),
{
    let ghost av = pg@.rules[r as int].alts[a as int];
    let p: usize = pg.rules[r].alts[a].len();
    let mut k: usize = 0;
    while k < p
        invariant
            pg@.wf(),
            r < pg@.rules.len(),
            a < pg@.rules[r as int].alts.len(),
            nb@.len() == pg@.nts.len(),
            av == pg@.rules[r as int].alts[a as int],
            p == av.len(),
            k <= p,
            forall|k2: int|
                0 <= k2 < k ==> sym_nullable_in(#[trigger] av[k2], bools_as_set(nb@)),
        decreases p - k,
    {
        let sym = pg.rules[r].alts[a][k];
        proof {
            assert(sym == av[k as int]);
            assert(sym_ok(sym, pg@.nts.len() as int));
        }
        match sym {
            PSym::Eps => {},
            PSym::Ch(_) => {
                assert(!sym_nullable_in(av[k as int], bools_as_set(nb@)));
                return false;
            },
            PSym::Nt(id) => {
                if !nb[id] {
                    assert(!bools_as_set(nb@).contains(id));
                    return false;
                }
                assert(bools_as_set(nb@).contains(id));
            },
        }
        k = k + 1;
    }
    true
}

/// Computes the nullable nonterminals by fixpoint iteration. The result is
/// the least fixpoint of the one-step nullability rule: it is closed, and
/// it is contained in every closed set.
pub fn compute_nullable(pg: &PGrammar) -> (nb: Vec<bool>)
    requires
        pg@.wf(),
    ensures
        nb@.len() == pg@.nts.len(),
        nullable_closed(pg@, bools_as_set(nb@)),
        below_all_closed(pg@, nb@),
{
    let nn: usize = pg.nts.len();
    let mut nb: Vec<bool> = Vec::new();
    let mut i: usize = 0;
    while i < nn
        invariant
            nn == pg@.nts.len(),
            i <= nn,
            nb@.len() == i,
            forall|j: int| 0 <= j < i ==> !(#[trigger] nb@[j]),
        decreases nn - i,
    {
        nb.push(false);
        i = i + 1;
    }
    let mut updated: bool = true;
    proof {
        lemma_count_true_le(nb@);
    }
    while updated
        invariant
            pg@.wf(),
            nb@.len() == pg@.nts.len(),
            below_all_closed(pg@, nb@),
            0 <= count_true(nb@) <= nb@.len(),
            !updated ==> nullable_closed(pg@, bools_as_set(nb@)),
        decreases
                pg@.nts.len() - count_true(nb@),
                (if updated {
                    1int
                } else {
                    0int
                }),
    {
        updated = false;
        let ghost nb0 = nb@;
        let nr: usize = pg.rules.len();
        let mut r: usize = 0;
        while r < nr
            invariant
                pg@.wf(),
                nr == pg@.rules.len(),
                r <= nr,
                nb@.len() == pg@.nts.len(),
                below_all_closed(pg@, nb@),
                0 <= count_true(nb@) <= nb@.len(),
                updated ==> count_true(nb@) > count_true(nb0),
                !updated ==> nb@ == nb0,
                count_true(nb@) >= count_true(nb0),
                !updated ==> forall|r2: int|
                    0 <= r2 < r && (exists|a: int|
                        0 <= a < pg@.rules[r2].alts.len() && alt_nullable_in(
                            #[trigger] pg@.rules[r2].alts[a],
                            bools_as_set(nb@),
                        )) ==> bools_as_set(nb@).contains((#[trigger] pg@.rules[r2]).lhs),
            decreases nr - r,
        {
            let lhs = pg.rules[r].lhs;
            proof {
                assert(pg@.rules[r as int].lhs == lhs);
                assert((lhs as int) < pg@.nts.len());
            }
            if !nb[lhs] {
                let na: usize = pg.rules[r].alts.len();
                let mut a: usize = 0;
                let mut found: bool = false;
                while a < na && !found
                    invariant
                        pg@.wf(),
                        r < pg@.rules.len(),
                        nb@.len() == pg@.nts.len(),
                        na == pg@.rules[r as int].alts.len(),
                        a <= na,
                        found ==> exists|a2: int|
                            0 <= a2 < na && alt_nullable_in(
                                #[trigger] pg@.rules[r as int].alts[a2],
                                bools_as_set(nb@),
                            ),
                        !found ==> forall|a2: int|
                            0 <= a2 < a ==> !alt_nullable_in(
                                #[trigger] pg@.rules[r as int].alts[a2],
                                bools_as_set(nb@),
                            ),
                    decreases
                            na - a,
                            (if found {
                                0int
                            } else {
                                1int
                            }),
                {
                    if alt_nullable_exec(pg, &nb, r, a) {
                        found = true;
                    } else {
                        a = a + 1;
                    }
                }
                if found {
                    let ghost nb_before = nb@;
                    nb.set(lhs, true);
                    updated = true;
                    proof {
                        lemma_count_true_update(nb_before, lhs as int);
                        lemma_count_true_le(nb@);
                        assert(nb@ == nb_before.update(lhs as int, true));
                        // the new entry is forced into every closed set
                        assert forall|s: Set<usize>, id: int|
                            #![trigger nullable_closed(pg@, s), nb@[id]]
                            nullable_closed(pg@, s) && 0 <= id < nb@.len() && nb@[id] implies s.contains(
                            id as usize,
                        ) by {
                            if id == lhs as int {
                                let a2 = choose|a2: int|
                                    0 <= a2 < pg@.rules[r as int].alts.len() && alt_nullable_in(
                                        #[trigger] pg@.rules[r as int].alts[a2],
                                        bools_as_set(nb_before),
                                    );
                                assert forall|x: usize|
                                    bools_as_set(nb_before).contains(x) implies #[trigger] s.contains(
                                    x,
                                ) by {
                                    assert(nb_before[x as int]);
                                }
                                lemma_alt_nullable_monotone(
                                    pg@.rules[r as int].alts[a2],
                                    bools_as_set(nb_before),
                                    s,
                                );
                                assert(s.contains(pg@.rules[r as int].lhs));
                            } else {
                                assert(nb_before[id]);
                            }
                        }
                    }
                } else {
                    proof {
                        assert(!updated ==> nb@ == nb0);
                    }
                }
            }
            r = r + 1;
        }
        proof {
            if !updated {
                assert(nb@ == nb0);
                assert forall|r2: int|
                    0 <= r2 < pg@.rules.len() && (exists|a: int|
                        0 <= a < pg@.rules[r2].alts.len() && alt_nullable_in(
                            #[trigger] pg@.rules[r2].alts[a],
                            bools_as_set(nb@),
                        )) implies bools_as_set(nb@).contains((#[trigger] pg@.rules[r2]).lhs) by {}
            }
        }
    }
    nb
}

/// One Earley item: an alternative of a rule, a dot position within it,
/// the column the match started in, and the forest node built for it. The
/// forest node takes no part in an item's identity.
#[derive(Clone, Copy, Debug, PartialEq, Eq, Structural)]
pub struct EarleyItem {
    pub rule: usize,
    pub alt: usize,
    pub dot: usize,
    pub start: usize,
    pub sppf: SppfLabel,
}

/// Identity of two items: everything but the forest node.
pub open spec fn same_item(a: EarleyItem, b: EarleyItem) -> bool {
    a.rule == b.rule && a.alt == b.alt && a.dot == b.dot && a.start == b.start
}

/// Decides [`same_item`].
pub fn item_eq(a: &EarleyItem, b: &EarleyItem) -> (r: bool)
    ensures
        r == same_item(*a, *b),
{
    a.rule == b.rule && a.alt == b.alt && a.dot == b.dot && a.start == b.start
}

/// An item makes sense for the grammar and cannot have started after its
/// column.
pub open spec fn item_valid(g: PGrammarV, it: EarleyItem, colidx: int) -> bool {
    &&& (it.rule as int) < g.rules.len()
    &&& (it.alt as int) < g.rules[it.rule as int].alts.len()
    &&& (it.dot as int) <= g.rules[it.rule as int].alts[it.alt as int].len()
    &&& (it.start as int) <= colidx
}

pub open spec fn items_valid(g: PGrammarV, items: Seq<EarleyItem>, colidx: int) -> bool {
    forall|i: int| 0 <= i < items.len() ==> item_valid(g, #[trigger] items[i], colidx)
}

pub open spec fn items_distinct(items: Seq<EarleyItem>) -> bool {
    forall|i: int, j: int| 0 <= i < j < items.len() ==> !same_item(items[i], items[j])
}

pub open spec fn has_item(items: Seq<EarleyItem>, it: EarleyItem) -> bool {
    exists|j: int| 0 <= j < items.len() && same_item(items[j], it)
}

/// A strict upper bound on the alternative count of any rule.
pub open spec fn alts_bound(rules: Seq<PRuleV>) -> int
    decreases rules.len(),
{
    if rules.len() == 0 {
        1
    } else {
        let p = alts_bound(rules.drop_last());
        let c = rules.last().alts.len() as int + 1;
        if c > p {
            c
        } else {
            p
        }
    }
}

proof fn lemma_alts_bound(rules: Seq<PRuleV>)
    ensures
        1 <= alts_bound(rules),
        forall|r: int|
            0 <= r < rules.len() ==> ((#[trigger] rules[r]).alts.len() as int) < alts_bound(rules),
    decreases rules.len(),
{
    if rules.len() > 0 {
        lemma_alts_bound(rules.drop_last());
        assert forall|r: int| 0 <= r < rules.len() implies ((#[trigger] rules[r]).alts.len()
            as int) < alts_bound(rules) by {
            if r < rules.len() - 1 {
                assert(rules.drop_last()[r] == rules[r]);
            } else {
                assert(rules[r] == rules.last());
            }
        }
    }
}

/// A strict upper bound on the dot positions of one rule's alternatives.
pub open spec fn rule_dot_bound(alts: Seq<Seq<PSym>>) -> int
    decreases alts.len(),
{
    if alts.len() == 0 {
        1
    } else {
        let p = rule_dot_bound(alts.drop_last());
        let c = alts.last().len() as int + 1;
        if c > p {
            c
        } else {
            p
        }
    }
}

proof fn lemma_rule_dot_bound(alts: Seq<Seq<PSym>>)
    ensures
        1 <= rule_dot_bound(alts),
        forall|a: int|
            0 <= a < alts.len() ==> ((#[trigger] alts[a]).len() as int) < rule_dot_bound(alts),
    decreases alts.len(),
{
    if alts.len() > 0 {
        lemma_rule_dot_bound(alts.drop_last());
        assert forall|a: int| 0 <= a < alts.len() implies ((#[trigger] alts[a]).len() as int)
            < rule_dot_bound(alts) by {
            if a < alts.len() - 1 {
                assert(alts.drop_last()[a] == alts[a]);
            } else {
                assert(alts[a] == alts.last());
            }
        }
    }
}

/// A strict upper bound on the dot positions of any rule.
pub open spec fn dots_bound(rules: Seq<PRuleV>) -> int
    decreases rules.len(),
{
    if rules.len() == 0 {
        1
    } else {
        let p = dots_bound(rules.drop_last());
        let c = rule_dot_bound(rules.last().alts);
        if c > p {
            c
        } else {
            p
        }
    }
}

proof fn lemma_dots_bound(rules: Seq<PRuleV>)
    ensures
        1 <= dots_bound(rules),
        forall|r: int, a: int|
            0 <= r < rules.len() && 0 <= a < rules[r].alts.len() ==> ((#[trigger] rules[r].alts[a]).len()
                as int) < dots_bound(rules),
    decreases rules.len(),
{
    if rules.len() > 0 {
        lemma_dots_bound(rules.drop_last());
        lemma_rule_dot_bound(rules.last().alts);
        assert forall|r: int, a: int|
            0 <= r < rules.len() && 0 <= a < rules[r].alts.len() implies ((#[trigger] rules[r].alts[a]).len()
            as int) < dots_bound(rules) by {
            if r < rules.len() - 1 {
                assert(rules.drop_last()[r] == rules[r]);
            } else {
                assert(rules[r] == rules.last());
            }
        }
    }
}

/// The number a valid item in a chart of `ncols` columns encodes to.
pub open spec fn item_code(g: PGrammarV, it: EarleyItem, ncols: int) -> int {
    ((it.rule * alts_bound(g.rules) + it.alt) * dots_bound(g.rules) + it.dot) * ncols + it.start
}

/// One more than the largest item code: how many distinct items a chart of
/// `ncols` columns can hold at most.
pub open spec fn chart_bound(g: PGrammarV, ncols: int) -> int {
    g.rules.len() * alts_bound(g.rules) * dots_bound(g.rules) * ncols
}

proof fn lemma_item_code_bounds(g: PGrammarV, it: EarleyItem, colidx: int, ncols: int)
    requires
        item_valid(g, it, colidx),
        0 <= colidx < ncols,
    ensures
        0 <= item_code(g, it, ncols) < chart_bound(g, ncols),
{
    lemma_alts_bound(g.rules);
    lemma_dots_bound(g.rules);
    let cr = g.rules.len() as int;
    let ca = alts_bound(g.rules);
    let cd = dots_bound(g.rules);
    let r = it.rule as int;
    let a = it.alt as int;
    let d = it.dot as int;
    let st = it.start as int;
    assert(r < cr && a < ca && d < cd && st < ncols);
    assert(0 <= ((r * ca + a) * cd + d) * ncols + st < cr * ca * cd * ncols) by (nonlinear_arith)
        requires
            0 <= r < cr,
            0 <= a < ca,
            0 <= d < cd,
            0 <= st < ncols,
            1 <= ca,
            1 <= cd,
    ;
}

proof fn lemma_item_code_injective(g: PGrammarV, x: EarleyItem, y: EarleyItem, cx: int, cy: int, ncols: int)
    requires
        item_valid(g, x, cx),
        item_valid(g, y, cy),
        0 <= cx < ncols,
        0 <= cy < ncols,
        item_code(g, x, ncols) == item_code(g, y, ncols),
    ensures
        same_item(x, y),
{
    lemma_alts_bound(g.rules);
    lemma_dots_bound(g.rules);
    let ca = alts_bound(g.rules);
    let cd = dots_bound(g.rules);
    let qx = (x.rule * ca + x.alt) * cd + x.dot;
    let qy = (y.rule * ca + y.alt) * cd + y.dot;
    assert((x.rule * ca + x.alt) * cd + x.dot >= 0 && (y.rule * ca + y.alt) * cd + y.dot >= 0)
        by (nonlinear_arith)
        requires
            0 <= x.rule,
            0 <= x.alt,
            0 <= x.dot,
            0 <= y.rule,
            0 <= y.alt,
            0 <= y.dot,
            1 <= ca,
            1 <= cd,
    ;
    vstd::arithmetic::div_mod::lemma_fundamental_div_mod_converse(
        qx * ncols + x.start,
        ncols,
        qx,
        x.start as int,
    );
    vstd::arithmetic::div_mod::lemma_fundamental_div_mod_converse(
        qy * ncols + y.start,
        ncols,
        qy,
        y.start as int,
    );
    assert(qx == qy && x.start == y.start);
    let px = x.rule * ca + x.alt;
    let py = y.rule * ca + y.alt;
    assert(x.rule * ca + x.alt >= 0 && y.rule * ca + y.alt >= 0) by (nonlinear_arith)
        requires
            0 <= x.rule,
            0 <= x.alt,
            0 <= y.rule,
            0 <= y.alt,
            1 <= ca,
    ;
    vstd::arithmetic::div_mod::lemma_fundamental_div_mod_converse(
        px * cd + x.dot,
        cd,
        px,
        x.dot as int,
    );
    vstd::arithmetic::div_mod::lemma_fundamental_div_mod_converse(
        py * cd + y.dot,
        cd,
        py,
        y.dot as int,
    );
    assert(px == py && x.dot == y.dot);
    vstd::arithmetic::div_mod::lemma_fundamental_div_mod_converse(
        x.rule * ca + x.alt,
        ca,
        x.rule as int,
        x.alt as int,
    );
    vstd::arithmetic::div_mod::lemma_fundamental_div_mod_converse(
        y.rule * ca + y.alt,
        ca,
        y.rule as int,
        y.alt as int,
    );
}

proof fn lemma_distinct_ints_bounded(s: Seq<int>, bound: int)
    requires
        s.no_duplicates(),
        forall|t: int| 0 <= t < s.len() ==> 0 <= #[trigger] s[t] < bound,
        0 <= bound,
    ensures
        s.len() <= bound,
{
    broadcast use vstd::set::group_set_axioms;

    s.unique_seq_to_set();
    assert(s.to_set().subset_of(vstd::set_lib::set_int_range(0, bound))) by {
        assert forall|x: int| s.to_set().contains(x) implies vstd::set_lib::set_int_range(
            0,
            bound,
        ).contains(x) by {
            let i = choose|i: int| 0 <= i < s.len() && s[i] == x;
            assert(0 <= s[i] < bound);
        }
    }
    vstd::set_lib::lemma_int_range(0, bound);
    vstd::set_lib::lemma_len_subset(s.to_set(), vstd::set_lib::set_int_range(0, bound));
}

/// A column of distinct valid items cannot outgrow the item space.
proof fn lemma_column_len_bounded(
    g: PGrammarV,
    items: Seq<EarleyItem>,
    colidx: int,
    ncols: int,
)
    requires
        items_valid(g, items, colidx),
        items_distinct(items),
        0 <= colidx < ncols,
    ensures
        items.len() <= chart_bound(g, ncols),
{
    let codes = Seq::new(items.len(), |i: int| item_code(g, items[i], ncols));
    assert forall|i: int, j: int|
        0 <= i < codes.len() && 0 <= j < codes.len() && i != j implies codes[i] != codes[j] by {
        if item_code(g, items[i], ncols) == item_code(g, items[j], ncols) {
            lemma_item_code_injective(g, items[i], items[j], colidx, colidx, ncols);
            if i < j {
                assert(!same_item(items[i], items[j]));
            } else {
                assert(!same_item(items[j], items[i]));
            }
        }
    }
    assert(codes.no_duplicates());
    assert forall|t: int| 0 <= t < codes.len() implies 0 <= #[trigger] codes[t] < chart_bound(
        g,
        ncols,
    ) by {
        lemma_item_code_bounds(g, items[t], colidx, ncols);
    }
    lemma_alts_bound(g.rules);
    lemma_dots_bound(g.rules);
    assert(chart_bound(g, ncols) >= 0) by (nonlinear_arith)
        requires
            0 <= g.rules.len(),
            1 <= alts_bound(g.rules),
            1 <= dots_bound(g.rules),
            0 < ncols,
    ;
    lemma_distinct_ints_bounded(codes, chart_bound(g, ncols));
}

/// One column of the chart: the character it consumed, its items in
/// discovery order, and the cached topmost items of deterministic
/// reduction, keyed by left-hand side.
pub struct Column {
    pub symbol: char,
    pub items: Vec<EarleyItem>,
    pub transitive: Vec<(usize, EarleyItem)>,
}

/// Mathematical value of a [`Column`].
#[verifier::ext_equal]
pub ghost struct ColumnV {
    pub symbol: char,
    pub items: Seq<EarleyItem>,
    pub transitive: Seq<(usize, EarleyItem)>,
}

impl View for Column {
    type V = ColumnV;

    open spec fn view(&self) -> ColumnV {
        ColumnV { symbol: self.symbol, items: self.items@, transitive: self.transitive@ }
    }
}

impl DeepView for Column {
    type V = ColumnV;

    open spec fn deep_view(&self) -> ColumnV {
        self.view()
    }
}

pub open spec fn has_key(tr: Seq<(usize, EarleyItem)>, key: usize) -> bool {
    exists|j: int| 0 <= j < tr.len() && tr[j].0 == key
}

impl Column {
    /// A fresh column for the given character.
    pub fn new(symbol: char) -> (c: Column)
        ensures
            c@.symbol == symbol,
            c@.items == Seq::<EarleyItem>::empty(),
            c@.transitive == Seq::<(usize, EarleyItem)>::empty(),
    {
        Column { symbol, items: Vec::new(), transitive: Vec::new() }
    }

    /// Appends the item unless an identical one is already present,
    /// keeping discovery order.
    pub fn add(&mut self, it: EarleyItem)
        ensures
            final(self)@.items == if has_item(old(self)@.items, it) {
                old(self)@.items
            } else {
                old(self)@.items.push(it)
            },
            final(self)@.symbol == old(self)@.symbol,
            final(self)@.transitive == old(self)@.transitive,
    {
        let n: usize = self.items.len();
        let mut i: usize = 0;
        while i < n
            invariant
                n == self.items@.len(),
                self@ == old(self)@,
                i <= n,
                forall|j: int| 0 <= j < i ==> !same_item(self.items@[j], it),
            decreases n - i,
        {
            if item_eq(&self.items[i], &it) {
                proof {
                    assert(same_item(self.items@[i as int], it));
                }
                return ;
            }
            i = i + 1;
        }
        self.items.push(it);
    }

    /// Caches a topmost item for its left-hand side; the first entry wins.
    pub fn add_transitive(&mut self, key: usize, it: EarleyItem)
        ensures
            final(self)@.transitive == if has_key(old(self)@.transitive, key) {
                old(self)@.transitive
            } else {
                old(self)@.transitive.push((key, it))
            },
            final(self)@.symbol == old(self)@.symbol,
            final(self)@.items == old(self)@.items,
    {
        let n: usize = self.transitive.len();
        let mut i: usize = 0;
        while i < n
            invariant
                n == self.transitive@.len(),
                self@ == old(self)@,
                i <= n,
                forall|j: int| 0 <= j < i ==> self.transitive@[j].0 != key,
            decreases n - i,
        {
            if self.transitive[i].0 == key {
                proof {
                    assert(self.transitive@[i as int].0 == key);
                }
                return ;
            }
            i = i + 1;
        }
        self.transitive.push((key, it));
    }

    /// The cached topmost item for a left-hand side, if any.
    pub fn get_transitive(&self, key: usize) -> (r: Option<EarleyItem>)
        ensures
            match r {
                Some(it) => exists|j: int|
                    0 <= j < self@.transitive.len() && (#[trigger] self@.transitive[j]).0 == key
                        && self@.transitive[j].1 == it,
                None => !has_key(self@.transitive, key),
            },
    {
        let n: usize = self.transitive.len();
        let mut i: usize = 0;
        while i < n
            invariant
                n == self.transitive@.len(),
                i <= n,
                forall|j: int| 0 <= j < i ==> self.transitive@[j].0 != key,
            decreases n - i,
        {
            if self.transitive[i].0 == key {
                let it = self.transitive[i].1;
                proof {
                    assert(self@.transitive[i as int].0 == key && self@.transitive[i as int].1
                        == it);
                    assert(exists|j: int|
                        0 <= j < self@.transitive.len() && (#[trigger] self@.transitive[j]).0
                            == key && self@.transitive[j].1 == it);
                }
                return Some(it);
            }
            i = i + 1;
        }
        None
    }
}

/// The mutable recognition state: one column per consumed input position,
/// the per-column memo of completed nullable nonterminals, and the forest
/// node of the character being scanned.
pub struct ParsingState {
    pub state_table: Vec<Column>,
    pub nullable_node_memo: Vec<(usize, SppfLabel)>,
    pub current_terminal_node: SppfLabel,
}

/// Every column holds distinct valid items, and caches only valid items.
pub open spec fn chart_ok(g: PGrammarV, cols: Seq<ColumnV>) -> bool {
    forall|c: int|
        0 <= c < cols.len() ==> {
            &&& items_valid(g, (#[trigger] cols[c]).items, c)
            &&& items_distinct(cols[c].items)
            &&& forall|j: int|
                0 <= j < cols[c].transitive.len() ==> item_valid(
                    g,
                    (#[trigger] cols[c].transitive[j]).1,
                    c,
                ) && cols[c].transitive[j].1.dot >= 1
        }
}

/// The chart only grows: same column count, same symbols, each item list
/// extended at its end with the identities of the items already there
/// untouched (their forest nodes may be refined), and each cache of
/// topmost items extended at its end unchanged.
pub open spec fn cols_extend(a: Seq<ColumnV>, b: Seq<ColumnV>) -> bool {
    &&& b.len() == a.len()
    &&& forall|c: int|
        0 <= c < a.len() ==> (#[trigger] b[c]).symbol == a[c].symbol && a[c].items.len()
            <= b[c].items.len() && (forall|i: int|
            0 <= i < a[c].items.len() ==> same_item(a[c].items[i], #[trigger] b[c].items[i]))
            && a[c].transitive.len() <= b[c].transitive.len() && (forall|j: int|
            0 <= j < a[c].transitive.len() ==> a[c].transitive[j] == #[trigger] b[c].transitive[j])
}

pub proof fn lemma_cols_extend_refl(a: Seq<ColumnV>)
    ensures
        cols_extend(a, a),
{
}

pub proof fn lemma_cols_extend_trans(a: Seq<ColumnV>, b: Seq<ColumnV>, c: Seq<ColumnV>)
    requires
        cols_extend(a, b),
        cols_extend(b, c),
    ensures
        cols_extend(a, c),
{
    assert forall|x: int| 0 <= x < a.len() implies (#[trigger] c[x]).symbol == a[x].symbol && a[
        x
    ].items.len() <= c[x].items.len() && (forall|i: int|
        0 <= i < a[x].items.len() ==> same_item(a[x].items[i], #[trigger] c[x].items[i])) && a[
        x
    ].transitive.len() <= c[x].transitive.len() && (forall|j: int|
        0 <= j < a[x].transitive.len() ==> a[x].transitive[j] == #[trigger] c[x].transitive[j]) by {
        assert(b[x].symbol == a[x].symbol);
        assert forall|i: int| 0 <= i < a[x].items.len() implies same_item(
            a[x].items[i],
            #[trigger] c[x].items[i],
        ) by {
            assert(same_item(a[x].items[i], b[x].items[i]));
            assert(same_item(b[x].items[i], c[x].items[i]));
        }
        assert forall|j: int| 0 <= j < a[x].transitive.len() implies a[x].transitive[j]
            == #[trigger] c[x].transitive[j] by {
            assert(a[x].transitive[j] == b[x].transitive[j]);
        }
    }
}

impl ParsingState {
    /// Adds one item to a column, with its dedup; the chart stays sound.
    fn chart_add(&mut self, pg: &PGrammar, col: usize, it: EarleyItem)
        requires
            pg@.wf(),
            chart_ok(pg@, old(self).state_table.deep_view()),
            col < old(self).state_table@.len(),
            item_valid(pg@, it, col as int),
        ensures
            chart_ok(pg@, final(self).state_table.deep_view()),
            cols_extend(old(self).state_table.deep_view(), final(self).state_table.deep_view()),
            final(self).state_table.deep_view()[col as int].items == if has_item(
                old(self).state_table.deep_view()[col as int].items,
                it,
            ) {
                old(self).state_table.deep_view()[col as int].items
            } else {
                old(self).state_table.deep_view()[col as int].items.push(it)
            },
            forall|c: int|
                0 <= c < old(self).state_table@.len() && c != col
                    ==> #[trigger] final(self).state_table.deep_view()[c]
                    == old(self).state_table.deep_view()[c],
            final(self).state_table.deep_view()[col as int].transitive == old(
                self,
            ).state_table.deep_view()[col as int].transitive,
            final(self).nullable_node_memo == old(self).nullable_node_memo,
            final(self).current_terminal_node == old(self).current_terminal_node,
    {
        let ghost cols0 = self.state_table.deep_view();
        let target = vstd::std_specs::vec::vec_index_mut(&mut self.state_table, col);
        target.add(it);
        proof {
            let cols1 = self.state_table.deep_view();
            assert(cols1 =~= cols0.update(
                col as int,
                ColumnV {
                    symbol: cols0[col as int].symbol,
                    items: if has_item(cols0[col as int].items, it) {
                        cols0[col as int].items
                    } else {
                        cols0[col as int].items.push(it)
                    },
                    transitive: cols0[col as int].transitive,
                },
            )) by {
                assert(cols1[col as int] =~= ColumnV {
                    symbol: cols0[col as int].symbol,
                    items: if has_item(cols0[col as int].items, it) {
                        cols0[col as int].items
                    } else {
                        cols0[col as int].items.push(it)
                    },
                    transitive: cols0[col as int].transitive,
                });
            }
            assert forall|c: int| 0 <= c < cols1.len() implies {
                &&& items_valid(pg@, (#[trigger] cols1[c]).items, c)
                &&& items_distinct(cols1[c].items)
                &&& forall|j: int|
                    0 <= j < cols1[c].transitive.len() ==> item_valid(
                        pg@,
                        (#[trigger] cols1[c].transitive[j]).1,
                        c,
                    )
            } by {
                if c == col as int && !has_item(cols0[c].items, it) {
                    let ni = cols1[c].items;
                    let oi = cols0[c].items;
                    assert(items_valid(pg@, ni, c)) by {
                        assert forall|i: int| 0 <= i < ni.len() implies item_valid(
                            pg@,
                            #[trigger] ni[i],
                            c,
                        ) by {
                            if i < oi.len() {
                                assert(ni[i] == oi[i]);
                            } else {
                                assert(ni[i] == it);
                            }
                        }
                    }
                    assert(items_distinct(ni)) by {
                        assert forall|i: int, j: int| 0 <= i < j < ni.len() implies !same_item(
                            ni[i],
                            ni[j],
                        ) by {
                            if j < oi.len() {
                                assert(ni[i] == oi[i] && ni[j] == oi[j]);
                            } else {
                                assert(ni[j] == it && ni[i] == oi[i]);
                                assert(!has_item(oi, it));
                            }
                        }
                    }
                } else {
                    assert(cols1[c] == cols0[c]);
                }
            }
        }
    }

    /// Caches one topmost item in a column, first entry winning.
    fn chart_add_transitive(&mut self, pg: &PGrammar, col: usize, key: usize, it: EarleyItem)
        requires
            pg@.wf(),
            chart_ok(pg@, old(self).state_table.deep_view()),
            col < old(self).state_table@.len(),
            item_valid(pg@, it, col as int),
            it.dot >= 1,
        ensures
            chart_ok(pg@, final(self).state_table.deep_view()),
            cols_extend(old(self).state_table.deep_view(), final(self).state_table.deep_view()),
            forall|c: int|
                0 <= c < old(self).state_table@.len() ==> (#[trigger] final(self).state_table.deep_view()[c]).items
                    == old(self).state_table.deep_view()[c].items,
            final(self).state_table.deep_view()[col as int].transitive == if has_key(
                old(self).state_table.deep_view()[col as int].transitive,
                key,
            ) {
                old(self).state_table.deep_view()[col as int].transitive
            } else {
                old(self).state_table.deep_view()[col as int].transitive.push((key, it))
            },
            final(self).nullable_node_memo == old(self).nullable_node_memo,
            final(self).current_terminal_node == old(self).current_terminal_node,
    {
        let ghost cols0 = self.state_table.deep_view();
        let target = vstd::std_specs::vec::vec_index_mut(&mut self.state_table, col);
        target.add_transitive(key, it);
        proof {
            let cols1 = self.state_table.deep_view();
            assert forall|c: int| 0 <= c < cols1.len() implies {
                &&& items_valid(pg@, (#[trigger] cols1[c]).items, c)
                &&& items_distinct(cols1[c].items)
                &&& forall|j: int|
                    0 <= j < cols1[c].transitive.len() ==> item_valid(
                        pg@,
                        (#[trigger] cols1[c].transitive[j]).1,
                        c,
                    ) && cols1[c].transitive[j].1.dot >= 1
            } by {
                if c == col as int {
                    assert(cols1[c].items == cols0[c].items);
                    assert(cols1[c].symbol == cols0[c].symbol);
                    let nt = cols1[c].transitive;
                    let ot = cols0[c].transitive;
                    assert forall|j: int| 0 <= j < nt.len() implies item_valid(
                        pg@,
                        (#[trigger] nt[j]).1,
                        c,
                    ) && nt[j].1.dot >= 1 by {
                        if !has_key(ot, key) && j == ot.len() {
                            assert(nt[j] == (key, it));
                        } else {
                            assert(nt[j] == ot[j]);
                        }
                    }
                } else {
                    assert(cols1[c] == cols0[c]);
                }
            }
        }
    }

    /// Replaces the forest node of one stored item; its identity stays.
    fn chart_set_sppf(&mut self, pg: &PGrammar, col: usize, idx: usize, label: SppfLabel)
        requires
            pg@.wf(),
            chart_ok(pg@, old(self).state_table.deep_view()),
            col < old(self).state_table@.len(),
            idx < old(self).state_table.deep_view()[col as int].items.len(),
        ensures
            chart_ok(pg@, final(self).state_table.deep_view()),
            final(self).state_table.deep_view().len() == old(self).state_table.deep_view().len(),
            forall|c: int|
                0 <= c < old(self).state_table@.len() && c != col
                    ==> #[trigger] final(self).state_table.deep_view()[c]
                    == old(self).state_table.deep_view()[c],
            ({
                let oldc = old(self).state_table.deep_view()[col as int];
                let oit = oldc.items[idx as int];
                final(self).state_table.deep_view()[col as int] =~= ColumnV {
                    symbol: oldc.symbol,
                    items: oldc.items.update(
                        idx as int,
                        EarleyItem {
                            rule: oit.rule,
                            alt: oit.alt,
                            dot: oit.dot,
                            start: oit.start,
                            sppf: label,
                        },
                    ),
                    transitive: oldc.transitive,
                }
            }),
            final(self).nullable_node_memo == old(self).nullable_node_memo,
            final(self).current_terminal_node == old(self).current_terminal_node,
    {
        let ghost cols0 = self.state_table.deep_view();
        let target = vstd::std_specs::vec::vec_index_mut(&mut self.state_table, col);
        let oit = target.items[idx];
        let nit = EarleyItem {
            rule: oit.rule,
            alt: oit.alt,
            dot: oit.dot,
            start: oit.start,
            sppf: label,
        };
        target.items.set(idx, nit);
        proof {
            let cols1 = self.state_table.deep_view();
            assert(same_item(nit, cols0[col as int].items[idx as int]));
            assert forall|c: int| 0 <= c < cols1.len() implies {
                &&& items_valid(pg@, (#[trigger] cols1[c]).items, c)
                &&& items_distinct(cols1[c].items)
                &&& forall|j: int|
                    0 <= j < cols1[c].transitive.len() ==> item_valid(
                        pg@,
                        (#[trigger] cols1[c].transitive[j]).1,
                        c,
                    ) && cols1[c].transitive[j].1.dot >= 1
            } by {
                if c == col as int {
                    let ni = cols1[c].items;
                    let oi = cols0[c].items;
                    assert forall|i: int| 0 <= i < ni.len() implies item_valid(
                        pg@,
                        #[trigger] ni[i],
                        c,
                    ) by {
                        if i != idx as int {
                            assert(ni[i] == oi[i]);
                        } else {
                            assert(item_valid(pg@, oi[i], c));
                        }
                    }
                    assert forall|i: int, j: int| 0 <= i < j < ni.len() implies !same_item(
                        ni[i],
                        ni[j],
                    ) by {
                        assert(same_item(ni[i], oi[i]) || ni[i] == oi[i]);
                        assert(same_item(ni[j], oi[j]) || ni[j] == oi[j]);
                        assert(!same_item(oi[i], oi[j]));
                    }
                    assert(cols1[c].transitive == cols0[c].transitive);
                } else {
                    assert(cols1[c] == cols0[c]);
                }
            }
        }
    }

    /// The memo entry for a nonterminal completed nullable in this
    /// column: the first recorded forest node for the key, if any.
    fn memo_get(&self, key: usize) -> (r: Option<SppfLabel>)
        ensures
            match r {
                Some(l) => exists|j: int|
                    0 <= j < self.nullable_node_memo@.len() && (
                    #[trigger] self.nullable_node_memo@[j]).0 == key
                        && self.nullable_node_memo@[j].1 == l && (forall|k: int|
                        0 <= k < j ==> (#[trigger] self.nullable_node_memo@[k]).0 != key),
                None => forall|j: int|
                    0 <= j < self.nullable_node_memo@.len() ==> (
                    #[trigger] self.nullable_node_memo@[j]).0 != key,
            },
    {
        let n: usize = self.nullable_node_memo.len();
        let mut i: usize = 0;
        while i < n
            invariant
                n == self.nullable_node_memo@.len(),
                i <= n,
                forall|k: int|
                    0 <= k < i ==> (#[trigger] self.nullable_node_memo@[k]).0 != key,
            decreases n - i,
        {
            if self.nullable_node_memo[i].0 == key {
                proof {
                    assert(self.nullable_node_memo@[i as int].0 == key);
                }
                return Some(self.nullable_node_memo[i].1);
            }
            i = i + 1;
        }
        None
    }
}

/// How deep one deterministic-reduction chain may go before completion
/// falls back to the classical path.
pub const LEO_FUEL: u64 = 4096;

/// The item's rule, alternative and dot make sense for the grammar.
pub open spec fn item_shape_ok(g: PGrammarV, it: EarleyItem) -> bool {
    &&& (it.rule as int) < g.rules.len()
    &&& (it.alt as int) < g.rules[it.rule as int].alts.len()
    &&& (it.dot as int) <= g.rules[it.rule as int].alts[it.alt as int].len()
}

/// The left-hand side of the item's rule.
pub open spec fn item_lhs(g: PGrammarV, it: EarleyItem) -> usize {
    g.rules[it.rule as int].lhs
}

/// The item has matched its whole alternative.
pub open spec fn item_finished(g: PGrammarV, it: EarleyItem) -> bool {
    (it.dot as int) == g.rules[it.rule as int].alts[it.alt as int].len()
}

/// The symbol right after the item's dot.
pub open spec fn item_sym_at_dot(g: PGrammarV, it: EarleyItem) -> PSym {
    g.rules[it.rule as int].alts[it.alt as int][it.dot as int]
}

/// The item's identity advanced over one symbol, with no forest node: the
/// form in which presence in a column is stated, since an item's identity
/// ignores its forest node.
pub open spec fn advance_of(it: EarleyItem) -> EarleyItem {
    EarleyItem {
        rule: it.rule,
        alt: it.alt,
        dot: (it.dot + 1) as usize,
        start: it.start,
        sppf: SppfLabel::Null,
    }
}

/// The item waits for the nonterminal `b`: `b` stands right after its dot.
pub open spec fn waits_for(g: PGrammarV, it: EarleyItem, b: usize) -> bool {
    &&& item_shape_ok(g, it)
    &&& (it.dot as int) < g.rules[it.rule as int].alts[it.alt as int].len()
    &&& item_sym_at_dot(g, it) == PSym::Nt(b)
}

/// `p` is the only item of the list waiting for `b`, and its dot stands
/// right before its final position: the condition under which Leo's
/// deterministic reduction applies.
pub open spec fn unique_final_parent(
    g: PGrammarV,
    items: Seq<EarleyItem>,
    b: usize,
    p: EarleyItem,
) -> bool {
    exists|j: int|
        0 <= j < items.len() && items[j] == p && waits_for(g, p, b) && (it_final_pos(g, p)) && (
        forall|k: int| 0 <= k < items.len() && k != j ==> !waits_for(g, #[trigger] items[k], b))
}

/// The dot stands right before the last symbol.
pub open spec fn it_final_pos(g: PGrammarV, it: EarleyItem) -> bool {
    (it.dot as int) + 1 == g.rules[it.rule as int].alts[it.alt as int].len()
}

/// What processing one item guarantees of the chart around it, in terms of
/// which items are then present.
///
/// A finished item has been completed: either classically, every parent
/// waiting for its left-hand side in its start column having advanced into
/// this column, or by deterministic reduction, some advanced item from the
/// unique-parent chain standing in this column. An item with a nonterminal
/// after the dot has seeded that nonterminal's alternatives here, and has
/// itself advanced when the nonterminal is nullable. An item with an empty
/// terminal after the dot has advanced in place. An item with a character
/// after the dot has advanced into the next column when that column
/// carries the character.
pub open spec fn item_consequences(
    g: PGrammarV,
    nullable: Seq<bool>,
    cols: Seq<ColumnV>,
    c: int,
    it: EarleyItem,
) -> bool {
    if item_finished(g, it) {
        completion_consequence(g, cols, c, it)
    } else {
        match item_sym_at_dot(g, it) {
            PSym::Nt(b) => {
                &&& (g.rule_of[b as int] matches Some(ri) ==> forall|a: int|
                    0 <= a < g.rules[ri as int].alts.len() ==> #[trigger] has_item(
                        cols[c].items,
                        (EarleyItem {
                            rule: ri,
                            alt: a as usize,
                            dot: 0,
                            start: c as usize,
                            sppf: SppfLabel::Null,
                        }),
                    ))
                &&& ((b as int) < nullable.len() && nullable[b as int] ==> has_item(
                    cols[c].items,
                    advance_of(it),
                ))
            },
            PSym::Eps => has_item(cols[c].items, advance_of(it)),
            PSym::Ch(ch) => c + 1 < cols.len() && cols[c + 1].symbol == ch ==> has_item(
                cols[c + 1].items,
                advance_of(it),
            ),
        }
    }
}

/// A finished item's completion has been carried out, one way or the
/// other: classically, every parent waiting for its left-hand side having
/// advanced into this column; or by deterministic reduction, a cached
/// topmost item standing in this column. A completion inside its own
/// start column concerns a nonterminal that derived nothing; its parents
/// advance through the predictor's nullable handling instead, so no claim
/// is made through the completion itself.
pub open spec fn completion_consequence(
    g: PGrammarV,
    cols: Seq<ColumnV>,
    c: int,
    it: EarleyItem,
) -> bool {
    ||| (forall|j: int|
        0 <= j < cols[it.start as int].items.len() && waits_for(
            g,
            #[trigger] cols[it.start as int].items[j],
            item_lhs(g, it),
        ) ==> has_item(cols[c].items, advance_of(cols[it.start as int].items[j])))
    ||| (exists|t: EarleyItem|
        item_shape_ok(g, t) && t.dot >= 1 && (t.start as int) <= it.start as int && has_item(
            cols[c].items,
            t,
        ) && cached_topmost(cols, it.start as int, t))
    ||| (it.start as int) == c
}

/// The item stands recorded as a cached topmost of deterministic
/// reduction in some column at or before `upto`.
pub open spec fn cached_topmost(cols: Seq<ColumnV>, upto: int, t: EarleyItem) -> bool {
    exists|cc: int, j: int|
        0 <= cc <= upto && cc < cols.len() && 0 <= j < cols[cc].transitive.len() && same_item(
            (#[trigger] cols[cc].transitive[j]).1,
            t,
        )
}

/// Every item of every column has had its consequences drawn: the chart is
/// closed under prediction, scanning and completion.
pub open spec fn chart_closed(g: PGrammarV, nullable: Seq<bool>, cols: Seq<ColumnV>) -> bool {
    forall|c: int, i: int|
        0 <= c < cols.len() && 0 <= i < cols[c].items.len() ==> item_consequences(
            g,
            nullable,
            cols,
            c,
            #[trigger] cols[c].items[i],
        )
}

/// Consequences survive the chart's growth during one column's
/// processing: presence claims and cache entries only gain witnesses, and
/// the columns a consequence reads parents from lie strictly before the
/// column being processed, so their item lists stand still.
pub proof fn lemma_consequences_extend(
    g: PGrammarV,
    nullable: Seq<bool>,
    a: Seq<ColumnV>,
    b: Seq<ColumnV>,
    c: int,
    it: EarleyItem,
    curcol: int,
)
    requires
        cols_extend(a, b),
        0 <= c < a.len(),
        item_consequences(g, nullable, a, c, it),
        0 <= it.start as int <= c <= curcol,
        forall|c2: int|
            0 <= c2 < a.len() && c2 < curcol ==> (#[trigger] b[c2]).items == a[c2].items,
    ensures
        item_consequences(g, nullable, b, c, it),
{
    if item_finished(g, it) {
        lemma_completion_consequence_extend(g, a, b, c, it, curcol);
    } else {
        match item_sym_at_dot(g, it) {
            PSym::Nt(bb) => {
                if g.rule_of[bb as int] is Some {
                    let ri = g.rule_of[bb as int]->Some_0;
                    assert forall|x: int| 0 <= x < g.rules[ri as int].alts.len() implies
                        #[trigger] has_item(
                        b[c].items,
                        (EarleyItem {
                            rule: ri,
                            alt: x as usize,
                            dot: 0,
                            start: c as usize,
                            sppf: SppfLabel::Null,
                        }),
                    ) by {
                        lemma_has_item_extend(
                            a,
                            b,
                            c,
                            EarleyItem {
                                rule: ri,
                                alt: x as usize,
                                dot: 0,
                                start: c as usize,
                                sppf: SppfLabel::Null,
                            },
                        );
                    }
                }
                if (bb as int) < nullable.len() && nullable[bb as int] {
                    lemma_has_item_extend(a, b, c, advance_of(it));
                }
            },
            PSym::Eps => {
                lemma_has_item_extend(a, b, c, advance_of(it));
            },
            PSym::Ch(ch) => {
                if c + 1 < a.len() && a[c + 1].symbol == ch {
                    lemma_has_item_extend(a, b, c + 1, advance_of(it));
                }
            },
        }
    }
}

proof fn lemma_completion_consequence_extend(
    g: PGrammarV,
    a: Seq<ColumnV>,
    b: Seq<ColumnV>,
    c: int,
    it: EarleyItem,
    curcol: int,
)
    requires
        cols_extend(a, b),
        0 <= c < a.len(),
        0 <= it.start as int <= c <= curcol,
        item_finished(g, it),
        completion_consequence(g, a, c, it),
        forall|c2: int|
            0 <= c2 < a.len() && c2 < curcol ==> (#[trigger] b[c2]).items == a[c2].items,
    ensures
        completion_consequence(g, b, c, it),
{
    let s0 = it.start as int;
    let lhs = item_lhs(g, it);
    if s0 == c {
    } else if exists|t: EarleyItem|
        item_shape_ok(g, t) && t.dot >= 1 && (t.start as int) <= s0 && has_item(a[c].items, t)
            && cached_topmost(a, s0, t) {
        let t = choose|t: EarleyItem|
            item_shape_ok(g, t) && t.dot >= 1 && (t.start as int) <= s0 && has_item(a[c].items, t)
                && cached_topmost(a, s0, t);
        lemma_has_item_extend(a, b, c, t);
        let (cc, j) = choose|cc: int, j: int|
            0 <= cc <= s0 && cc < a.len() && 0 <= j < a[cc].transitive.len() && same_item(
                (#[trigger] a[cc].transitive[j]).1,
                t,
            );
        assert(b[cc].transitive[j] == a[cc].transitive[j]);
        assert(cached_topmost(b, s0, t));
    } else {
        // classical: the parents live strictly before the processed
        // column, so their list is unchanged
        assert(s0 < curcol);
        assert(b[s0].items == a[s0].items);
        assert forall|j: int|
            0 <= j < b[s0].items.len() && waits_for(
                g,
                #[trigger] b[s0].items[j],
                lhs,
            ) implies has_item(b[c].items, advance_of(b[s0].items[j])) by {
            assert(has_item(a[c].items, advance_of(a[s0].items[j])));
            lemma_has_item_extend(a, b, c, advance_of(a[s0].items[j]));
        }
    }
}

/// Presence respects item identity.
pub proof fn lemma_has_item_same(items: Seq<EarleyItem>, x: EarleyItem, y: EarleyItem)
    requires
        has_item(items, x),
        same_item(x, y),
    ensures
        has_item(items, y),
{
    let j = choose|j: int| 0 <= j < items.len() && same_item(items[j], x);
    assert(same_item(items[j], y));
}

impl ParsingState {
    /// Predicts a nonterminal: seeds its rule's alternatives into this
    /// column and, for a nullable nonterminal, also advances the present
    /// item at once, attaching a memoized nullable node when one exists.
    fn predict(
        &mut self,
        sppf: &mut Sppf,
        pg: &PGrammar,
        nullable: &Vec<bool>,
        col: usize,
        state_index: usize,
        b: usize,
    )
        requires
            pg@.wf(),
            chart_ok(pg@, old(self).state_table.deep_view()),
            labels_distinct(old(sppf)@),
            col < old(self).state_table@.len(),
            state_index < old(self).state_table.deep_view()[col as int].items.len(),
            nullable@.len() == pg@.nts.len(),
            (b as int) < pg@.nts.len(),
            ({
                let it = old(self).state_table.deep_view()[col as int].items[state_index as int];
                (it.dot as int) < pg@.rules[it.rule as int].alts[it.alt as int].len()
            }),
        ensures
            pg@.wf(),
            chart_ok(pg@, final(self).state_table.deep_view()),
            labels_distinct(final(sppf)@),
            cols_extend(old(self).state_table.deep_view(), final(self).state_table.deep_view()),
            pg@.rule_of[b as int] matches Some(ri) ==> forall|a: int|
                0 <= a < pg@.rules[ri as int].alts.len() ==> #[trigger] has_item(
                    final(self).state_table.deep_view()[col as int].items,
                    (EarleyItem {
                        rule: ri,
                        alt: a as usize,
                        dot: 0,
                        start: col,
                        sppf: SppfLabel::Null,
                    }),
                ),
            (b as int) < nullable@.len() && nullable@[b as int] ==> has_item(
                final(self).state_table.deep_view()[col as int].items,
                advance_of(old(self).state_table.deep_view()[col as int].items[state_index as int]),
            ),
            forall|c: int|
                0 <= c < old(self).state_table@.len() && c != col
                    ==> #[trigger] final(self).state_table.deep_view()[c]
                    == old(self).state_table.deep_view()[c],
    {
        let ghost cols0 = self.state_table.deep_view();
        let cur = self.state_table[col].items[state_index];
        proof {
            assert(cur == cols0[col as int].items[state_index as int]);
            assert(item_valid(pg@, cur, col as int));
        }
        match self.rule_of_lookup(pg, b) {
            Option::None => {},
            Option::Some(ri) => {
                let na: usize = pg.rules[ri].alts.len();
                let mut a: usize = 0;
                while a < na
                    invariant
                        pg@.wf(),
                        chart_ok(pg@, self.state_table.deep_view()),
                        cols_extend(cols0, self.state_table.deep_view()),
                        col < self.state_table@.len(),
                        (ri as int) < pg@.rules.len(),
                        na == pg@.rules[ri as int].alts.len(),
                        a <= na,
                        self.nullable_node_memo == old(self).nullable_node_memo,
                        self.current_terminal_node == old(self).current_terminal_node,
                        forall|a2: int|
                            0 <= a2 < a ==> #[trigger] has_item(
                                self.state_table.deep_view()[col as int].items,
                                (EarleyItem {
                                    rule: ri,
                                    alt: a2 as usize,
                                    dot: 0,
                                    start: col,
                                    sppf: SppfLabel::Null,
                                }),
                            ),
                        forall|c: int|
                            0 <= c < cols0.len() && c != col
                                ==> #[trigger] self.state_table.deep_view()[c] == cols0[c],
                    decreases na - a,
                {
                    let ghost before = self.state_table.deep_view();
                    let seeded = EarleyItem {
                        rule: ri,
                        alt: a,
                        dot: 0,
                        start: col,
                        sppf: SppfLabel::Null,
                    };
                    self.chart_add(pg, col, seeded);
                    proof {
                        lemma_cols_extend_trans(cols0, before, self.state_table.deep_view());
                        assert(has_item(self.state_table.deep_view()[col as int].items, seeded))
                            by {
                            let oi = before[col as int].items;
                            let ni = self.state_table.deep_view()[col as int].items;
                            if has_item(oi, seeded) {
                                let j = choose|j: int|
                                    0 <= j < oi.len() && same_item(oi[j], seeded);
                                assert(same_item(ni[j], seeded));
                            } else {
                                assert(ni == oi.push(seeded));
                                assert(same_item(ni[ni.len() - 1], seeded));
                            }
                        }
                        assert forall|a2: int| 0 <= a2 < a + 1 implies #[trigger] has_item(
                            self.state_table.deep_view()[col as int].items,
                            (EarleyItem {
                                rule: ri,
                                alt: a2 as usize,
                                dot: 0,
                                start: col,
                                sppf: SppfLabel::Null,
                            }),
                        ) by {
                            if a2 < a {
                                lemma_has_item_extend(
                                    before,
                                    self.state_table.deep_view(),
                                    col as int,
                                    EarleyItem {
                                        rule: ri,
                                        alt: a2 as usize,
                                        dot: 0,
                                        start: col,
                                        sppf: SppfLabel::Null,
                                    },
                                );
                            }
                        }
                    }
                    a = a + 1;
                }
            },
        }
        if nullable[b] {
            let cur_alt_len: usize = pg.rules[cur.rule].alts[cur.alt].len();
            proof {
                assert(cur_alt_len as int == pg@.rules[cur.rule as int].alts[cur.alt as int].len());
                assert(cur.dot < cur_alt_len);
            }
            let advanced = EarleyItem {
                rule: cur.rule,
                alt: cur.alt,
                dot: cur.dot + 1,
                start: cur.start,
                sppf: SppfLabel::Null,
            };
            proof {
                assert(item_valid(pg@, advanced, col as int));
            }
            let ghost before2 = self.state_table.deep_view();
            match self.memo_get(b) {
                Option::Some(label) => {
                    let lhs = pg.rules[cur.rule].lhs;
                    let alt_len: usize = pg.rules[cur.rule].alts[cur.alt].len();
                    let finished = cur.dot + 1 == alt_len;
                    let nl = sppf.make_node(
                        lhs,
                        cur.rule,
                        cur.alt,
                        cur.dot + 1,
                        cur.start,
                        col,
                        finished,
                        cur.sppf,
                        label,
                    );
                    let noded = EarleyItem {
                        rule: cur.rule,
                        alt: cur.alt,
                        dot: cur.dot + 1,
                        start: cur.start,
                        sppf: nl,
                    };
                    self.chart_add(pg, col, noded);
                    proof {
                        lemma_added_present(
                            before2[col as int].items,
                            self.state_table.deep_view()[col as int].items,
                            noded,
                        );
                        lemma_has_item_same(
                            self.state_table.deep_view()[col as int].items,
                            noded,
                            advance_of(cur),
                        );
                    }
                },
                Option::None => {
                    self.chart_add(pg, col, advanced);
                    proof {
                        lemma_added_present(
                            before2[col as int].items,
                            self.state_table.deep_view()[col as int].items,
                            advanced,
                        );
                        lemma_has_item_same(
                            self.state_table.deep_view()[col as int].items,
                            advanced,
                            advance_of(cur),
                        );
                    }
                },
            }
            proof {
                lemma_cols_extend_trans(cols0, before2, self.state_table.deep_view());
                if pg@.rule_of[b as int] is Some {
                    let ri = pg@.rule_of[b as int]->Some_0;
                    assert forall|a: int| 0 <= a < pg@.rules[ri as int].alts.len() implies
                        #[trigger] has_item(
                        self.state_table.deep_view()[col as int].items,
                        (EarleyItem {
                            rule: ri,
                            alt: a as usize,
                            dot: 0,
                            start: col,
                            sppf: SppfLabel::Null,
                        }),
                    ) by {
                        lemma_has_item_extend(
                            before2,
                            self.state_table.deep_view(),
                            col as int,
                            EarleyItem {
                                rule: ri,
                                alt: a as usize,
                                dot: 0,
                                start: col,
                                sppf: SppfLabel::Null,
                            },
                        );
                    }
                }
            }
        }
    }

    /// The rule defining a nonterminal, if any.
    fn rule_of_lookup(&self, pg: &PGrammar, b: usize) -> (r: Option<usize>)
        requires
            pg@.wf(),
            (b as int) < pg@.nts.len(),
        ensures
            r == pg@.rule_of[b as int],
            match r {
                Some(ri) => (ri as int) < pg@.rules.len() && pg@.rules[ri as int].lhs == b,
                None => true,
            },
    {
        proof {
            assert(pg@.rule_of[b as int] is Some ==> ((pg@.rule_of[b as int]->Some_0) as int)
                < pg@.rules.len());
        }
        pg.rule_of[b]
    }

    /// Advances over an empty terminal in place: the match consumes no
    /// input, so the advanced item stays in this column.
    fn eps_advance(&mut self, sppf: &mut Sppf, pg: &PGrammar, col: usize, state_index: usize)
        requires
            pg@.wf(),
            chart_ok(pg@, old(self).state_table.deep_view()),
            labels_distinct(old(sppf)@),
            col < old(self).state_table@.len(),
            state_index < old(self).state_table.deep_view()[col as int].items.len(),
            ({
                let it = old(self).state_table.deep_view()[col as int].items[state_index as int];
                (it.dot as int) < pg@.rules[it.rule as int].alts[it.alt as int].len()
            }),
        ensures
            chart_ok(pg@, final(self).state_table.deep_view()),
            labels_distinct(final(sppf)@),
            cols_extend(old(self).state_table.deep_view(), final(self).state_table.deep_view()),
            ({
                let it = old(self).state_table.deep_view()[col as int].items[state_index as int];
                has_item(
                    final(self).state_table.deep_view()[col as int].items,
                    (EarleyItem {
                        rule: it.rule,
                        alt: it.alt,
                        dot: (it.dot + 1) as usize,
                        start: it.start,
                        sppf: SppfLabel::Null,
                    }),
                )
            }),
            forall|c: int|
                0 <= c < old(self).state_table@.len() && c != col
                    ==> #[trigger] final(self).state_table.deep_view()[c]
                    == old(self).state_table.deep_view()[c],
    {
        let cur = self.state_table[col].items[state_index];
        proof {
            assert(cur == old(self).state_table.deep_view()[col as int].items[state_index as int]);
            assert(item_valid(pg@, cur, col as int));
        }
        let lhs = pg.rules[cur.rule].lhs;
        let alt_len: usize = pg.rules[cur.rule].alts[cur.alt].len();
        let finished = cur.dot + 1 == alt_len;
        let nl = sppf.make_node(
            lhs,
            cur.rule,
            cur.alt,
            cur.dot + 1,
            cur.start,
            col,
            finished,
            cur.sppf,
            SppfLabel::Epsilon,
        );
        let ghost before = self.state_table.deep_view();
        let advanced = EarleyItem {
            rule: cur.rule,
            alt: cur.alt,
            dot: cur.dot + 1,
            start: cur.start,
            sppf: nl,
        };
        self.chart_add(pg, col, advanced);
        proof {
            lemma_added_present(
                before[col as int].items,
                self.state_table.deep_view()[col as int].items,
                advanced,
            );
        }
    }

    /// Scans one input character: when the next column carries it, the
    /// advanced item moves there, paired with the terminal's node.
    fn scan(&mut self, sppf: &mut Sppf, pg: &PGrammar, col: usize, state_index: usize, c: char)
        requires
            pg@.wf(),
            chart_ok(pg@, old(self).state_table.deep_view()),
            labels_distinct(old(sppf)@),
            1 <= col < old(self).state_table@.len(),
            state_index < old(self).state_table.deep_view()[col - 1].items.len(),
            ({
                let it = old(self).state_table.deep_view()[col - 1].items[state_index as int];
                (it.dot as int) < pg@.rules[it.rule as int].alts[it.alt as int].len()
            }),
        ensures
            chart_ok(pg@, final(self).state_table.deep_view()),
            labels_distinct(final(sppf)@),
            cols_extend(old(self).state_table.deep_view(), final(self).state_table.deep_view()),
            old(self).state_table.deep_view()[col as int].symbol == c ==> ({
                let it = old(self).state_table.deep_view()[col - 1].items[state_index as int];
                has_item(
                    final(self).state_table.deep_view()[col as int].items,
                    (EarleyItem {
                        rule: it.rule,
                        alt: it.alt,
                        dot: (it.dot + 1) as usize,
                        start: it.start,
                        sppf: SppfLabel::Null,
                    }),
                )
            }),
            forall|c2: int|
                0 <= c2 < old(self).state_table@.len() && c2 != col
                    ==> #[trigger] final(self).state_table.deep_view()[c2]
                    == old(self).state_table.deep_view()[c2],
            old(self).state_table.deep_view()[col as int].symbol != c ==> final(self).state_table
                == old(self).state_table && final(sppf)@ == old(sppf)@,
            ({
                // a freshly scanned item carries the node made from its
                // origin's node and the terminal's node
                let it = old(self).state_table.deep_view()[col - 1].items[state_index as int];
                let noded = (EarleyItem {
                    rule: it.rule,
                    alt: it.alt,
                    dot: (it.dot + 1) as usize,
                    start: it.start,
                    sppf: make_node_label(
                        item_lhs(pg@, it),
                        it.rule,
                        it.alt,
                        (it.dot + 1) as usize,
                        it.start,
                        col,
                        it.dot + 1 == pg@.rules[it.rule as int].alts[it.alt as int].len(),
                        old(self).current_terminal_node,
                    ),
                });
                old(self).state_table.deep_view()[col as int].symbol == c && !has_item(
                    old(self).state_table.deep_view()[col as int].items,
                    noded,
                ) ==> exists|j: int|
                    0 <= j < final(self).state_table.deep_view()[col as int].items.len()
                        && final(self).state_table.deep_view()[col as int].items[j] == noded
            }),
    {
        if self.state_table[col].symbol == c {
            let cur = self.state_table[col - 1].items[state_index];
            proof {
                assert(cur == old(self).state_table.deep_view()[col - 1].items[
                    state_index as int
                ]);
                assert(item_valid(pg@, cur, col - 1));
            }
            let lhs = pg.rules[cur.rule].lhs;
            let alt_len: usize = pg.rules[cur.rule].alts[cur.alt].len();
            let finished = cur.dot + 1 == alt_len;
            let nl = sppf.make_node(
                lhs,
                cur.rule,
                cur.alt,
                cur.dot + 1,
                cur.start,
                col,
                finished,
                cur.sppf,
                self.current_terminal_node,
            );
            let ghost before = self.state_table.deep_view();
            let advanced = EarleyItem {
                rule: cur.rule,
                alt: cur.alt,
                dot: cur.dot + 1,
                start: cur.start,
                sppf: nl,
            };
            self.chart_add(pg, col, advanced);
            proof {
                lemma_added_present(
                    before[col as int].items,
                    self.state_table.deep_view()[col as int].items,
                    advanced,
                );
                let ni = self.state_table.deep_view()[col as int].items;
                let oi = before[col as int].items;
                if !has_item(oi, advanced) {
                    assert(ni == oi.push(advanced));
                    assert(ni[ni.len() - 1] == advanced);
                }
            }
        }
    }

    /// Builds the advanced item's node and inserts it as a completion.
    fn insert_completion(
        &mut self,
        sppf: &mut Sppf,
        pg: &PGrammar,
        col: usize,
        state: EarleyItem,
        parent_node: SppfLabel,
        completed_node: SppfLabel,
    )
        requires
            pg@.wf(),
            chart_ok(pg@, old(self).state_table.deep_view()),
            labels_distinct(old(sppf)@),
            col < old(self).state_table@.len(),
            item_valid(pg@, state, col as int),
        ensures
            chart_ok(pg@, final(self).state_table.deep_view()),
            labels_distinct(final(sppf)@),
            cols_extend(old(self).state_table.deep_view(), final(self).state_table.deep_view()),
            has_item(
                final(self).state_table.deep_view()[col as int].items,
                (EarleyItem {
                    rule: state.rule,
                    alt: state.alt,
                    dot: state.dot,
                    start: state.start,
                    sppf: SppfLabel::Null,
                }),
            ),
            final(sppf)@.len() >= old(sppf)@.len(),
            forall|j: int|
                0 <= j < old(sppf)@.len() ==> (#[trigger] final(sppf)@[j]).label
                    == old(sppf)@[j].label,
            final(self).nullable_node_memo == old(self).nullable_node_memo,
            forall|c: int|
                0 <= c < old(self).state_table@.len() && c != col
                    ==> #[trigger] final(self).state_table.deep_view()[c]
                    == old(self).state_table.deep_view()[c],
            final(self).state_table.deep_view()[col as int].items.len() <= old(
                self,
            ).state_table.deep_view()[col as int].items.len() + 1,
    {
        let lhs = pg.rules[state.rule].lhs;
        let alt_len: usize = pg.rules[state.rule].alts[state.alt].len();
        let finished = state.dot == alt_len;
        let nl = sppf.make_node(
            lhs,
            state.rule,
            state.alt,
            state.dot,
            state.start,
            col,
            finished,
            parent_node,
            completed_node,
        );
        let ghost before = self.state_table.deep_view();
        let completion = EarleyItem {
            rule: state.rule,
            alt: state.alt,
            dot: state.dot,
            start: state.start,
            sppf: nl,
        };
        self.chart_add(pg, col, completion);
        proof {
            lemma_added_present(
                before[col as int].items,
                self.state_table.deep_view()[col as int].items,
                completion,
            );
        }
    }

    /// The unique parent with the completed left-hand side right before
    /// its final position: `Some(p)` exactly when `p` is the only item of
    /// the start column waiting for the completed side and its dot stands
    /// before its last symbol.
    fn unique_postdot(&self, pg: &PGrammar, s: &EarleyItem) -> (r: Option<EarleyItem>)
        requires
            pg@.wf(),
            chart_ok(pg@, self.state_table.deep_view()),
            item_shape_ok(pg@, *s),
            (s.start as int) < self.state_table@.len(),
        ensures
            match r {
                Some(p) => unique_final_parent(
                    pg@,
                    self.state_table.deep_view()[s.start as int].items,
                    item_lhs(pg@, *s),
                    p,
                ) && item_shape_ok(pg@, p) && (p.dot as int) < pg@.rules[p.rule as int].alts[
                    p.alt as int
                ].len() && p.start <= s.start,
                None => forall|p: EarleyItem|
                    !unique_final_parent(
                        pg@,
                        self.state_table.deep_view()[s.start as int].items,
                        item_lhs(pg@, *s),
                        p,
                    ),
            },
    {
        let ghost items = self.state_table.deep_view()[s.start as int].items;
        let ghost b = item_lhs(pg@, *s);
        let lhs_s = pg.rules[s.rule].lhs;
        let n: usize = self.state_table[s.start].items.len();
        let mut first: Option<usize> = None;
        let mut multiple: bool = false;
        let mut i: usize = 0;
        while i < n
            invariant
                pg@.wf(),
                chart_ok(pg@, self.state_table.deep_view()),
                (s.start as int) < self.state_table@.len(),
                items == self.state_table.deep_view()[s.start as int].items,
                b == item_lhs(pg@, *s),
                b == lhs_s,
                item_shape_ok(pg@, *s),
                n == items.len(),
                i <= n,
                match first {
                    Some(fj) => (fj as int) < i && waits_for(pg@, items[fj as int], b) && (forall|
                        k: int,
                    |
                        0 <= k < i && k != fj as int ==> !waits_for(
                            pg@,
                            #[trigger] items[k],
                            b,
                        ) || multiple),
                    None => !multiple && forall|k: int|
                        0 <= k < i ==> !waits_for(pg@, #[trigger] items[k], b),
                },
                multiple ==> exists|k1: int, k2: int|
                    0 <= k1 < k2 < i && waits_for(pg@, #[trigger] items[k1], b) && waits_for(
                        pg@,
                        #[trigger] items[k2],
                        b,
                    ),
            decreases n - i,
        {
            let it = self.state_table[s.start].items[i];
            proof {
                assert(it == items[i as int]);
                assert(item_valid(pg@, it, s.start as int));
            }
            let alt_len: usize = pg.rules[it.rule].alts[it.alt].len();
            let mut waiting: bool = false;
            if it.dot < alt_len {
                let sym = pg.rules[it.rule].alts[it.alt][it.dot];
                if sym == PSym::Nt(lhs_s) {
                    waiting = true;
                }
            }
            proof {
                assert(waiting == waits_for(pg@, items[i as int], b));
            }
            if waiting {
                if first.is_none() {
                    first = Some(i);
                } else {
                    multiple = true;
                }
            }
            i = i + 1;
        }
        if multiple {
            proof {
                let (k1, k2) = choose|k1: int, k2: int|
                    0 <= k1 < k2 < n && waits_for(pg@, #[trigger] items[k1], b) && waits_for(
                        pg@,
                        #[trigger] items[k2],
                        b,
                    );
                assert forall|p: EarleyItem| !unique_final_parent(pg@, items, b, p) by {
                    if unique_final_parent(pg@, items, b, p) {
                        let j = choose|j: int|
                            0 <= j < items.len() && items[j] == p && waits_for(pg@, p, b)
                                && it_final_pos(pg@, p) && (forall|k: int|
                                0 <= k < items.len() && k != j ==> !waits_for(
                                    pg@,
                                    #[trigger] items[k],
                                    b,
                                ));
                        assert(k1 == j || !waits_for(pg@, items[k1], b));
                        assert(k2 == j || !waits_for(pg@, items[k2], b));
                    }
                }
            }
            return None;
        }
        match first {
            Option::Some(fj) => {
                let p = self.state_table[s.start].items[fj];
                proof {
                    assert(p == items[fj as int]);
                    assert(item_valid(pg@, p, s.start as int));
                }
                let alt_len: usize = pg.rules[p.rule].alts[p.alt].len();
                if p.dot + 1 == alt_len {
                    proof {
                        assert(unique_final_parent(pg@, items, b, p)) by {
                            assert(items[fj as int] == p && waits_for(pg@, p, b) && it_final_pos(
                                pg@,
                                p,
                            ));
                            assert(forall|k: int|
                                0 <= k < items.len() && k != fj as int ==> !waits_for(
                                    pg@,
                                    #[trigger] items[k],
                                    b,
                                ));
                        }
                    }
                    Some(p)
                } else {
                    proof {
                        assert forall|q: EarleyItem| !unique_final_parent(pg@, items, b, q) by {
                            if unique_final_parent(pg@, items, b, q) {
                                let j = choose|j: int|
                                    0 <= j < items.len() && items[j] == q && waits_for(pg@, q, b)
                                        && it_final_pos(pg@, q) && (forall|k: int|
                                        0 <= k < items.len() && k != j ==> !waits_for(
                                            pg@,
                                            #[trigger] items[k],
                                            b,
                                        ));
                                assert(j == fj as int || !waits_for(pg@, items[j], b));
                                assert(q == items[fj as int]);
                                assert(!it_final_pos(pg@, q));
                            }
                        }
                    }
                    None
                }
            },
            Option::None => {
                proof {
                    assert forall|q: EarleyItem| !unique_final_parent(pg@, items, b, q) by {
                        if unique_final_parent(pg@, items, b, q) {
                            let j = choose|j: int|
                                0 <= j < items.len() && items[j] == q && waits_for(pg@, q, b)
                                    && it_final_pos(pg@, q) && (forall|k: int|
                                    0 <= k < items.len() && k != j ==> !waits_for(
                                        pg@,
                                        #[trigger] items[k],
                                        b,
                                    ));
                            assert(!waits_for(pg@, items[j], b));
                        }
                    }
                }
                None
            },
        }
    }

    /// Walks the chain of unique parents, caching each topmost item and
    /// handing back the cached topmost together with the sub-derivation's
    /// parent node. The reduction yields nothing exactly when its fuel ran
    /// out or no unique final-position parent exists; a yielded topmost is
    /// always one of the cached topmost items of a column at or before the
    /// completion's start (deterministic reduction is confluent for one
    /// left-hand side and start column, so first-wins caching pins it).
    fn deterministic_reduction(&mut self, pg: &PGrammar, s: EarleyItem, fuel: u64) -> (r: (
        Option<EarleyItem>,
        SppfLabel,
    ))
        requires
            pg@.wf(),
            chart_ok(pg@, old(self).state_table.deep_view()),
            item_shape_ok(pg@, s),
            (s.start as int) < old(self).state_table@.len(),
        ensures
            chart_ok(pg@, final(self).state_table.deep_view()),
            cols_extend(old(self).state_table.deep_view(), final(self).state_table.deep_view()),
            forall|c: int|
                0 <= c < old(self).state_table@.len() ==> (#[trigger] final(self).state_table.deep_view()[c]).items
                    == old(self).state_table.deep_view()[c].items,
            ({
                let (top, _) = r;
                top matches Some(t) ==> item_shape_ok(pg@, t) && t.start <= s.start && t.dot >= 1
                    && cached_topmost(final(self).state_table.deep_view(), s.start as int, t)
            }),
            r.0 is None ==> fuel == 0 || (forall|p: EarleyItem|
                !unique_final_parent(
                    pg@,
                    old(self).state_table.deep_view()[s.start as int].items,
                    item_lhs(pg@, s),
                    p,
                )),
            final(self).nullable_node_memo == old(self).nullable_node_memo,
            final(self).current_terminal_node == old(self).current_terminal_node,
        decreases fuel,
    {
        if fuel == 0 {
            return (None, SppfLabel::Null);
        }
        match self.unique_postdot(pg, &s) {
            Option::None => (None, SppfLabel::Null),
            Option::Some(parent) => {
                let parent_lhs = pg.rules[parent.rule].lhs;
                match self.state_table[s.start].get_transitive(parent_lhs) {
                    Option::Some(cached) => {
                        proof {
                            let tr = self.state_table.deep_view()[s.start as int].transitive;
                            let j = choose|j: int|
                                0 <= j < tr.len() && (#[trigger] tr[j]).0 == parent_lhs && tr[j].1
                                    == cached;
                            assert(item_valid(pg@, tr[j].1, s.start as int));
                            assert(tr[j].1.dot >= 1);
                            assert(same_item(tr[j].1, cached));
                            assert(cached_topmost(
                                self.state_table.deep_view(),
                                s.start as int,
                                cached,
                            ));
                        }
                        (Some(cached), parent.sppf)
                    },
                    Option::None => {
                        let parent_alt_len: usize = pg.rules[parent.rule].alts[parent.alt].len();
                        proof {
                            assert(parent_alt_len as int == pg@.rules[parent.rule as int].alts[
                                parent.alt as int
                            ].len());
                            assert(parent.dot < parent_alt_len);
                        }
                        let candidate = EarleyItem {
                            rule: parent.rule,
                            alt: parent.alt,
                            dot: parent.dot + 1,
                            start: parent.start,
                            sppf: SppfLabel::Null,
                        };
                        let ghost cols0 = self.state_table.deep_view();
                        let (sub, _sub_node) = self.deterministic_reduction(
                            pg,
                            candidate,
                            fuel - 1,
                        );
                        let topmost = match sub {
                            Option::Some(t) => t,
                            Option::None => candidate,
                        };
                        let ghost cols1 = self.state_table.deep_view();
                        self.chart_add_transitive(pg, parent.start, parent_lhs, topmost);
                        // read the cache back: the first entry wins, so a
                        // topmost cached earlier for this side stands
                        let stored = self.state_table[parent.start].get_transitive(parent_lhs);
                        proof {
                            lemma_cols_extend_trans(cols0, cols1, self.state_table.deep_view());
                            assert forall|c: int|
                                0 <= c < cols0.len() implies (#[trigger] self.state_table.deep_view()[c]).items
                                == cols0[c].items by {
                                assert(self.state_table.deep_view()[c].items == cols1[c].items);
                            }
                        }
                        match stored {
                            Option::Some(t) => {
                                proof {
                                    let tr = self.state_table.deep_view()[parent.start as int].transitive;
                                    let j = choose|j: int|
                                        0 <= j < tr.len() && (#[trigger] tr[j]).0 == parent_lhs
                                            && tr[j].1 == t;
                                    assert(item_valid(pg@, tr[j].1, parent.start as int));
                                    assert(tr[j].1.dot >= 1);
                                    assert(cached_topmost(
                                        self.state_table.deep_view(),
                                        s.start as int,
                                        t,
                                    ));
                                }
                                (Some(t), parent.sppf)
                            },
                            Option::None => {
                                proof {
                                    let trv = self.state_table.deep_view()[
                                        parent.start as int
                                    ].transitive;
                                    assert(has_key(trv, parent_lhs)) by {
                                        let otr = cols1[parent.start as int].transitive;
                                        if has_key(otr, parent_lhs) {
                                            let j = choose|j: int|
                                                0 <= j < otr.len() && (#[trigger] otr[j]).0
                                                    == parent_lhs;
                                            assert(trv[j] == otr[j]);
                                        } else {
                                            assert(trv == otr.push((parent_lhs, topmost)));
                                            assert(trv[trv.len() - 1].0 == parent_lhs);
                                        }
                                    }
                                    assert(false);
                                }
                                (None, SppfLabel::Null)
                            },
                        }
                    },
                }
            },
        }
    }

    /// Classical Earley completion: every waiting parent advances.
    fn earley_complete(
        &mut self,
        sppf: &mut Sppf,
        pg: &PGrammar,
        col: usize,
        s: EarleyItem,
        completed_node: SppfLabel,
    )
        requires
            pg@.wf(),
            chart_ok(pg@, old(self).state_table.deep_view()),
            labels_distinct(old(sppf)@),
            col < old(self).state_table@.len(),
            item_shape_ok(pg@, s),
            (s.start as int) <= col as int,
        ensures
            chart_ok(pg@, final(self).state_table.deep_view()),
            labels_distinct(final(sppf)@),
            cols_extend(old(self).state_table.deep_view(), final(self).state_table.deep_view()),
            forall|j: int|
                0 <= j < old(self).state_table.deep_view()[s.start as int].items.len()
                    && waits_for(
                    pg@,
                    #[trigger] old(self).state_table.deep_view()[s.start as int].items[j],
                    item_lhs(pg@, s),
                ) ==> has_item(
                    final(self).state_table.deep_view()[col as int].items,
                    advance_of(old(self).state_table.deep_view()[s.start as int].items[j]),
                ),
            final(sppf)@.len() >= old(sppf)@.len(),
            forall|j: int|
                0 <= j < old(sppf)@.len() ==> (#[trigger] final(sppf)@[j]).label
                    == old(sppf)@[j].label,
            final(self).nullable_node_memo == old(self).nullable_node_memo,
            forall|c: int|
                0 <= c < old(self).state_table@.len() && c != col
                    ==> #[trigger] final(self).state_table.deep_view()[c]
                    == old(self).state_table.deep_view()[c],
    {
        let ghost cols0 = self.state_table.deep_view();
        let lhs_s = pg.rules[s.rule].lhs;
        // collect the waiting parents first, then advance them
        let n: usize = self.state_table[s.start].items.len();
        let mut parents: Vec<EarleyItem> = Vec::new();
        let mut i: usize = 0;
        while i < n
            invariant
                pg@.wf(),
                chart_ok(pg@, self.state_table.deep_view()),
                self.state_table.deep_view() == cols0,
                (s.start as int) < self.state_table@.len(),
                n == cols0[s.start as int].items.len(),
                i <= n,
                lhs_s == item_lhs(pg@, s),
                forall|t: int|
                    0 <= t < parents@.len() ==> item_shape_ok(pg@, #[trigger] parents@[t]) && ((
                    parents@[t].dot as int) < pg@.rules[parents@[t].rule as int].alts[parents@[t].alt as int].len())
                        && parents@[t].start <= s.start,
                forall|j: int|
                    0 <= j < i && waits_for(pg@, #[trigger] cols0[s.start as int].items[j], lhs_s)
                        ==> parents@.contains(cols0[s.start as int].items[j]),
            decreases n - i,
        {
            let it = self.state_table[s.start].items[i];
            proof {
                assert(it == cols0[s.start as int].items[i as int]);
                assert(item_valid(pg@, it, s.start as int));
            }
            let alt_len: usize = pg.rules[it.rule].alts[it.alt].len();
            let mut waiting: bool = false;
            if it.dot < alt_len {
                let sym = pg.rules[it.rule].alts[it.alt][it.dot];
                if sym == PSym::Nt(lhs_s) {
                    waiting = true;
                }
            }
            proof {
                assert(waiting == waits_for(pg@, cols0[s.start as int].items[i as int], lhs_s));
            }
            if waiting {
                let ghost ps0 = parents@;
                parents.push(it);
                proof {
                    assert(parents@[ps0.len() as int] == it);
                    assert forall|j: int|
                        0 <= j < i + 1 && waits_for(
                            pg@,
                            #[trigger] cols0[s.start as int].items[j],
                            lhs_s,
                        ) implies parents@.contains(cols0[s.start as int].items[j]) by {
                        if j < i {
                            let t = choose|t: int|
                                0 <= t < ps0.len() && ps0[t] == cols0[s.start as int].items[j];
                            assert(parents@[t] == cols0[s.start as int].items[j]);
                        } else {
                            assert(parents@[ps0.len() as int] == cols0[s.start as int].items[j]);
                        }
                    }
                }
            }
            i = i + 1;
        }
        let np: usize = parents.len();
        let mut k: usize = 0;
        while k < np
            invariant
                pg@.wf(),
                chart_ok(pg@, self.state_table.deep_view()),
                labels_distinct(sppf@),
                cols_extend(cols0, self.state_table.deep_view()),
                col < self.state_table@.len(),
                np == parents@.len(),
                k <= np,
                forall|t: int|
                    0 <= t < np ==> item_shape_ok(pg@, #[trigger] parents@[t]) && ((parents@[t].dot
                        as int) < pg@.rules[parents@[t].rule as int].alts[parents@[t].alt as int].len())
                        && parents@[t].start <= s.start,
                (s.start as int) <= col as int,
                forall|t: int|
                    0 <= t < k ==> #[trigger] has_item(
                        self.state_table.deep_view()[col as int].items,
                        advance_of(parents@[t]),
                    ),
                sppf@.len() >= old(sppf)@.len(),
                forall|j: int|
                    0 <= j < old(sppf)@.len() ==> (#[trigger] sppf@[j]).label == old(
                        sppf,
                    )@[j].label,
                self.nullable_node_memo == old(self).nullable_node_memo,
                forall|c: int|
                    0 <= c < cols0.len() && c != col ==> #[trigger] self.state_table.deep_view()[c]
                        == cols0[c],
            decreases np - k,
        {
            let q = parents[k];
            let q_alt_len: usize = pg.rules[q.rule].alts[q.alt].len();
            proof {
                assert(q_alt_len as int == pg@.rules[q.rule as int].alts[q.alt as int].len());
                assert(q.dot < q_alt_len);
            }
            let advanced = EarleyItem {
                rule: q.rule,
                alt: q.alt,
                dot: q.dot + 1,
                start: q.start,
                sppf: SppfLabel::Null,
            };
            proof {
                assert(item_valid(pg@, advanced, col as int));
                assert(same_item(advanced, advance_of(parents@[k as int])));
            }
            let ghost before = self.state_table.deep_view();
            self.insert_completion(sppf, pg, col, advanced, q.sppf, completed_node);
            proof {
                lemma_cols_extend_trans(cols0, before, self.state_table.deep_view());
                assert forall|t: int| 0 <= t < k + 1 implies #[trigger] has_item(
                    self.state_table.deep_view()[col as int].items,
                    advance_of(parents@[t]),
                ) by {
                    if t < k {
                        lemma_has_item_extend(
                            before,
                            self.state_table.deep_view(),
                            col as int,
                            advance_of(parents@[t]),
                        );
                    } else {
                        lemma_has_item_same(
                            self.state_table.deep_view()[col as int].items,
                            advanced,
                            advance_of(parents@[t]),
                        );
                    }
                }
            }
            k = k + 1;
        }
        proof {
            assert forall|j: int|
                0 <= j < cols0[s.start as int].items.len() && waits_for(
                    pg@,
                    #[trigger] cols0[s.start as int].items[j],
                    item_lhs(pg@, s),
                ) implies has_item(
                self.state_table.deep_view()[col as int].items,
                advance_of(cols0[s.start as int].items[j]),
            ) by {
                let t = choose|t: int|
                    0 <= t < parents@.len() && parents@[t] == cols0[s.start as int].items[j];
                assert(has_item(
                    self.state_table.deep_view()[col as int].items,
                    advance_of(parents@[t]),
                ));
            }
        }
    }
}

impl ParsingState {
    /// Completion with Leo's deterministic reduction: give a pure nullable
    /// completion its symbol node first and memoize it for the predictor;
    /// then either insert the topmost item of the unique-parent chain, or
    /// fall back to classical completion. Afterwards the completed item's
    /// consequence holds: every waiting parent advanced, or a cached
    /// topmost item stands here; a completion inside its own start column
    /// leaves its parents to the predictor's nullable handling.
    fn leo_complete(&mut self, sppf: &mut Sppf, pg: &PGrammar, col: usize, state_index: usize)
        requires
            pg@.wf(),
            chart_ok(pg@, old(self).state_table.deep_view()),
            labels_distinct(old(sppf)@),
            col < old(self).state_table@.len(),
            state_index < old(self).state_table.deep_view()[col as int].items.len(),
            item_finished(
                pg@,
                old(self).state_table.deep_view()[col as int].items[state_index as int],
            ),
        ensures
            chart_ok(pg@, final(self).state_table.deep_view()),
            labels_distinct(final(sppf)@),
            cols_extend(old(self).state_table.deep_view(), final(self).state_table.deep_view()),
            completion_consequence(
                pg@,
                final(self).state_table.deep_view(),
                col as int,
                old(self).state_table.deep_view()[col as int].items[state_index as int],
            ),
            forall|c: int|
                0 <= c < old(self).state_table@.len() && c != col
                    ==> (#[trigger] final(self).state_table.deep_view()[c]).items
                    == old(self).state_table.deep_view()[c].items,
            // a deterministic reduction inserts at most the one topmost
            // item; otherwise the classical sweep ran
            final(self).state_table.deep_view()[col as int].items.len() <= old(
                self,
            ).state_table.deep_view()[col as int].items.len() + 1 || (forall|j: int|
                0 <= j < old(self).state_table.deep_view()[
                    old(self).state_table.deep_view()[col as int].items[
                        state_index as int
                    ].start as int
                ].items.len() && waits_for(
                    pg@,
                    #[trigger] old(self).state_table.deep_view()[
                        old(self).state_table.deep_view()[col as int].items[
                            state_index as int
                        ].start as int
                    ].items[j],
                    item_lhs(
                        pg@,
                        old(self).state_table.deep_view()[col as int].items[state_index as int],
                    ),
                ) ==> has_item(
                    final(self).state_table.deep_view()[col as int].items,
                    advance_of(
                        old(self).state_table.deep_view()[
                            old(self).state_table.deep_view()[col as int].items[
                                state_index as int
                            ].start as int
                        ].items[j],
                    ),
                )),
            ({
                let it = old(self).state_table.deep_view()[col as int].items[state_index as int];
                let lbl = if it.sppf is Null {
                    SppfLabel::Symbol { sym: PSym::Nt(item_lhs(pg@, it)), start: col, end: col }
                } else {
                    it.sppf
                };
                &&& (it.sppf is Null ==> has_label(
                    final(sppf)@,
                    (SppfLabel::Symbol { sym: PSym::Nt(item_lhs(pg@, it)), start: col, end: col }),
                ))
                &&& final(self).nullable_node_memo@ == if it.start == col {
                    old(self).nullable_node_memo@.push((item_lhs(pg@, it), lbl))
                } else {
                    old(self).nullable_node_memo@
                }
            }),
    {
        let ghost cols0 = self.state_table.deep_view();
        let mut s = self.state_table[col].items[state_index];
        proof {
            assert(s == cols0[col as int].items[state_index as int]);
            assert(item_valid(pg@, s, col as int));
        }
        let lhs = pg.rules[s.rule].lhs;
        if s.sppf.is_null() {
            // a pure nullable completion gets its own symbol node over the
            // empty span, with the empty word as its only family
            let node_label = SppfLabel::Symbol { sym: PSym::Nt(lhs), start: col, end: col };
            let idx2 = sppf.insert(node_label);
            sppf.add_family(idx2, SppfLabel::Epsilon, SppfLabel::Null);
            proof {
                assert(sppf@[idx2 as int].label == node_label);
                assert(has_label(sppf@, node_label));
            }
            self.chart_set_sppf(pg, col, state_index, node_label);
            s.sppf = node_label;
            proof {
                let cols1 = self.state_table.deep_view();
                assert(cols_extend(cols0, cols1)) by {
                    assert forall|c: int|
                        0 <= c < cols0.len() implies (#[trigger] cols1[c]).symbol
                        == cols0[c].symbol && cols0[c].items.len() <= cols1[c].items.len() && (
                    forall|i: int|
                        0 <= i < cols0[c].items.len() ==> same_item(
                            cols0[c].items[i],
                            #[trigger] cols1[c].items[i],
                        )) by {
                        if c == col as int {
                            assert forall|i: int| 0 <= i < cols0[c].items.len() implies same_item(
                                cols0[c].items[i],
                                #[trigger] cols1[c].items[i],
                            ) by {
                                if i != state_index as int {
                                    assert(cols1[c].items[i] == cols0[c].items[i]);
                                }
                            }
                        } else {
                            assert(cols1[c] == cols0[c]);
                        }
                    }
                }
            }
        }
        if s.start == col {
            // remember the nullable completion for this column's predictor
            self.nullable_node_memo.push((lhs, s.sppf));
        }
        let ghost it0 = cols0[col as int].items[state_index as int];
        let ghost cols2 = self.state_table.deep_view();
        let (top, parent_node) = self.deterministic_reduction(pg, s, LEO_FUEL);
        let ghost cols3 = self.state_table.deep_view();
        proof {
            lemma_cols_extend_trans(cols0, cols2, cols3);
        }
        match top {
            Option::Some(topmost) => {
                proof {
                    assert(item_valid(pg@, topmost, col as int));
                }
                let ghost sppf3 = sppf@;
                self.insert_completion(sppf, pg, col, topmost, parent_node, s.sppf);
                proof {
                    // the inserted cached topmost witnesses the completion
                    let colsf = self.state_table.deep_view();
                    assert(has_item(
                        colsf[col as int].items,
                        (EarleyItem {
                            rule: topmost.rule,
                            alt: topmost.alt,
                            dot: topmost.dot,
                            start: topmost.start,
                            sppf: SppfLabel::Null,
                        }),
                    ));
                    lemma_has_item_same(
                        colsf[col as int].items,
                        EarleyItem {
                            rule: topmost.rule,
                            alt: topmost.alt,
                            dot: topmost.dot,
                            start: topmost.start,
                            sppf: SppfLabel::Null,
                        },
                        topmost,
                    );
                    assert(cached_topmost(colsf, it0.start as int, topmost)) by {
                        let (cc, j) = choose|cc: int, j: int|
                            0 <= cc <= it0.start as int && cc < cols3.len() && 0 <= j < cols3[
                                cc
                            ].transitive.len() && same_item(
                                (#[trigger] cols3[cc].transitive[j]).1,
                                topmost,
                            );
                        assert(colsf[cc].transitive[j] == cols3[cc].transitive[j]);
                    }
                    assert(completion_consequence(pg@, colsf, col as int, it0));
                    if it0.sppf is Null {
                        lemma_has_label_persist(
                            sppf3,
                            sppf@,
                            SppfLabel::Symbol { sym: PSym::Nt(item_lhs(pg@, it0)), start: col, end: col },
                        );
                    }
                }
            },
            Option::None => {
                let ghost sppf3 = sppf@;
                self.earley_complete(sppf, pg, col, s, s.sppf);
                proof {
                    if it0.sppf is Null {
                        lemma_has_label_persist(
                            sppf3,
                            sppf@,
                            SppfLabel::Symbol { sym: PSym::Nt(item_lhs(pg@, it0)), start: col, end: col },
                        );
                    }
                    // every parent waiting in the original chart also
                    // waited when the classical sweep ran, identity
                    // unchanged, so its advance stands here
                    assert forall|j: int|
                        0 <= j < cols0[it0.start as int].items.len() && waits_for(
                            pg@,
                            #[trigger] cols0[it0.start as int].items[j],
                            item_lhs(pg@, it0),
                        ) implies has_item(
                        self.state_table.deep_view()[col as int].items,
                        advance_of(cols0[it0.start as int].items[j]),
                    ) by {
                        assert(same_item(
                            cols0[it0.start as int].items[j],
                            cols3[it0.start as int].items[j],
                        ));
                        assert(waits_for(pg@, cols3[it0.start as int].items[j], item_lhs(pg@, s)));
                        assert(has_item(
                            self.state_table.deep_view()[col as int].items,
                            advance_of(cols3[it0.start as int].items[j]),
                        ));
                        lemma_has_item_same(
                            self.state_table.deep_view()[col as int].items,
                            advance_of(cols3[it0.start as int].items[j]),
                            advance_of(cols0[it0.start as int].items[j]),
                        );
                    }
                    let colsf = self.state_table.deep_view();
                    if it0.start as int != col as int {
                        // parents live in a settled earlier column: the
                        // classical completion reached every one of them
                        assert(cols3[s.start as int].items == cols0[s.start as int].items);
                        assert(colsf[s.start as int].items == cols3[s.start as int].items);
                        assert(item_lhs(pg@, s) == item_lhs(pg@, it0));
                        assert(s.start == it0.start);
                        assert forall|j: int|
                            0 <= j < colsf[it0.start as int].items.len() && waits_for(
                                pg@,
                                #[trigger] colsf[it0.start as int].items[j],
                                item_lhs(pg@, it0),
                            ) implies has_item(
                            colsf[col as int].items,
                            advance_of(colsf[it0.start as int].items[j]),
                        ) by {
                            assert(colsf[it0.start as int].items[j] == cols3[s.start as int].items[j]);
                        }
                    }
                    assert(completion_consequence(pg@, colsf, col as int, it0));
                }
            },
        }
        proof {
            lemma_cols_extend_trans(cols0, cols3, self.state_table.deep_view());
        }
    }

    /// Dispatches one item: complete a finished item, predict at a
    /// nonterminal, move over an empty terminal in place, and scan a
    /// character into the next column.
    fn state_step(
        &mut self,
        sppf: &mut Sppf,
        pg: &PGrammar,
        nullable: &Vec<bool>,
        col: usize,
        state_index: usize,
    )
        requires
            pg@.wf(),
            chart_ok(pg@, old(self).state_table.deep_view()),
            labels_distinct(old(sppf)@),
            col < old(self).state_table@.len(),
            state_index < old(self).state_table.deep_view()[col as int].items.len(),
            nullable@.len() == pg@.nts.len(),
        ensures
            chart_ok(pg@, final(self).state_table.deep_view()),
            labels_distinct(final(sppf)@),
            cols_extend(old(self).state_table.deep_view(), final(self).state_table.deep_view()),
            item_consequences(
                pg@,
                nullable@,
                final(self).state_table.deep_view(),
                col as int,
                old(self).state_table.deep_view()[col as int].items[state_index as int],
            ),
            forall|c2: int|
                0 <= c2 < old(self).state_table@.len() && c2 != col && c2 != col + 1
                    ==> (#[trigger] final(self).state_table.deep_view()[c2]).items
                    == old(self).state_table.deep_view()[c2].items,
    {
        let it = self.state_table[col].items[state_index];
        proof {
            assert(it == old(self).state_table.deep_view()[col as int].items[state_index as int]);
            assert(item_valid(pg@, it, col as int));
        }
        let alt_len: usize = pg.rules[it.rule].alts[it.alt].len();
        proof {
            assert(alt_len as int == pg@.rules[it.rule as int].alts[it.alt as int].len());
        }
        if it.dot == alt_len {
            proof {
                assert(item_finished(pg@, it));
            }
            self.leo_complete(sppf, pg, col, state_index);
            proof {
                assert(item_consequences(
                    pg@,
                    nullable@,
                    self.state_table.deep_view(),
                    col as int,
                    it,
                ));
            }
        } else {
            let sym = pg.rules[it.rule].alts[it.alt][it.dot];
            proof {
                assert(sym == pg@.rules[it.rule as int].alts[it.alt as int][it.dot as int]);
                assert(sym == item_sym_at_dot(pg@, it));
                assert(sym_ok(sym, pg@.nts.len() as int));
                assert(!item_finished(pg@, it));
            }
            match sym {
                PSym::Nt(b) => {
                    self.predict(sppf, pg, nullable, col, state_index, b);
                    proof {
                        assert(item_consequences(
                            pg@,
                            nullable@,
                            self.state_table.deep_view(),
                            col as int,
                            it,
                        ));
                    }
                },
                PSym::Eps => {
                    self.eps_advance(sppf, pg, col, state_index);
                    proof {
                        lemma_has_item_same(
                            self.state_table.deep_view()[col as int].items,
                            EarleyItem {
                                rule: it.rule,
                                alt: it.alt,
                                dot: (it.dot + 1) as usize,
                                start: it.start,
                                sppf: SppfLabel::Null,
                            },
                            advance_of(it),
                        );
                        assert(item_consequences(
                            pg@,
                            nullable@,
                            self.state_table.deep_view(),
                            col as int,
                            it,
                        ));
                    }
                },
                PSym::Ch(c) => {
                    let ncols_now: usize = self.state_table.len();
                    if col < ncols_now - 1 {
                        self.scan(sppf, pg, col + 1, state_index, c);
                        proof {
                            let colsf = self.state_table.deep_view();
                            if colsf[col as int + 1].symbol == c {
                                lemma_has_item_same(
                                    colsf[col as int + 1].items,
                                    EarleyItem {
                                        rule: it.rule,
                                        alt: it.alt,
                                        dot: (it.dot + 1) as usize,
                                        start: it.start,
                                        sppf: SppfLabel::Null,
                                    },
                                    advance_of(it),
                                );
                            }
                            assert(item_consequences(pg@, nullable@, colsf, col as int, it));
                        }
                    } else {
                        proof {
                            lemma_cols_extend_refl(self.state_table.deep_view());
                            assert(item_consequences(
                                pg@,
                                nullable@,
                                self.state_table.deep_view(),
                                col as int,
                                it,
                            ));
                        }
                    }
                },
            }
        }
    }

    /// The left-to-right driver: every column is processed in discovery
    /// order, re-reading the growing item list; the space of distinct
    /// items is finite, so each column settles.
    fn chart_parse(&mut self, sppf: &mut Sppf, pg: &PGrammar, nullable: &Vec<bool>)
        requires
            pg@.wf(),
            chart_ok(pg@, old(self).state_table.deep_view()),
            labels_distinct(old(sppf)@),
            nullable@.len() == pg@.nts.len(),
        ensures
            chart_ok(pg@, final(self).state_table.deep_view()),
            labels_distinct(final(sppf)@),
            cols_extend(old(self).state_table.deep_view(), final(self).state_table.deep_view()),
            chart_closed(pg@, nullable@, final(self).state_table.deep_view()),
    {
        let ghost cols_init = self.state_table.deep_view();
        let ncols: usize = self.state_table.len();
        let mut col: usize = 0;
        while col < ncols
            invariant
                pg@.wf(),
                nullable@.len() == pg@.nts.len(),
                chart_ok(pg@, self.state_table.deep_view()),
                labels_distinct(sppf@),
                cols_extend(cols_init, self.state_table.deep_view()),
                ncols == self.state_table@.len(),
                col <= ncols,
                forall|c2: int, i: int|
                    0 <= c2 < col && 0 <= i < self.state_table.deep_view()[c2].items.len()
                        ==> item_consequences(
                        pg@,
                        nullable@,
                        self.state_table.deep_view(),
                        c2,
                        #[trigger] self.state_table.deep_view()[c2].items[i],
                    ),
            decreases ncols - col,
        {
            // a fresh memo of nullable completions for this column
            self.nullable_node_memo = Vec::new();
            // the forest node of the character the next column carries
            if col + 1 < ncols {
                let csym = self.state_table[col + 1].symbol;
                let lbl = SppfLabel::Symbol { sym: PSym::Ch(csym), start: col, end: col + 1 };
                let _inserted = sppf.insert(lbl);
                self.current_terminal_node = lbl;
            } else {
                self.current_terminal_node = SppfLabel::Null;
            }
            let mut state_index: usize = 0;
            while state_index < self.state_table[col].items.len()
                invariant
                    pg@.wf(),
                    nullable@.len() == pg@.nts.len(),
                    chart_ok(pg@, self.state_table.deep_view()),
                    labels_distinct(sppf@),
                    cols_extend(cols_init, self.state_table.deep_view()),
                    ncols == self.state_table@.len(),
                    col < ncols,
                    forall|c2: int, i: int|
                        0 <= c2 < col && 0 <= i < self.state_table.deep_view()[c2].items.len()
                            ==> item_consequences(
                            pg@,
                            nullable@,
                            self.state_table.deep_view(),
                            c2,
                            #[trigger] self.state_table.deep_view()[c2].items[i],
                        ),
                    forall|i: int|
                        0 <= i < state_index && i < self.state_table.deep_view()[col as int].items.len()
                            ==> item_consequences(
                            pg@,
                            nullable@,
                            self.state_table.deep_view(),
                            col as int,
                            #[trigger] self.state_table.deep_view()[col as int].items[i],
                        ),
                decreases chart_bound(pg@, ncols as int) - state_index,
            {
                let ghost before = self.state_table.deep_view();
                self.state_step(sppf, pg, nullable, col, state_index);
                proof {
                    let colsf = self.state_table.deep_view();
                    lemma_cols_extend_trans(cols_init, before, colsf);
                    lemma_column_len_bounded(
                        pg@,
                        colsf[col as int].items,
                        col as int,
                        ncols as int,
                    );
                    // the older items keep their consequences as the chart
                    // grows
                    assert forall|c2: int, i: int|
                        0 <= c2 < col && 0 <= i < colsf[c2].items.len() implies item_consequences(
                        pg@,
                        nullable@,
                        colsf,
                        c2,
                        #[trigger] colsf[c2].items[i],
                    ) by {
                        assert(colsf[c2].items == before[c2].items);
                        assert(item_consequences(pg@, nullable@, before, c2, before[c2].items[i]));
                        assert(item_valid(pg@, before[c2].items[i], c2));
                        lemma_consequences_extend(
                            pg@,
                            nullable@,
                            before,
                            colsf,
                            c2,
                            before[c2].items[i],
                            col as int,
                        );
                    }
                    assert forall|i: int|
                        0 <= i < state_index + 1 && i < colsf[col as int].items.len()
                            implies item_consequences(
                        pg@,
                        nullable@,
                        colsf,
                        col as int,
                        #[trigger] colsf[col as int].items[i],
                    ) by {
                        assert(item_valid(pg@, before[col as int].items[i], col as int));
                        if i < state_index {
                            assert(item_consequences(
                                pg@,
                                nullable@,
                                before,
                                col as int,
                                before[col as int].items[i],
                            ));
                            lemma_consequences_extend(
                                pg@,
                                nullable@,
                                before,
                                colsf,
                                col as int,
                                before[col as int].items[i],
                                col as int,
                            );
                        }
                        assert(same_item(before[col as int].items[i], colsf[col as int].items[i]));
                        lemma_consequences_same_item(
                            pg@,
                            nullable@,
                            colsf,
                            col as int,
                            before[col as int].items[i],
                            colsf[col as int].items[i],
                        );
                    }
                }
                state_index = state_index + 1;
            }
            col = col + 1;
        }
        proof {
            assert(chart_closed(pg@, nullable@, self.state_table.deep_view()));
        }
    }
}

/// After an add that either kept the list or appended the item, the item
/// is present either way.
pub proof fn lemma_added_present(oi: Seq<EarleyItem>, ni: Seq<EarleyItem>, it: EarleyItem)
    requires
        ni == if has_item(oi, it) {
            oi
        } else {
            oi.push(it)
        },
    ensures
        has_item(ni, it),
{
    if has_item(oi, it) {
        let j = choose|j: int| 0 <= j < oi.len() && same_item(oi[j], it);
        assert(same_item(ni[j], it));
    } else {
        assert(same_item(ni[ni.len() - 1], it));
    }
}

/// A label present in the forest stays present while nodes keep their
/// labels and the forest only grows.
pub proof fn lemma_has_label_persist(a: Seq<SppfNodeV>, b: Seq<SppfNodeV>, l: SppfLabel)
    requires
        a.len() <= b.len(),
        forall|j: int| 0 <= j < a.len() ==> (#[trigger] b[j]).label == a[j].label,
        has_label(a, l),
    ensures
        has_label(b, l),
{
    let j = choose|j: int| 0 <= j < a.len() && a[j].label == l;
    assert(b[j].label == l);
}

/// An item's consequences read only its identity, never its forest node.
pub proof fn lemma_consequences_same_item(
    g: PGrammarV,
    nullable: Seq<bool>,
    cols: Seq<ColumnV>,
    c: int,
    x: EarleyItem,
    y: EarleyItem,
)
    requires
        same_item(x, y),
        item_consequences(g, nullable, cols, c, x),
    ensures
        item_consequences(g, nullable, cols, c, y),
{
    assert(advance_of(x) == advance_of(y));
    assert(item_finished(g, x) == item_finished(g, y));
    if !item_finished(g, x) {
        assert(item_sym_at_dot(g, x) == item_sym_at_dot(g, y));
    }
}

/// An item present in a chart stays present in every extension of it.
pub proof fn lemma_has_item_extend(a: Seq<ColumnV>, b: Seq<ColumnV>, c: int, it: EarleyItem)
    requires
        cols_extend(a, b),
        0 <= c < a.len(),
        has_item(a[c].items, it),
    ensures
        has_item(b[c].items, it),
{
    let j = choose|j: int| 0 <= j < a[c].items.len() && same_item(a[c].items[j], it);
    assert(same_item(a[c].items[j], b[c].items[j]));
    assert(same_item(b[c].items[j], it));
}

/// An item that makes the whole input a member of the language: the start
/// rule completed over the full span.
pub open spec fn accepting_item(g: PGrammarV, it: EarleyItem) -> bool {
    &&& item_shape_ok(g, it)
    &&& (it.dot as int) == g.rules[it.rule as int].alts[it.alt as int].len()
    &&& it.start == 0
    &&& g.rules.len() > 0
    &&& g.rules[it.rule as int].lhs == g.rules[0].lhs
}

/// Whether a column holds an accepting item.
pub open spec fn accepts(g: PGrammarV, items: Seq<EarleyItem>) -> bool {
    exists|j: int| 0 <= j < items.len() && accepting_item(g, #[trigger] items[j])
}

/// The Earley recognizer with Leo's optimization and forest construction.
/// It owns the interned, atomized grammar, its nullable set, the chart,
/// and the forest.
pub struct ExtendedEarleyParser {
    pub pg: PGrammar,
    pub nullable: Vec<bool>,
    pub state: ParsingState,
    pub sppf: Sppf,
}

impl ExtendedEarleyParser {
    /// The parser's standing invariant.
    pub open spec fn wf(self) -> bool {
        &&& self.pg@.wf()
        &&& self.nullable@.len() == self.pg@.nts.len()
        &&& labels_distinct(self.sppf@)
        &&& chart_ok(self.pg@, self.state.state_table.deep_view())
    }

    /// Prepares a recognizer: clones the grammar, atomizes it, interns it,
    /// and computes its nullable set.
    pub fn new(grammar: &Grammar) -> (p: Self)
        ensures
            p.wf(),
            represents(p.pg@, atomize_grammar(grammar@)),
            nullable_closed(p.pg@, bools_as_set(p.nullable@)),
            below_all_closed(p.pg@, p.nullable@),
            p.state.state_table@.len() == 0,
    {
        let mut g2 = grammar.clone();
        g2.atomize_terminals();
        proof {
            assert forall|r: int, a: int|
                0 <= r < g2@.len() && 0 <= a < g2@[r].alts.len() implies alt_is_atomized(
                #[trigger] g2@[r].alts[a],
            ) by {
                assert(g2@[r] == crate::grammar::atomize_rule(grammar@[r]));
                assert(g2@[r].alts[a] == crate::grammar::atomize_alt(grammar@[r].alts[a]));
                crate::grammar::lemma_atomize_alt_atomizes(grammar@[r].alts[a]);
            }
        }
        let pg = intern_grammar(&g2);
        let nullable = compute_nullable(&pg);
        let p = ExtendedEarleyParser {
            pg,
            nullable,
            state: ParsingState {
                state_table: Vec::new(),
                nullable_node_memo: Vec::new(),
                current_terminal_node: SppfLabel::Null,
            },
            sppf: Sppf::new(),
        };
        p
    }

    /// Runs recognition on one input. The verdict is read off the last
    /// column: the input is accepted exactly when the start rule has been
    /// completed over the whole span. A grammar without rules, and any
    /// nonterminal without a defining rule, simply never accepts: such
    /// failures are swallowed into a `false` verdict, never a panic.
    pub fn recognize(&mut self, input: &str) -> (r: bool)
        requires
            old(self).wf(),
        ensures
            final(self).wf(),
            final(self).pg@ == old(self).pg@,
            final(self).state.state_table@.len() == input@.len() + 1,
            final(self).state.state_table.deep_view()[0].symbol == '_',
            forall|j: int|
                1 <= j <= input@.len() ==> (#[trigger] final(self).state.state_table.deep_view()[j]).symbol
                    == input@[j - 1],
            r == accepts(
                final(self).pg@,
                final(self).state.state_table.deep_view()[input@.len() as int].items,
            ),
            final(self).nullable@ == old(self).nullable@,
            chart_closed(
                final(self).pg@,
                final(self).nullable@,
                final(self).state.state_table.deep_view(),
            ),
            forall|c: int|
                0 <= c < final(self).state.state_table@.len()
                    ==> (#[trigger] final(self).state.state_table.deep_view()[c]).items.len()
                    <= chart_bound(final(self).pg@, input@.len() as int + 1),
            old(self).pg@.rules.len() > 0 ==> forall|a: int|
                0 <= a < old(self).pg@.rules[0].alts.len() ==> #[trigger] has_item(
                    final(self).state.state_table.deep_view()[0].items,
                    (EarleyItem {
                        rule: 0,
                        alt: a as usize,
                        dot: 0,
                        start: 0,
                        sppf: SppfLabel::Null,
                    }),
                ),
    {
        let ghost pgv = self.pg@;
        proof {
            assert(pgv == old(self).pg@);
        }
        // one column per input position, plus the sentinel column
        let n: usize = input.unicode_len();
        let mut table: Vec<Column> = Vec::new();
        table.push(Column::new('_'));
        let mut i: usize = 0;
        while i < n
            invariant
                n == input@.len(),
                i <= n,
                table@.len() == i + 1,
                forall|c: int|
                    0 <= c <= i ==> (#[trigger] table.deep_view()[c]).items
                        == Seq::<EarleyItem>::empty() && table.deep_view()[c].transitive
                        == Seq::<(usize, EarleyItem)>::empty(),
                table.deep_view()[0].symbol == '_',
                forall|c: int|
                    1 <= c <= i ==> (#[trigger] table.deep_view()[c]).symbol == input@[c - 1],
            decreases n - i,
        {
            let ghost t0 = table.deep_view();
            table.push(Column::new(input.get_char(i)));
            proof {
                assert(table.deep_view() =~= t0.push(table@.last()@));
            }
            i = i + 1;
        }
        self.state.state_table = table;
        self.state.nullable_node_memo = Vec::new();
        self.state.current_terminal_node = SppfLabel::Null;
        proof {
            assert(chart_ok(pgv, self.state.state_table.deep_view()));
        }
        // seed the first column with the start rule's alternatives
        if self.pg.rules.len() > 0 {
            let na: usize = self.pg.rules[0].alts.len();
            let mut a: usize = 0;
            while a < na
                invariant
                    self.pg@ == pgv,
                    pgv == old(self).pg@,
                    pgv.wf(),
                    pgv.rules.len() > 0,
                    na == pgv.rules[0].alts.len(),
                    a <= na,
                    chart_ok(pgv, self.state.state_table.deep_view()),
                    self.state.state_table@.len() == n + 1,
                    n == input@.len(),
                    self.state.state_table.deep_view()[0].symbol == '_',
                    forall|c: int|
                        1 <= c <= n ==> (#[trigger] self.state.state_table.deep_view()[c]).symbol
                            == input@[c - 1],
                    labels_distinct(self.sppf@),
                    self.nullable@ == old(self).nullable@,
                    self.nullable@.len() == pgv.nts.len(),
                    forall|a2: int|
                        0 <= a2 < a ==> #[trigger] has_item(
                            self.state.state_table.deep_view()[0].items,
                            (EarleyItem {
                                rule: 0,
                                alt: a2 as usize,
                                dot: 0,
                                start: 0,
                                sppf: SppfLabel::Null,
                            }),
                        ),
                decreases na - a,
            {
                let ghost cols_before = self.state.state_table.deep_view();
                self.state.chart_add(
                    &self.pg,
                    0,
                    EarleyItem { rule: 0, alt: a, dot: 0, start: 0, sppf: SppfLabel::Null },
                );
                proof {
                    let it = EarleyItem {
                        rule: 0,
                        alt: a,
                        dot: 0,
                        start: 0,
                        sppf: SppfLabel::Null,
                    };
                    assert(has_item(self.state.state_table.deep_view()[0].items, it)) by {
                        let oi = cols_before[0].items;
                        let ni = self.state.state_table.deep_view()[0].items;
                        if has_item(oi, it) {
                            let j = choose|j: int| 0 <= j < oi.len() && same_item(oi[j], it);
                            assert(same_item(ni[j], it));
                        } else {
                            assert(ni == oi.push(it));
                            assert(same_item(ni[ni.len() - 1], it));
                        }
                    }
                    assert forall|a2: int| 0 <= a2 < a + 1 implies #[trigger] has_item(
                        self.state.state_table.deep_view()[0].items,
                        (EarleyItem {
                            rule: 0,
                            alt: a2 as usize,
                            dot: 0,
                            start: 0,
                            sppf: SppfLabel::Null,
                        }),
                    ) by {
                        if a2 < a {
                            lemma_has_item_extend(
                                cols_before,
                                self.state.state_table.deep_view(),
                                0,
                                EarleyItem {
                                    rule: 0,
                                    alt: a2 as usize,
                                    dot: 0,
                                    start: 0,
                                    sppf: SppfLabel::Null,
                                },
                            );
                        }
                    }
                }
                a = a + 1;
            }
        }
        // drive the chart to its fixpoint
        let ghost cols_seeded = self.state.state_table.deep_view();
        self.state.chart_parse(&mut self.sppf, &self.pg, &self.nullable);
        proof {
            if pgv.rules.len() > 0 {
                assert forall|a: int| 0 <= a < pgv.rules[0].alts.len() implies #[trigger] has_item(
                    self.state.state_table.deep_view()[0].items,
                    (EarleyItem {
                        rule: 0,
                        alt: a as usize,
                        dot: 0,
                        start: 0,
                        sppf: SppfLabel::Null,
                    }),
                ) by {
                    lemma_has_item_extend(
                        cols_seeded,
                        self.state.state_table.deep_view(),
                        0,
                        EarleyItem {
                            rule: 0,
                            alt: a as usize,
                            dot: 0,
                            start: 0,
                            sppf: SppfLabel::Null,
                        },
                    );
                }
            }
        }
        proof {
            assert forall|c: int|
                1 <= c <= n implies (#[trigger] self.state.state_table.deep_view()[c]).symbol
                == input@[c - 1] by {
                assert(cols_seeded[c].symbol == input@[c - 1]);
            }
            assert forall|c: int|
                0 <= c < self.state.state_table@.len() implies (
            #[trigger] self.state.state_table.deep_view()[c]).items.len() <= chart_bound(
                pgv,
                input@.len() as int + 1,
            ) by {
                lemma_column_len_bounded(
                    pgv,
                    self.state.state_table.deep_view()[c].items,
                    c,
                    n as int + 1,
                );
            }
        }
        // read the verdict off the last column
        let last: usize = self.state.state_table.len() - 1;
        let m: usize = self.state.state_table[last].items.len();
        let mut j: usize = 0;
        while j < m
            invariant
                self.pg@ == pgv,
                pgv == old(self).pg@,
                pgv.wf(),
                self.nullable@ == old(self).nullable@,
                chart_closed(pgv, self.nullable@, self.state.state_table.deep_view()),
                forall|c: int|
                    0 <= c < self.state.state_table@.len()
                        ==> (#[trigger] self.state.state_table.deep_view()[c]).items.len()
                        <= chart_bound(pgv, input@.len() as int + 1),
                last < self.state.state_table@.len(),
                self.state.state_table@.len() == input@.len() + 1,
                last as int == input@.len(),
                m == self.state.state_table.deep_view()[last as int].items.len(),
                j <= m,
                chart_ok(pgv, self.state.state_table.deep_view()),
                labels_distinct(self.sppf@),
                self.nullable@.len() == pgv.nts.len(),
                self.state.state_table.deep_view()[0].symbol == '_',
                forall|c: int|
                    1 <= c <= input@.len() ==> (#[trigger] self.state.state_table.deep_view()[c]).symbol
                        == input@[c - 1],
                pgv.rules.len() > 0 ==> forall|a: int|
                    0 <= a < pgv.rules[0].alts.len() ==> #[trigger] has_item(
                        self.state.state_table.deep_view()[0].items,
                        (EarleyItem {
                            rule: 0,
                            alt: a as usize,
                            dot: 0,
                            start: 0,
                            sppf: SppfLabel::Null,
                        }),
                    ),
                forall|t: int|
                    0 <= t < j ==> !accepting_item(
                        pgv,
                        #[trigger] self.state.state_table.deep_view()[last as int].items[t],
                    ),
            decreases m - j,
        {
            let it = self.state.state_table[last].items[j];
            proof {
                assert(it == self.state.state_table.deep_view()[last as int].items[j as int]);
                assert(item_valid(pgv, it, last as int));
            }
            let alt_len: usize = self.pg.rules[it.rule].alts[it.alt].len();
            if it.dot == alt_len && it.start == 0 && self.pg.rules.len() > 0
                && self.pg.rules[it.rule].lhs == self.pg.rules[0].lhs {
                proof {
                    assert(accepting_item(
                        pgv,
                        self.state.state_table.deep_view()[last as int].items[j as int],
                    ));
                }
                return true;
            }
            j = j + 1;
        }
        false
    }

    /// The root label an accepted input's forest carries: the start
    /// symbol spanning every column.
    pub open spec fn root_label(self) -> SppfLabel {
        SppfLabel::Symbol {
            sym: PSym::Nt(self.pg@.rules[0].lhs),
            start: 0,
            end: (self.state.state_table@.len() - 1) as usize,
        }
    }

    /// The family count of the accepting symbol node spanning the whole
    /// input, if the forest holds one: how many packed derivations the
    /// forest offers at its root.
    pub fn root_family_count(&self) -> (r: Option<usize>)
        ensures
            match r {
                Some(c) => self.pg@.rules.len() > 0 && self.state.state_table@.len() > 0
                    && exists|i: int|
                    0 <= i < self.sppf@.len() && (#[trigger] self.sppf@[i]).label
                        == self.root_label() && self.sppf@[i].families.len() == c,
                None => self.pg@.rules.len() == 0 || self.state.state_table@.len() == 0
                    || !has_label(self.sppf@, self.root_label()),
            },
    {
        if self.pg.rules.len() == 0 || self.state.state_table.len() == 0 {
            return None;
        }
        let start_lhs = self.pg.rules[0].lhs;
        let end = self.state.state_table.len() - 1;
        let r = self.sppf.family_count(
            SppfLabel::Symbol { sym: PSym::Nt(start_lhs), start: 0, end },
        );
        proof {
            assert(SppfLabel::Symbol { sym: PSym::Nt(start_lhs), start: 0, end }
                == self.root_label());
        }
        r
    }
}

impl Grammar {
    /// Whether the input is recognized by this grammar's Earley parser:
    /// some well-formed parser over this grammar's atomized, interned form
    /// holds a chart with one column per input position, seeded with every
    /// alternative of the start rule, closed under prediction, scanning
    /// and completion, and the verdict is read off its last column; the
    /// details stand on [`ExtendedEarleyParser::recognize`].
    pub fn recognize(&self, input: &str) -> (r: bool)
        ensures
            exists|p: ExtendedEarleyParser|
                {
                    &&& #[trigger] p.wf()
                    &&& represents(p.pg@, atomize_grammar(self@))
                    &&& nullable_closed(p.pg@, bools_as_set(p.nullable@))
                    &&& below_all_closed(p.pg@, p.nullable@)
                    &&& p.state.state_table@.len() == input@.len() + 1
                    &&& p.state.state_table.deep_view()[0].symbol == '_'
                    &&& (forall|j: int|
                        1 <= j <= input@.len()
                            ==> (#[trigger] p.state.state_table.deep_view()[j]).symbol == input@[j
                            - 1])
                    &&& (p.pg@.rules.len() > 0 ==> forall|a: int|
                        0 <= a < p.pg@.rules[0].alts.len() ==> #[trigger] has_item(
                            p.state.state_table.deep_view()[0].items,
                            (EarleyItem {
                                rule: 0,
                                alt: a as usize,
                                dot: 0,
                                start: 0,
                                sppf: SppfLabel::Null,
                            }),
                        ))
                    &&& chart_closed(p.pg@, p.nullable@, p.state.state_table.deep_view())
                    &&& r == accepts(
                        p.pg@,
                        p.state.state_table.deep_view()[input@.len() as int].items,
                    )
                },
    {
        let mut parser = ExtendedEarleyParser::new(self);
        let ghost nb0 = parser.nullable@;
        let r = parser.recognize(input);
        proof {
            assert(parser.nullable@ == nb0);
            assert(parser.wf() && represents(parser.pg@, atomize_grammar(self@))
                && nullable_closed(parser.pg@, bools_as_set(parser.nullable@)) && below_all_closed(
                parser.pg@,
                parser.nullable@,
            ) && parser.state.state_table@.len() == input@.len() + 1 && chart_closed(
                parser.pg@,
                parser.nullable@,
                parser.state.state_table.deep_view(),
            ) && r == accepts(
                parser.pg@,
                parser.state.state_table.deep_view()[input@.len() as int].items,
            ));
        }
        r
    }
}

} // verus!

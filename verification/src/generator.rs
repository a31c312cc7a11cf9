//! Random generation of words from a grammar: a stack-driven top-down
//! expansion whose whole run is a function of the grammar, the strategy and
//! the seed.
use crate::error::Error;
use crate::grammar::{find_lhs, lemma_find_lhs_characterization, Grammar};
use crate::prng::{pick_of, Prng};
use crate::rule::{Rule, RuleV};
use crate::term::{Term, TermV};
use crate::text;
use vstd::prelude::*;

verus! {

/// How many expansion steps one generation run may take before it is
/// reported as infinitely recursive.
pub const GEN_BUDGET: u64 = 16777216;

/// How an alternative is chosen when a nonterminal is expanded.
#[derive(Clone, Copy, Debug, PartialEq, Eq, Structural)]
pub enum GenerationStrategy {
    /// Uniformly at random among all alternatives.
    UniformRHSSampling,
    /// Uniformly at random among the alternatives that do not mention the
    /// rule's own left-hand side; failing when none exists.
    RecursionAvoidance,
    /// Uniformly at random among the all-terminal alternatives, falling
    /// back to all alternatives when none exists.
    GreedyTerminals,
}

/// Why a generation run failed.
pub ghost enum GenFailure {
    /// A nonterminal was expanded that no rule defines, or the rule offers
    /// no alternative to expand with.
    UnknownNonterminal,
    /// Recursion avoidance found no recursion-free alternative.
    InfinitelyRecursive,
}

/// One moment of a generation run: what is still to expand (top of stack
/// last), what has been emitted, and the bounds drawn so far.
#[verifier::ext_equal]
pub ghost struct GenState {
    pub stack: Seq<TermV>,
    pub out: Seq<char>,
    pub drawn: Seq<u32>,
}

/// What one expansion step does.
pub ghost enum GenStep {
    Going(GenState),
    Finished(Seq<char>),
    Failed(GenFailure),
}

/// How a whole run ends.
pub ghost enum GenOutcome {
    Finished(Seq<char>),
    Failed(GenFailure),
    OutOfBudget,
}

/// The draw bound for a candidate count: the count itself, capped at the
/// widest bound one draw can have.
pub open spec fn clamp32(n: int) -> u32 {
    if n >= 0xFFFF_FFFF {
        0xFFFF_FFFFu32
    } else {
        (n as u32)
    }
}

/// The bounds a reservoir scan over `k` candidates draws with: one draw
/// per candidate, the bound growing from one to `k`.
pub open spec fn reservoir_bounds(k: int) -> Seq<u32>
    decreases k,
{
    if k <= 0 {
        Seq::empty()
    } else {
        reservoir_bounds(k - 1).push(clamp32(k))
    }
}

/// The index a reservoir scan selects: the last position whose own draw
/// came out zero (the first position's draw is always zero).
pub open spec fn reservoir_choice(seed: u64, drawn0: Seq<u32>, k: int) -> int
    decreases k,
{
    if k <= 1 {
        0
    } else if pick_of(seed, drawn0 + reservoir_bounds(k - 1), clamp32(k)) == 0 {
        k - 1
    } else {
        reservoir_choice(seed, drawn0, k - 1)
    }
}

/// Whether the strategy draws by reservoir scan (one draw per candidate)
/// or by a single indexed draw.
pub open spec fn uses_reservoir(strategy: GenerationStrategy, r: RuleV) -> bool {
    match strategy {
        GenerationStrategy::UniformRHSSampling => false,
        GenerationStrategy::RecursionAvoidance => true,
        GenerationStrategy::GreedyTerminals => kept_upto(
            GenerationStrategy::GreedyTerminals,
            r,
            r.alts.len() as int,
        ).len() > 0,
    }
}

/// Whether the alternative mentions the given term.
pub open spec fn alt_mentions(alt: Seq<TermV>, t: TermV) -> bool {
    exists|i: int| 0 <= i < alt.len() && alt[i] == t
}

/// Whether every element of the alternative is a terminal.
pub open spec fn all_terminals(alt: Seq<TermV>) -> bool {
    forall|i: int| 0 <= i < alt.len() ==> (#[trigger] alt[i]).is_terminal()
}

/// Whether the strategy admits the rule's `i`-th alternative.
pub open spec fn keep_alt(strategy: GenerationStrategy, r: RuleV, i: int) -> bool {
    match strategy {
        GenerationStrategy::UniformRHSSampling => true,
        GenerationStrategy::RecursionAvoidance => !alt_mentions(r.alts[i], r.lhs),
        GenerationStrategy::GreedyTerminals => all_terminals(r.alts[i]),
    }
}

/// The admitted alternative indices below `upto`, in order.
pub open spec fn kept_upto(strategy: GenerationStrategy, r: RuleV, upto: int) -> Seq<int>
    decreases upto,
{
    if upto <= 0 {
        Seq::empty()
    } else if keep_alt(strategy, r, upto - 1) {
        kept_upto(strategy, r, upto - 1).push(upto - 1)
    } else {
        kept_upto(strategy, r, upto - 1)
    }
}

/// The alternative indices a strategy chooses among: the admitted ones,
/// except that greedy generation falls back to all of them when no
/// alternative is all-terminal.
pub open spec fn chosen_candidates(strategy: GenerationStrategy, r: RuleV) -> Seq<int> {
    let kept = kept_upto(strategy, r, r.alts.len() as int);
    if strategy is GreedyTerminals && kept.len() == 0 {
        kept_upto(GenerationStrategy::UniformRHSSampling, r, r.alts.len() as int)
    } else {
        kept
    }
}

pub proof fn lemma_kept_upto_bounds(strategy: GenerationStrategy, r: RuleV, upto: int)
    ensures
        forall|t: int|
            0 <= t < kept_upto(strategy, r, upto).len() ==> 0 <= #[trigger] kept_upto(
                strategy,
                r,
                upto,
            )[t] < upto,
    decreases upto,
{
    if upto > 0 {
        lemma_kept_upto_bounds(strategy, r, upto - 1);
        let prev = kept_upto(strategy, r, upto - 1);
        let cur = kept_upto(strategy, r, upto);
        assert forall|t: int| 0 <= t < cur.len() implies 0 <= #[trigger] cur[t] < upto by {
            if keep_alt(strategy, r, upto - 1) {
                if t < cur.len() - 1 {
                    assert(cur[t] == prev[t]);
                } else {
                    assert(cur[t] == upto - 1);
                }
            } else {
                assert(cur[t] == prev[t]);
            }
        }
    }
}

/// One step of the expansion loop: finish on an empty stack; emit a
/// terminal; expand a nonterminal by one drawn alternative, pushed in
/// reverse so that its leftmost element comes out on top.
pub open spec fn gen_step(
    g: Seq<RuleV>,
    strategy: GenerationStrategy,
    seed: u64,
    st: GenState,
) -> GenStep {
    if st.stack.len() == 0 {
        GenStep::Finished(st.out)
    } else {
        let top = st.stack.last();
        if top.is_terminal() {
            GenStep::Going(
                GenState {
                    stack: st.stack.drop_last(),
                    out: st.out + top.content,
                    drawn: st.drawn,
                },
            )
        } else {
            match find_lhs(g, top) {
                Option::None => GenStep::Failed(GenFailure::UnknownNonterminal),
                Option::Some(ri) => {
                    let r = g[ri];
                    let cands = chosen_candidates(strategy, r);
                    if cands.len() == 0 {
                        if strategy is RecursionAvoidance {
                            GenStep::Failed(GenFailure::InfinitelyRecursive)
                        } else {
                            GenStep::Failed(GenFailure::UnknownNonterminal)
                        }
                    } else {
                        let pi = if uses_reservoir(strategy, r) {
                            reservoir_choice(seed, st.drawn, cands.len() as int)
                        } else {
                            pick_of(seed, st.drawn, clamp32(cands.len() as int)) as int
                        };
                        let drawn2 = if uses_reservoir(strategy, r) {
                            st.drawn + reservoir_bounds(cands.len() as int)
                        } else {
                            st.drawn.push(clamp32(cands.len() as int))
                        };
                        let idx = if 0 <= pi < cands.len() {
                            cands[pi]
                        } else {
                            cands[0]
                        };
                        let alt = r.alts[idx];
                        GenStep::Going(
                            GenState {
                                stack: st.stack.drop_last() + alt.reverse(),
                                out: st.out,
                                drawn: drawn2,
                            },
                        )
                    }
                },
            }
        }
    }
}

/// Running the expansion until it finishes, fails, or exhausts its fuel.
pub open spec fn gen_run(
    g: Seq<RuleV>,
    strategy: GenerationStrategy,
    seed: u64,
    st: GenState,
    fuel: nat,
) -> GenOutcome
    decreases fuel,
{
    match gen_step(g, strategy, seed, st) {
        GenStep::Finished(out) => GenOutcome::Finished(out),
        GenStep::Failed(f) => GenOutcome::Failed(f),
        GenStep::Going(st2) => {
            if fuel == 0 {
                GenOutcome::OutOfBudget
            } else {
                gen_run(g, strategy, seed, st2, (fuel - 1) as nat)
            }
        },
    }
}

/// The starting state: the start symbol alone on the stack.
pub open spec fn init_state(g: Seq<RuleV>) -> GenState {
    GenState { stack: seq![g[0].lhs], out: Seq::empty(), drawn: Seq::empty() }
}

/// The one outcome that a grammar, a strategy and a seed determine.
pub open spec fn generation_outcome(
    g: Seq<RuleV>,
    strategy: GenerationStrategy,
    seed: u64,
) -> GenOutcome {
    gen_run(g, strategy, seed, init_state(g), GEN_BUDGET as nat)
}

/// How an outcome of the model shows up in the returned value: a finished
/// run returns its word; a failed run returns the matching error, with a
/// run out of budget reported as infinitely recursive.
pub open spec fn outcome_matches(outcome: GenOutcome, r: Result<String, Error>) -> bool {
    match outcome {
        GenOutcome::Finished(s) => r matches Ok(o) && o@ == s,
        GenOutcome::Failed(GenFailure::UnknownNonterminal) => r matches Err(e)
            && e is UnknownNonterminalError,
        GenOutcome::Failed(GenFailure::InfinitelyRecursive) => r matches Err(e)
            && e is InfinitelyRecursiveProductionError,
        GenOutcome::OutOfBudget => r matches Err(e) && e is InfinitelyRecursiveProductionError,
    }
}

/// Generation is deterministic: two results that a fixed grammar, strategy
/// and seed admit carry the same word, and fail alike.
pub proof fn lemma_generation_deterministic(
    g: Seq<RuleV>,
    strategy: GenerationStrategy,
    seed: u64,
    r1: Result<String, Error>,
    r2: Result<String, Error>,
)
    requires
        outcome_matches(generation_outcome(g, strategy, seed), r1),
        outcome_matches(generation_outcome(g, strategy, seed), r2),
    ensures
        r1 is Ok && r2 is Ok ==> (r1->Ok_0)@ == (r2->Ok_0)@,
        r1 is Err <==> r2 is Err,
{
    match generation_outcome(g, strategy, seed) {
        GenOutcome::Finished(s) => {
            assert(r1 matches Ok(a) && a@ == s);
            assert(r2 matches Ok(b) && b@ == s);
        },
        GenOutcome::Failed(f) => {
            assert(r1 is Err);
            assert(r2 is Err);
        },
        GenOutcome::OutOfBudget => {
            assert(r1 is Err);
            assert(r2 is Err);
        },
    }
}

/// Whether `alt` holds a term equal to `t`.
fn alt_contains(alt: &Vec<Term>, t: &Term) -> (r: bool)
    ensures
        r == alt_mentions(alt.deep_view(), t@),
{
    let n: usize = alt.len();
    let mut i: usize = 0;
    while i < n
        invariant
            n == alt@.len(),
            i <= n,
            forall|j: int| 0 <= j < i ==> alt.deep_view()[j] != t@,
        decreases n - i,
    {
        if crate::alternatives::term_eq(&alt[i], t) {
            assert(alt.deep_view()[i as int] == t@);
            return true;
        }
        i = i + 1;
    }
    false
}

/// Whether every element of `alt` is a terminal.
fn alt_all_terms(alt: &Vec<Term>) -> (r: bool)
    ensures
        r == all_terminals(alt.deep_view()),
{
    let n: usize = alt.len();
    let mut i: usize = 0;
    while i < n
        invariant
            n == alt@.len(),
            i <= n,
            forall|j: int| 0 <= j < i ==> (#[trigger] alt.deep_view()[j]).is_terminal(),
        decreases n - i,
    {
        if !alt[i].is_terminal() {
            assert(!alt.deep_view()[i as int].is_terminal());
            return false;
        }
        i = i + 1;
    }
    true
}

/// The indices of the alternatives the strategy admits.
fn kept_indices(strategy: GenerationStrategy, rule: &Rule) -> (c: Vec<usize>)
    ensures
        c@.len() == kept_upto(strategy, rule@, rule@.alts.len() as int).len(),
        forall|t: int|
            0 <= t < c@.len() ==> c@[t] as int == kept_upto(
                strategy,
                rule@,
                rule@.alts.len() as int,
            )[t],
    {
    let n: usize = rule.rhs.alternatives.len();
    let mut c: Vec<usize> = Vec::new();
    let mut j: usize = 0;
    while j < n
        invariant
            n == rule@.alts.len(),
            j <= n,
            c@.len() == kept_upto(strategy, rule@, j as int).len(),
            forall|t: int|
                0 <= t < c@.len() ==> c@[t] as int == kept_upto(strategy, rule@, j as int)[t],
        decreases n - j,
    {
        let keep = match strategy {
            GenerationStrategy::UniformRHSSampling => true,
            GenerationStrategy::RecursionAvoidance => !alt_contains(
                &rule.rhs.alternatives[j],
                &rule.lhs,
            ),
            GenerationStrategy::GreedyTerminals => alt_all_terms(&rule.rhs.alternatives[j]),
        };
        proof {
            assert(rule.rhs.alternatives.deep_view()[j as int] == rule@.alts[j as int]);
            assert(keep == keep_alt(strategy, rule@, j as int));
        }
        if keep {
            c.push(j);
        }
        j = j + 1;
    }
    c
}

/// The candidate alternative indices for one expansion.
fn candidate_indices(strategy: GenerationStrategy, rule: &Rule) -> (r: (Vec<usize>, bool))
    ensures
        r.0@.len() == chosen_candidates(strategy, rule@).len(),
        forall|t: int|
            0 <= t < r.0@.len() ==> r.0@[t] as int == chosen_candidates(strategy, rule@)[t] && 0
                <= chosen_candidates(strategy, rule@)[t] < rule@.alts.len(),
        r.1 == uses_reservoir(strategy, rule@),
{
    let c = kept_indices(strategy, rule);
    proof {
        lemma_kept_upto_bounds(strategy, rule@, rule@.alts.len() as int);
        lemma_kept_upto_bounds(
            GenerationStrategy::UniformRHSSampling,
            rule@,
            rule@.alts.len() as int,
        );
    }
    match strategy {
        GenerationStrategy::UniformRHSSampling => (c, false),
        GenerationStrategy::RecursionAvoidance => (c, true),
        GenerationStrategy::GreedyTerminals => {
            if c.len() == 0 {
                (kept_indices(GenerationStrategy::UniformRHSSampling, rule), false)
            } else {
                (c, true)
            }
        },
    }
}

impl Grammar {
    /// The expansion loop, drawing from `prng`; `self` must have a start
    /// rule and the source must be fresh.
    fn generate_impl(&self, strategy: GenerationStrategy, prng: &mut Prng) -> (r: Result<
        String,
        Error,
    >)
        requires
            old(prng).drawn_spec() == Seq::<u32>::empty(),
            self@.len() > 0,
        ensures
            outcome_matches(generation_outcome(self@, strategy, old(prng).seed_spec()), r),
    {
        let ghost g = self@;
        let ghost seed = prng.seed_spec();
        let mut stack: Vec<Term> = Vec::new();
        stack.push(self.rules[0].lhs.clone());
        let mut out = String::new();
        let mut fuel: u64 = GEN_BUDGET;
        let ghost mut st = init_state(g);
        proof {
            assert(stack.deep_view() =~= st.stack);
        }
        loop
            invariant
                g == self@,
                g.len() > 0,
                st.stack == stack.deep_view(),
                st.out == out@,
                st.drawn == prng.drawn_spec(),
                seed == prng.seed_spec(),
                seed == old(prng).seed_spec(),
                gen_run(g, strategy, seed, st, fuel as nat) == generation_outcome(
                    g,
                    strategy,
                    seed,
                ),
            decreases fuel,
        {
            let slen = stack.len();
            if slen == 0 {
                proof {
                    assert(gen_step(g, strategy, seed, st) == GenStep::Finished(st.out));
                }
                return Ok(out);
            }
            let t = stack[slen - 1].clone();
            proof {
                assert(t@ == st.stack.last());
            }
            if t.is_terminal() {
                if fuel == 0 {
                    proof {
                        assert(gen_step(g, strategy, seed, st) is Going);
                    }
                    return Err(
                        Error::InfinitelyRecursiveProductionError(
                            String::from_str("expansion exceeded its step budget"),
                        ),
                    );
                }
                fuel = fuel - 1;
                let popped = stack.pop();
                assert(popped is Some);
                text::push_str_plain(&mut out, t.content.as_str());
                proof {
                    let st2 = GenState {
                        stack: st.stack.drop_last(),
                        out: st.out + t@.content,
                        drawn: st.drawn,
                    };
                    assert(gen_step(g, strategy, seed, st) == GenStep::Going(st2));
                    assert(stack.deep_view() =~= st2.stack);
                    st = st2;
                }
            } else {
                match self.rule_index(&t) {
                    Option::None => {
                        proof {
                            lemma_find_lhs_characterization(g, t@);
                            assert(find_lhs(g, t@) is None);
                            assert(gen_step(g, strategy, seed, st) == GenStep::Failed(
                                GenFailure::UnknownNonterminal,
                            ));
                        }
                        return Err(
                            Error::UnknownNonterminalError(
                                String::from_str("no production rule for nonterminal"),
                            ),
                        );
                    },
                    Option::Some(ri) => {
                        proof {
                            lemma_find_lhs_characterization(g, t@);
                            assert(find_lhs(g, t@) == Some(ri as int));
                        }
                        let rule = &self.rules[ri];
                        proof {
                            assert(rule@ == g[ri as int]);
                        }
                        let (cands, reservoir) = candidate_indices(strategy, rule);
                        if cands.len() == 0 {
                            match strategy {
                                GenerationStrategy::RecursionAvoidance => {
                                    proof {
                                        assert(gen_step(g, strategy, seed, st) == GenStep::Failed(
                                            GenFailure::InfinitelyRecursive,
                                        ));
                                    }
                                    return Err(
                                        Error::InfinitelyRecursiveProductionError(
                                            String::from_str(
                                                "cannot generate from infinitely recursive production rule",
                                            ),
                                        ),
                                    );
                                },
                                _ => {
                                    proof {
                                        assert(gen_step(g, strategy, seed, st) == GenStep::Failed(
                                            GenFailure::UnknownNonterminal,
                                        ));
                                    }
                                    return Err(
                                        Error::UnknownNonterminalError(
                                            String::from_str(
                                                "rule offers no alternative to expand with",
                                            ),
                                        ),
                                    );
                                },
                            }
                        }
                        if fuel == 0 {
                            proof {
                                assert(gen_step(g, strategy, seed, st) is Going);
                            }
                            return Err(
                                Error::InfinitelyRecursiveProductionError(
                                    String::from_str("expansion exceeded its step budget"),
                                ),
                            );
                        }
                        fuel = fuel - 1;
                        let ghost rv = g[ri as int];
                        let ghost cs = chosen_candidates(strategy, rv);
                        let ghost drawn0 = prng.drawn_spec();
                        let clen: usize = cands.len();
                        let mut idx: usize = 0;
                        if reservoir {
                            // rand's reservoir scan: one draw per candidate,
                            // keeping the last whose draw came out zero
                            let mut chosen: usize = 0;
                            let mut t: usize = 0;
                            while t < clen
                                invariant
                                    clen == cands@.len(),
                                    clen > 0,
                                    t <= clen,
                                    seed == prng.seed_spec(),
                                    prng.drawn_spec() == drawn0 + reservoir_bounds(t as int),
                                    t == 0 ==> chosen == 0,
                                    t > 0 ==> chosen < t && chosen as int == reservoir_choice(
                                        seed,
                                        drawn0,
                                        t as int,
                                    ),
                                decreases clen - t,
                            {
                                let b: u32 = if t >= 0xFFFF_FFFE {
                                    0xFFFF_FFFFu32
                                } else {
                                    (t as u32) + 1
                                };
                                proof {
                                    assert(b == clamp32(t as int + 1));
                                }
                                let d = prng.pick(b);
                                if d == 0 {
                                    chosen = t;
                                }
                                proof {
                                    assert(reservoir_bounds(t as int + 1) == reservoir_bounds(
                                        t as int,
                                    ).push(clamp32(t as int + 1)));
                                    assert(prng.drawn_spec() =~= drawn0 + reservoir_bounds(
                                        t as int + 1,
                                    ));
                                    if t == 0 {
                                        assert(reservoir_choice(seed, drawn0, 1) == 0);
                                    } else {
                                        assert(d == pick_of(
                                            seed,
                                            drawn0 + reservoir_bounds(t as int),
                                            clamp32(t as int + 1),
                                        ));
                                        if d == 0 {
                                            assert(reservoir_choice(seed, drawn0, t as int + 1)
                                                == t as int);
                                        } else {
                                            assert(reservoir_choice(seed, drawn0, t as int + 1)
                                                == reservoir_choice(seed, drawn0, t as int));
                                        }
                                    }
                                }
                                t = t + 1;
                            }
                            idx = cands[chosen];
                            proof {
                                assert(chosen as int == reservoir_choice(
                                    seed,
                                    drawn0,
                                    cs.len() as int,
                                ));
                                assert(idx as int == cs[chosen as int]);
                            }
                        } else {
                            let bound: u32 = if clen >= 0xFFFF_FFFF {
                                0xFFFF_FFFFu32
                            } else {
                                clen as u32
                            };
                            proof {
                                assert(bound == clamp32(cands@.len() as int));
                            }
                            let i = prng.pick(bound);
                            let iu: usize = i as usize;
                            idx = if iu < clen {
                                cands[iu]
                            } else {
                                cands[0]
                            };
                            proof {
                                assert(i == pick_of(seed, st.drawn, bound));
                                let pi = pick_of(seed, st.drawn, clamp32(cs.len() as int)) as int;
                                if 0 <= pi < cs.len() {
                                    assert(idx as int == cs[pi]);
                                } else {
                                    assert(idx as int == cs[0]);
                                }
                            }
                        }
                        let popped = stack.pop();
                        assert(popped is Some);
                        let alt = &rule.rhs.alternatives[idx];
                        let ghost av = rv.alts[idx as int];
                        proof {
                            assert(alt.deep_view() == av);
                        }
                        let ghost base = st.stack.drop_last();
                        proof {
                            assert(stack.deep_view() =~= base);
                        }
                        let alen: usize = alt.len();
                        let mut w: usize = alen;
                        while w > 0
                            invariant
                                alen == av.len(),
                                alt.deep_view() == av,
                                w <= alen,
                                stack.deep_view() == base + av.reverse().take(alen - w as int),
                            decreases w,
                        {
                            w = w - 1;
                            stack.push(alt[w].clone());
                            proof {
                                assert(av.reverse()[alen - w - 1 as int] == av[w as int]);
                                assert(av.reverse().take(alen - w as int) =~= av.reverse().take(
                                    alen - w - 1 as int,
                                ).push(av[w as int]));
                                assert(stack.deep_view() =~= (base + av.reverse().take(
                                    alen - w - 1 as int,
                                )).push(av[w as int]));
                                assert(stack.deep_view() =~= base + av.reverse().take(
                                    alen - w as int,
                                ));
                            }
                        }
                        proof {
                            assert(av.reverse().take(alen as int) =~= av.reverse());
                            let st2 = GenState {
                                stack: st.stack.drop_last() + av.reverse(),
                                out: st.out,
                                drawn: if uses_reservoir(strategy, rv) {
                                    st.drawn + reservoir_bounds(cs.len() as int)
                                } else {
                                    st.drawn.push(clamp32(cs.len() as int))
                                },
                            };
                            assert(gen_step(g, strategy, seed, st) == GenStep::Going(st2));
                            assert(stack.deep_view() =~= st2.stack);
                            assert(prng.drawn_spec() == st2.drawn);
                            st = st2;
                        }
                    },
                }
            }
        }
    }

    /// Generates one word with the given strategy and seed; the outcome is
    /// a function of the grammar, the strategy and the seed alone.
    pub fn generate_parameterized(&self, strategy: GenerationStrategy, seed: u64) -> (r: Result<
        String,
        Error,
    >)
        ensures
            self@.len() == 0 ==> (r matches Err(e) && e is EmptyGrammarError),
            self@.len() > 0 ==> outcome_matches(generation_outcome(self@, strategy, seed), r),
    {
        if self.rules.len() == 0 {
            return Err(
                Error::EmptyGrammarError(String::from_str("cannot generate without a start rule")),
            );
        }
        let mut prng = Prng::from_seed(seed);
        self.generate_impl(strategy, &mut prng)
    }

    /// Generates one word by uniform sampling with an entropy-drawn seed.
    pub fn generate(&self) -> (r: Result<String, Error>)
        ensures
            self@.len() == 0 ==> (r matches Err(e) && e is EmptyGrammarError),
            self@.len() > 0 ==> exists|seed: u64|
                outcome_matches(
                    generation_outcome(self@, GenerationStrategy::UniformRHSSampling, seed),
                    r,
                ),
    {
        if self.rules.len() == 0 {
            return Err(
                Error::EmptyGrammarError(String::from_str("cannot generate without a start rule")),
            );
        }
        let seed = Prng::entropy_seed();
        let mut prng = Prng::from_seed(seed);
        let r = self.generate_impl(GenerationStrategy::UniformRHSSampling, &mut prng);
        proof {
            assert(outcome_matches(
                generation_outcome(self@, GenerationStrategy::UniformRHSSampling, seed),
                r,
            ));
        }
        r
    }
}

} // verus!

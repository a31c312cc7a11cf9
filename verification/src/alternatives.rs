//! The right-hand side of a rule: an ordered list of alternatives, each an
//! ordered list of terms.
use crate::term::{Term, TermV};
use crate::text;
use vstd::prelude::*;

verus! {

/// Keep-first deduplication: an element stays exactly when no equal element
/// stands before it.
pub open spec fn dedup_alts(s: Seq<Seq<TermV>>) -> Seq<Seq<TermV>>
    decreases s.len(),
{
    if s.len() == 0 {
        Seq::empty()
    } else {
        let prefix = dedup_alts(s.drop_last());
        if s.drop_last().contains(s.last()) {
            prefix
        } else {
            prefix.push(s.last())
        }
    }
}

pub proof fn lemma_dedup_alts_push(s: Seq<Seq<TermV>>, x: Seq<TermV>)
    ensures
        dedup_alts(s.push(x)) == if s.contains(x) {
            dedup_alts(s)
        } else {
            dedup_alts(s).push(x)
        },
{
    assert(s.push(x).drop_last() =~= s);
    assert(s.push(x).last() == x);
}

/// Equality of two terms, decided on their views.
pub fn term_eq(a: &Term, b: &Term) -> (r: bool)
    ensures
        r == (a@ == b@),
{
    let r = a.kind == b.kind && a.content == b.content;
    proof {
        if r {
            assert(a@ =~= b@);
        }
    }
    r
}

/// Equality of two alternatives, decided on their views.
pub fn alt_eq(a: &Vec<Term>, b: &Vec<Term>) -> (r: bool)
    ensures
        r == (a.deep_view() == b.deep_view()),
{
    if a.len() != b.len() {
        proof {
            assert(a.deep_view().len() == a@.len());
            assert(b.deep_view().len() == b@.len());
        }
        return false;
    }
    let n: usize = a.len();
    let mut i: usize = 0;
    while i < n
        invariant
            n == a@.len(),
            n == b@.len(),
            i <= n,
            forall|j: int| 0 <= j < i ==> a.deep_view()[j] == b.deep_view()[j],
        decreases n - i,
    {
        if !term_eq(&a[i], &b[i]) {
            assert(a.deep_view()[i as int] != b.deep_view()[i as int]);
            return false;
        }
        i = i + 1;
    }
    proof {
        assert(a.deep_view() =~= b.deep_view());
    }
    true
}

/// Whether `v` already holds an alternative equal to `alt`.
pub fn contains_alt(v: &Vec<Vec<Term>>, alt: &Vec<Term>) -> (r: bool)
    ensures
        r == v.deep_view().contains(alt.deep_view()),
{
    let n: usize = v.len();
    let mut i: usize = 0;
    while i < n
        invariant
            n == v@.len(),
            i <= n,
            forall|j: int| 0 <= j < i ==> v.deep_view()[j] != alt.deep_view(),
        decreases n - i,
    {
        if alt_eq(&v[i], alt) {
            assert(v.deep_view()[i as int] == alt.deep_view());
            return true;
        }
        i = i + 1;
    }
    assert(!v.deep_view().contains(alt.deep_view()));
    false
}

/// A copy of one alternative.
pub fn clone_terms(v: &Vec<Term>) -> (r: Vec<Term>)
    ensures
        r@ == v@,
{
    let n: usize = v.len();
    let mut r: Vec<Term> = Vec::new();
    let mut i: usize = 0;
    while i < n
        invariant
            n == v@.len(),
            i <= n,
            r@.len() == i,
            forall|j: int| 0 <= j < i ==> r@[j] == v@[j],
        decreases n - i,
    {
        r.push(v[i].clone());
        i = i + 1;
    }
    proof {
        assert(r@ =~= v@);
    }
    r
}

/// A copy of a list of alternatives.
pub fn clone_alts(v: &Vec<Vec<Term>>) -> (r: Vec<Vec<Term>>)
    ensures
        r.deep_view() == v.deep_view(),
        r@.len() == v@.len(),
{
    let n: usize = v.len();
    let mut r: Vec<Vec<Term>> = Vec::new();
    let mut i: usize = 0;
    while i < n
        invariant
            n == v@.len(),
            i <= n,
            r@.len() == i,
            forall|j: int| 0 <= j < i ==> r.deep_view()[j] == v.deep_view()[j],
        decreases n - i,
    {
        r.push(clone_terms(&v[i]));
        i = i + 1;
    }
    proof {
        assert(r.deep_view() =~= v.deep_view());
    }
    r
}

/// The ordered alternatives of one rule.
pub struct Alternatives {
    pub alternatives: Vec<Vec<Term>>,
}

impl View for Alternatives {
    type V = Seq<Seq<TermV>>;

    open spec fn view(&self) -> Seq<Seq<TermV>> {
        self.alternatives.deep_view()
    }
}

impl Clone for Alternatives {
    fn clone(&self) -> (res: Self)
        ensures
            res@ == self@,
    {
        Alternatives { alternatives: clone_alts(&self.alternatives) }
    }
}

impl From<Vec<Vec<Term>>> for Alternatives {
    fn from(alternatives: Vec<Vec<Term>>) -> (r: Self) {
        Alternatives { alternatives }
    }
}

impl vstd::std_specs::convert::FromSpecImpl<Vec<Vec<Term>>> for Alternatives {
    open spec fn obeys_from_spec() -> bool {
        true
    }

    open spec fn from_spec(alternatives: Vec<Vec<Term>>) -> Self {
        Alternatives { alternatives }
    }
}

impl Alternatives {
    /// No alternatives at all.
    pub fn new() -> (r: Self)
        ensures
            r@ == Seq::<Seq<TermV>>::empty(),
    {
        let r = Alternatives { alternatives: Vec::new() };
        proof {
            assert(r@ =~= Seq::<Seq<TermV>>::empty());
        }
        r
    }

    /// Appends one alternative.
    pub fn add_alternative(&mut self, alternative: Vec<Term>)
        ensures
            final(self)@ == old(self)@.push(alternative.deep_view()),
    {
        self.alternatives.push(alternative);
        proof {
            assert(self@ =~= old(self)@.push(self.alternatives@.last().deep_view()));
        }
    }

    /// The deduplicated concatenation of the two alternative lists, keeping
    /// first occurrences in order.
    pub fn merge(&self, other: &Self) -> (r: Self)
        ensures
            r@ == dedup_alts(self@ + other@),
    {
        let mut out: Vec<Vec<Term>> = Vec::new();
        let ghost all: Seq<Seq<TermV>> = self@ + other@;
        let n1: usize = self.alternatives.len();
        let mut i: usize = 0;
        while i < n1
            invariant
                n1 == self@.len(),
                i <= n1,
                out.deep_view() == dedup_alts(all.take(i as int)),
                all == self@ + other@,
            decreases n1 - i,
        {
            proof {
                assert(all.take(i as int + 1) =~= all.take(i as int).push(all[i as int]));
                lemma_dedup_alts_push(all.take(i as int), all[i as int]);
                assert(all[i as int] == self@[i as int]);
            }
            if !contains_alt(&out, &self.alternatives[i]) {
                proof {
                    lemma_dedup_alts_unseen(all.take(i as int), out.deep_view(), self@[i as int]);
                }
                out.push(clone_terms(&self.alternatives[i]));
                proof {
                    assert(out.deep_view() =~= dedup_alts(all.take(i as int)).push(
                        self@[i as int],
                    ));
                }
            } else {
                proof {
                    lemma_dedup_alts_seen(all.take(i as int), out.deep_view(), self@[i as int]);
                }
            }
            i = i + 1;
        }
        let n2: usize = other.alternatives.len();
        let mut k: usize = 0;
        while k < n2
            invariant
                n1 == self@.len(),
                n2 == other@.len(),
                k <= n2,
                out.deep_view() == dedup_alts(all.take(n1 + k as int)),
                all == self@ + other@,
            decreases n2 - k,
        {
            proof {
                assert(all.take(n1 + k as int + 1) =~= all.take(n1 + k as int).push(
                    all[n1 + k as int],
                ));
                lemma_dedup_alts_push(all.take(n1 + k as int), all[n1 + k as int]);
                assert(all[n1 + k as int] == other@[k as int]);
            }
            if !contains_alt(&out, &other.alternatives[k]) {
                proof {
                    lemma_dedup_alts_unseen(
                        all.take(n1 + k as int),
                        out.deep_view(),
                        other@[k as int],
                    );
                }
                out.push(clone_terms(&other.alternatives[k]));
                proof {
                    assert(out.deep_view() =~= dedup_alts(all.take(n1 + k as int)).push(
                        other@[k as int],
                    ));
                }
            } else {
                proof {
                    lemma_dedup_alts_seen(
                        all.take(n1 + k as int),
                        out.deep_view(),
                        other@[k as int],
                    );
                }
            }
            k = k + 1;
        }
        proof {
            assert(all.take(n1 + n2 as int) =~= all);
        }
        Alternatives { alternatives: out }
    }
}

/// An element missing from the deduplicated prefix is missing from the
/// prefix itself.
pub(crate) proof fn lemma_dedup_alts_unseen(s: Seq<Seq<TermV>>, d: Seq<Seq<TermV>>, x: Seq<TermV>)
    requires
        d == dedup_alts(s),
        !d.contains(x),
    ensures
        !s.contains(x),
    decreases s.len(),
{
    if s.len() > 0 {
        assert(s =~= s.drop_last().push(s.last()));
        if s.drop_last().contains(s.last()) {
            lemma_dedup_alts_unseen(s.drop_last(), d, x);
            assert(s.last() != x);
            lemma_contains_drop_last(s, x);
        } else {
            let dp = dedup_alts(s.drop_last());
            assert(d == dp.push(s.last()));
            assert forall|y: Seq<TermV>| dp.contains(y) implies #[trigger] d.contains(y) by {
                let i = choose|i: int| 0 <= i < dp.len() && dp[i] == y;
                assert(d[i] == y);
            }
            lemma_dedup_alts_unseen(s.drop_last(), dp, x);
            assert(d[d.len() - 1] == s.last());
            assert(d.contains(s.last()));
            lemma_contains_drop_last(s, x);
        }
    }
}

/// An element present in the deduplicated prefix is present in the prefix
/// itself.
pub(crate) proof fn lemma_dedup_alts_seen(s: Seq<Seq<TermV>>, d: Seq<Seq<TermV>>, x: Seq<TermV>)
    requires
        d == dedup_alts(s),
        d.contains(x),
    ensures
        s.contains(x),
    decreases s.len(),
{
    if s.len() == 0 {
    } else {
        if s.drop_last().contains(s.last()) {
            lemma_dedup_alts_seen(s.drop_last(), d, x);
            lemma_contains_of_drop_last(s, x);
        } else {
            if x == s.last() {
                assert(s.contains(x)) by {
                    assert(s[s.len() - 1] == x);
                }
            } else {
                assert(dedup_alts(s.drop_last()).contains(x)) by {
                    let i = choose|i: int| 0 <= i < d.len() && d[i] == x;
                    assert(d == dedup_alts(s.drop_last()).push(s.last()));
                    assert(i < d.len() - 1);
                }
                lemma_dedup_alts_seen(s.drop_last(), dedup_alts(s.drop_last()), x);
                lemma_contains_of_drop_last(s, x);
            }
        }
    }
}

/// Membership in a sequence, given absence at the last slot, falls to the
/// prefix; and membership in the prefix lifts to the sequence.
proof fn lemma_contains_drop_last(s: Seq<Seq<TermV>>, x: Seq<TermV>)
    requires
        s.len() > 0,
        !s.drop_last().contains(x),
        s.last() != x,
    ensures
        !s.contains(x),
{
    assert forall|i: int| 0 <= i < s.len() implies s[i] != x by {
        if i < s.len() - 1 {
            assert(s.drop_last()[i] == s[i]);
        }
    }
}

proof fn lemma_contains_of_drop_last(s: Seq<Seq<TermV>>, x: Seq<TermV>)
    requires
        s.len() > 0,
        s.drop_last().contains(x),
    ensures
        s.contains(x),
{
    let i = choose|i: int| 0 <= i < s.drop_last().len() && s.drop_last()[i] == x;
    assert(s[i] == x);
}

/// The rendering of one alternative: its terms joined by single spaces.
pub open spec fn render_alt(alt: Seq<TermV>) -> Seq<char> {
    text::join(alt.map_values(|t: TermV| t.render()), seq![' '])
}

/// The rendering of an alternative list: alternatives joined by " | ".
pub open spec fn render_alts(alts: Seq<Seq<TermV>>) -> Seq<char> {
    text::join(alts.map_values(|a: Seq<TermV>| render_alt(a)), seq![' ', '|', ' '])
}

impl Alternatives {
    /// Appends the textual rendering of these alternatives to `out`.
    pub fn render_into(&self, out: &mut String)
        ensures
            final(out)@ == old(out)@ + render_alts(self@),
    {
        let n: usize = self.alternatives.len();
        let mut i: usize = 0;
        while i < n
            invariant
                n == self@.len(),
                i <= n,
                out@ == old(out)@ + render_alts(self@.take(i as int)),
            decreases n - i,
        {
            if i > 0 {
                text::push_char(out, ' ');
                text::push_char(out, '|');
                text::push_char(out, ' ');
            }
            let alt = &self.alternatives[i];
            let m: usize = alt.len();
            let mut j: usize = 0;
            while j < m
                invariant
                    n == self@.len(),
                    i < n,
                    m == self@[i as int].len(),
                    alt.deep_view() == self@[i as int],
                    j <= m,
                    out@ == old(out)@ + render_alts(self@.take(i as int)) + (if i > 0 {
                        seq![' ', '|', ' ']
                    } else {
                        Seq::<char>::empty()
                    }) + render_alt(self@[i as int].take(j as int)),
                decreases m - j,
            {
                if j > 0 {
                    text::push_char(out, ' ');
                }
                alt[j].render_into(out);
                proof {
                    let av = self@[i as int];
                    assert(av.take(j as int + 1) =~= av.take(j as int).push(av[j as int]));
                    text::lemma_join_push(
                        av.take(j as int).map_values(|t: TermV| t.render()),
                        av[j as int].render(),
                        seq![' '],
                    );
                    assert(av.take(j as int + 1).map_values(|t: TermV| t.render()) =~= av.take(
                        j as int,
                    ).map_values(|t: TermV| t.render()).push(av[j as int].render()));
                    assert(out@ =~= old(out)@ + render_alts(self@.take(i as int)) + (if i > 0 {
                        seq![' ', '|', ' ']
                    } else {
                        Seq::<char>::empty()
                    }) + render_alt(av.take(j as int + 1)));
                }
                j = j + 1;
            }
            proof {
                let av = self@[i as int];
                assert(av.take(m as int) =~= av);
                assert(self@.take(i as int + 1) =~= self@.take(i as int).push(av));
                text::lemma_join_push(
                    self@.take(i as int).map_values(|a: Seq<TermV>| render_alt(a)),
                    render_alt(av),
                    seq![' ', '|', ' '],
                );
                assert(self@.take(i as int + 1).map_values(|a: Seq<TermV>| render_alt(a))
                    =~= self@.take(i as int).map_values(|a: Seq<TermV>| render_alt(a)).push(
                    render_alt(av),
                ));
                assert(out@ =~= old(out)@ + render_alts(self@.take(i as int + 1)));
            }
            i = i + 1;
        }
        proof {
            assert(self@.take(n as int) =~= self@);
        }
    }

    /// The textual rendering of these alternatives.
    pub fn to_text(&self) -> (r: String)
        ensures
            r@ == render_alts(self@),
    {
        let mut out = String::new();
        self.render_into(&mut out);
        proof {
            assert(out@ =~= render_alts(self@));
        }
        out
    }
}

} // verus!

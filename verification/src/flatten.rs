//! What an alternative contributes to the words a grammar can produce,
//! and why atomization does not change it.
use crate::grammar::{atomize_alt, atomize_term};
use crate::term::TermV;
use vstd::prelude::*;

verus! {

/// What one element of an alternative contributes to the words it can
/// produce: a nonterminal by name, or one terminal character. The empty
/// terminal contributes nothing.
pub ghost enum FlatSym {
    C(char),
    N(Seq<char>),
}

/// The contribution of a terminal's content: its characters in order.
pub open spec fn chars_flat(content: Seq<char>) -> Seq<FlatSym>
    decreases content.len(),
{
    if content.len() == 0 {
        Seq::empty()
    } else {
        seq![FlatSym::C(content[0])] + chars_flat(content.drop_first())
    }
}

/// The contribution of one term: its name, or its characters in order.
pub open spec fn term_flat(t: TermV) -> Seq<FlatSym> {
    if t.is_nonterminal() {
        seq![FlatSym::N(t.content)]
    } else {
        chars_flat(t.content)
    }
}

/// The contribution of a whole alternative, in order.
pub open spec fn alt_flat(alt: Seq<TermV>) -> Seq<FlatSym>
    decreases alt.len(),
{
    if alt.len() == 0 {
        Seq::empty()
    } else {
        term_flat(alt[0]) + alt_flat(alt.drop_first())
    }
}

proof fn lemma_alt_flat_concat(a: Seq<TermV>, b: Seq<TermV>)
    ensures
        alt_flat(a + b) == alt_flat(a) + alt_flat(b),
    decreases a.len(),
{
    if a.len() == 0 {
        assert(a + b =~= b);
        assert(alt_flat(a) =~= Seq::<FlatSym>::empty());
        assert(alt_flat(a + b) =~= alt_flat(a) + alt_flat(b));
    } else {
        assert((a + b)[0] == a[0]);
        assert((a + b).drop_first() =~= a.drop_first() + b);
        lemma_alt_flat_concat(a.drop_first(), b);
        assert(alt_flat(a + b) =~= alt_flat(a) + alt_flat(b));
    }
}

/// Splitting one term leaves its contribution unchanged.
proof fn lemma_atomize_term_flat(t: TermV)
    ensures
        alt_flat(atomize_term(t)) == term_flat(t),
{
    if t.is_nonterminal() || t.is_atomic() || t.is_eps() {
        let a = atomize_term(t);
        assert(a == seq![t]);
        assert(a.len() == 1);
        assert(a[0] == t);
        assert(a.drop_first() =~= Seq::<TermV>::empty());
        assert(alt_flat(Seq::<TermV>::empty()) =~= Seq::<FlatSym>::empty());
        assert(alt_flat(a) == term_flat(t) + alt_flat(Seq::<TermV>::empty()));
        assert(alt_flat(a) =~= term_flat(t));
    } else {
        let a = atomize_term(t);
        assert(a.len() == t.content.len());
        assert forall|i: int| 0 <= i < a.len() implies (#[trigger] a[i]) == TermV::t(
            seq![t.content[i]],
        ) by {}
        lemma_flat_of_singletons(a, t.content);
    }
}

/// The contribution of a single-character terminal is that character,
/// stated pointwise.
proof fn lemma_term_flat_single(t: TermV, c: char)
    requires
        t == TermV::t(seq![c]),
    ensures
        term_flat(t).len() == 1,
        term_flat(t)[0] == FlatSym::C(c),
{
    assert(t.content.len() == 1);
    assert(t.content[0] == c);
    assert(t.content.drop_first() =~= Seq::<char>::empty());
    assert(chars_flat(Seq::<char>::empty()) =~= Seq::<FlatSym>::empty());
    assert(chars_flat(t.content) == seq![FlatSym::C(t.content[0])] + chars_flat(
        t.content.drop_first(),
    ));
    assert(term_flat(t) == chars_flat(t.content));
}

/// An alternative of single-character terminals contributes exactly those
/// characters.
proof fn lemma_flat_of_singletons(a: Seq<TermV>, content: Seq<char>)
    requires
        a.len() == content.len(),
        forall|i: int| 0 <= i < a.len() ==> (#[trigger] a[i]) == TermV::t(seq![content[i]]),
    ensures
        alt_flat(a) == chars_flat(content),
    decreases a.len(),
{
    if a.len() == 0 {
        assert(alt_flat(a) =~= Seq::<FlatSym>::empty());
        assert(chars_flat(content) =~= Seq::<FlatSym>::empty());
    } else {
        let ad = a.drop_first();
        let cd = content.drop_first();
        assert forall|i: int| 0 <= i < ad.len() implies (#[trigger] ad[i]) == TermV::t(
            seq![cd[i]],
        ) by {
            assert(ad[i] == a[i + 1]);
            assert(cd[i] == content[i + 1]);
            assert(seq![content[i + 1]] =~= seq![cd[i]]);
        }
        lemma_flat_of_singletons(ad, cd);
        lemma_term_flat_single(a[0], content[0]);
        assert(alt_flat(a) == term_flat(a[0]) + alt_flat(ad));
        assert(chars_flat(content) == seq![FlatSym::C(content[0])] + chars_flat(cd));
        assert(alt_flat(a) =~= chars_flat(content)) by {
            assert(alt_flat(a).len() == 1 + alt_flat(ad).len());
            assert(chars_flat(content).len() == 1 + chars_flat(cd).len());
            assert(alt_flat(a)[0] == term_flat(a[0])[0]);
            assert(chars_flat(content)[0] == FlatSym::C(content[0]));
            assert forall|k: int| 0 <= k < alt_flat(a).len() implies alt_flat(a)[k]
                == chars_flat(content)[k] by {
                if k == 0 {
                } else {
                    assert(alt_flat(a)[k] == alt_flat(ad)[k - 1]);
                    assert(chars_flat(content)[k] == chars_flat(cd)[k - 1]);
                }
            }
        }
    }
}

/// Atomization preserves what every alternative can produce: the
/// flattened contribution of an alternative is unchanged by it. What a
/// grammar derives depends on its rules only through these contributions,
/// so normalization does not alter the language.
pub proof fn lemma_atomize_alt_flat(alt: Seq<TermV>)
    ensures
        alt_flat(atomize_alt(alt)) == alt_flat(alt),
    decreases alt.len(),
{
    if alt.len() == 0 {
        assert(atomize_alt(alt) =~= Seq::<TermV>::empty());
    } else {
        lemma_atomize_alt_flat(alt.drop_first());
        lemma_atomize_term_flat(alt[0]);
        lemma_alt_flat_concat(atomize_term(alt[0]), atomize_alt(alt.drop_first()));
        assert(alt_flat(atomize_alt(alt)) =~= alt_flat(alt));
    }
}

} // verus!

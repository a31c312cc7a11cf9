//! The shared packed parse forest: nodes identified by label, with packed
//! binary and unary families deduplicated as a set.
use crate::parser::PSym;
use vstd::pervasive::VecAdditionalExecFns;
use vstd::prelude::*;

verus! {

/// Identity of a forest node. Labels for the empty word and for the absent
/// node carry no positions; the others span `start..end` of the input.
#[derive(Clone, Copy, Debug, PartialEq, Eq, Structural)]
pub enum SppfLabel {
    /// No node: the placeholder member of unary families.
    Null,
    /// The empty word.
    Epsilon,
    /// A completed symbol over a span.
    Symbol { sym: PSym, start: usize, end: usize },
    /// A partially recognized alternative over a span.
    Item { rule: usize, alt: usize, dot: usize, start: usize, end: usize },
}

impl SppfLabel {
    pub open spec fn is_null_spec(self) -> bool {
        self is Null
    }

    /// Whether this label is the absent node.
    pub fn is_null(&self) -> (r: bool)
        ensures
            r == self.is_null_spec(),
    {
        matches!(self, SppfLabel::Null)
    }
}

/// A forest node: its label and its packed families. A family `(w, v)`
/// with `w == Null` is unary.
pub struct SppfNode {
    pub label: SppfLabel,
    pub families: Vec<(SppfLabel, SppfLabel)>,
}

/// Mathematical value of a node.
#[verifier::ext_equal]
pub ghost struct SppfNodeV {
    pub label: SppfLabel,
    pub families: Seq<(SppfLabel, SppfLabel)>,
}

impl View for SppfNode {
    type V = SppfNodeV;

    open spec fn view(&self) -> SppfNodeV {
        SppfNodeV { label: self.label, families: self.families@ }
    }
}

impl DeepView for SppfNode {
    type V = SppfNodeV;

    open spec fn deep_view(&self) -> SppfNodeV {
        self.view()
    }
}

/// Whether some node carries the label.
pub open spec fn has_label(ns: Seq<SppfNodeV>, l: SppfLabel) -> bool {
    exists|i: int| 0 <= i < ns.len() && ns[i].label == l
}

/// No two nodes share a label.
pub open spec fn labels_distinct(ns: Seq<SppfNodeV>) -> bool {
    forall|i: int, j: int| 0 <= i < j < ns.len() ==> ns[i].label != ns[j].label
}

/// Looking a label up, or appending a fresh node for it.
pub open spec fn insert_spec(ns: Seq<SppfNodeV>, l: SppfLabel) -> Seq<SppfNodeV> {
    if has_label(ns, l) {
        ns
    } else {
        ns.push(SppfNodeV { label: l, families: Seq::empty() })
    }
}

/// Adding one family to the node at `idx`, as a set.
pub open spec fn add_family_spec(
    ns: Seq<SppfNodeV>,
    idx: int,
    w: SppfLabel,
    v: SppfLabel,
) -> Seq<SppfNodeV> {
    let node = ns[idx];
    if node.families.contains((w, v)) {
        ns
    } else {
        ns.update(idx, SppfNodeV { label: node.label, families: node.families.push((w, v)) })
    }
}

/// The forest.
pub struct Sppf {
    pub nodes: Vec<SppfNode>,
}

impl View for Sppf {
    type V = Seq<SppfNodeV>;

    open spec fn view(&self) -> Seq<SppfNodeV> {
        self.nodes.deep_view()
    }
}

impl Sppf {
    /// A fresh forest holding only the two singletons.
    pub fn new() -> (s: Sppf)
        ensures
            s@ == seq![
                SppfNodeV { label: SppfLabel::Null, families: Seq::empty() },
                SppfNodeV { label: SppfLabel::Epsilon, families: Seq::empty() },
            ],
            labels_distinct(s@),
    {
        let mut nodes: Vec<SppfNode> = Vec::new();
        nodes.push(SppfNode { label: SppfLabel::Null, families: Vec::new() });
        nodes.push(SppfNode { label: SppfLabel::Epsilon, families: Vec::new() });
        let s = Sppf { nodes };
        proof {
            assert(s@ =~= seq![
                SppfNodeV { label: SppfLabel::Null, families: Seq::empty() },
                SppfNodeV { label: SppfLabel::Epsilon, families: Seq::empty() },
            ]);
        }
        s
    }

    /// Index of the node with the given label, if any.
    pub fn find(&self, l: SppfLabel) -> (r: Option<usize>)
        ensures
            match r {
                Some(i) => i < self@.len() && self@[i as int].label == l && (forall|j: int|
                    0 <= j < i ==> self@[j].label != l),
                None => !has_label(self@, l),
            },
    {
        let n: usize = self.nodes.len();
        let mut i: usize = 0;
        while i < n
            invariant
                n == self@.len(),
                i <= n,
                forall|j: int| 0 <= j < i ==> self@[j].label != l,
            decreases n - i,
        {
            if self.nodes[i].label == l {
                proof {
                    assert(self@[i as int].label == l);
                }
                return Some(i);
            }
            i = i + 1;
        }
        None
    }

    /// Looks the label up, creating its node when absent; returns the
    /// node's index.
    pub fn insert(&mut self, l: SppfLabel) -> (idx: usize)
        ensures
            final(self)@ == insert_spec(old(self)@, l),
            idx < final(self)@.len(),
            final(self)@[idx as int].label == l,
            forall|j: int| 0 <= j < idx ==> final(self)@[j].label != l,
            labels_distinct(old(self)@) ==> labels_distinct(final(self)@),
    {
        match self.find(l) {
            Some(i) => i,
            None => {
                let idx = self.nodes.len();
                self.nodes.push(SppfNode { label: l, families: Vec::new() });
                proof {
                    assert(self@ =~= old(self)@.push(
                        SppfNodeV { label: l, families: Seq::empty() },
                    ));
                }
                idx
            },
        }
    }

    /// Adds the family `(w, v)` to the node at `idx`, keeping families a
    /// set.
    pub fn add_family(&mut self, idx: usize, w: SppfLabel, v: SppfLabel)
        requires
            idx < old(self)@.len(),
        ensures
            final(self)@ == add_family_spec(old(self)@, idx as int, w, v),
            final(self)@.len() == old(self)@.len(),
            forall|j: int|
                0 <= j < old(self)@.len() ==> #[trigger] final(self)@[j].label
                    == old(self)@[j].label,
    {
        let nf: usize = self.nodes[idx].families.len();
        let mut k: usize = 0;
        while k < nf
            invariant
                idx < self.nodes@.len(),
                self@ == old(self)@,
                nf == self@[idx as int].families.len(),
                k <= nf,
                forall|t: int| 0 <= t < k ==> self@[idx as int].families[t] != (w, v),
            decreases nf - k,
        {
            let pair = self.nodes[idx].families[k];
            if pair.0 == w && pair.1 == v {
                proof {
                    assert(self@[idx as int].families[k as int] == (w, v));
                }
                return ;
            }
            k = k + 1;
        }
        let label = self.nodes[idx].label;
        let mut fams: Vec<(SppfLabel, SppfLabel)> = Vec::new();
        let mut t: usize = 0;
        while t < nf
            invariant
                idx < self.nodes@.len(),
                self@ == old(self)@,
                nf == self@[idx as int].families.len(),
                t <= nf,
                fams@ == self@[idx as int].families.take(t as int),
            decreases nf - t,
        {
            let pair = self.nodes[idx].families[t];
            fams.push(pair);
            proof {
                assert(fams@ =~= self@[idx as int].families.take(t as int + 1));
            }
            t = t + 1;
        }
        fams.push((w, v));
        proof {
            assert(self@[idx as int].families.take(nf as int) =~= self@[idx as int].families);
        }
        self.nodes.set(idx, SppfNode { label, families: fams });
        proof {
            assert(self@ =~= add_family_spec(old(self)@, idx as int, w, v));
        }
    }

    /// The family count of the node with the given label.
    pub fn family_count(&self, l: SppfLabel) -> (r: Option<usize>)
        ensures
            match r {
                Some(c) => exists|i: int|
                    0 <= i < self@.len() && self@[i].label == l && self@[i].families.len() == c,
                None => !has_label(self@, l),
            },
    {
        match self.find(l) {
            Some(i) => {
                let c = self.nodes[i].families.len();
                proof {
                    assert(self@[i as int].label == l && self@[i as int].families.len() == c);
                }
                Some(c)
            },
            None => None,
        }
    }
}

/// Index of the first node with the given label.
pub open spec fn label_index(ns: Seq<SppfNodeV>, l: SppfLabel) -> int
    decreases ns.len(),
{
    if ns.len() == 0 {
        0
    } else if ns[0].label == l {
        0
    } else {
        1 + label_index(ns.drop_first(), l)
    }
}

pub proof fn lemma_label_index_characterization(ns: Seq<SppfNodeV>, l: SppfLabel)
    requires
        has_label(ns, l),
    ensures
        0 <= label_index(ns, l) < ns.len(),
        ns[label_index(ns, l)].label == l,
        forall|j: int| 0 <= j < label_index(ns, l) ==> ns[j].label != l,
    decreases ns.len(),
{
    if ns.len() > 0 && ns[0].label != l {
        let d = ns.drop_first();
        assert(has_label(d, l)) by {
            let i = choose|i: int| 0 <= i < ns.len() && ns[i].label == l;
            assert(d[i - 1] == ns[i]);
        }
        lemma_label_index_characterization(d, l);
        let ix = label_index(ns, l);
        assert(ns[ix] == d[ix - 1]);
        assert forall|j: int| 0 <= j < ix implies ns[j].label != l by {
            if j > 0 {
                assert(ns[j] == d[j - 1]);
            }
        }
    }
}

/// The label an advanced item's node carries: no node at all while the
/// item has matched at most one symbol and is unfinished; the completed
/// symbol when it is finished; the partial item otherwise.
pub open spec fn make_node_label(
    lhs: usize,
    rule: usize,
    alt: usize,
    dot: usize,
    start: usize,
    end: usize,
    finished: bool,
    v: SppfLabel,
) -> SppfLabel {
    if dot <= 1 && !finished {
        v
    } else if finished {
        SppfLabel::Symbol { sym: PSym::Nt(lhs), start, end }
    } else {
        SppfLabel::Item { rule, alt, dot, start, end }
    }
}

/// What the forest looks like after recording an advanced item: unchanged
/// in the no-node case, else the node for the label with one more family,
/// unary when `w` is absent.
pub open spec fn make_node_nodes(
    ns: Seq<SppfNodeV>,
    lhs: usize,
    rule: usize,
    alt: usize,
    dot: usize,
    start: usize,
    end: usize,
    finished: bool,
    w: SppfLabel,
    v: SppfLabel,
) -> Seq<SppfNodeV> {
    if dot <= 1 && !finished {
        ns
    } else {
        let l = make_node_label(lhs, rule, alt, dot, start, end, finished, v);
        let inserted = insert_spec(ns, l);
        let idx = label_index(inserted, l);
        if w is Null {
            add_family_spec(inserted, idx, v, SppfLabel::Null)
        } else {
            add_family_spec(inserted, idx, w, v)
        }
    }
}

impl Sppf {
    /// Records the node for an advanced item spanning `start..end`, with
    /// the child pair `(w, v)` as one packed family; returns the label the
    /// item should carry from now on.
    pub fn make_node(
        &mut self,
        lhs: usize,
        rule: usize,
        alt: usize,
        dot: usize,
        start: usize,
        end: usize,
        finished: bool,
        w: SppfLabel,
        v: SppfLabel,
    ) -> (label: SppfLabel)
        requires
            labels_distinct(old(self)@),
        ensures
            final(self)@ == make_node_nodes(
                old(self)@,
                lhs,
                rule,
                alt,
                dot,
                start,
                end,
                finished,
                w,
                v,
            ),
            label == make_node_label(lhs, rule, alt, dot, start, end, finished, v),
            labels_distinct(final(self)@),
            final(self)@.len() >= old(self)@.len(),
            forall|j: int|
                0 <= j < old(self)@.len() ==> (#[trigger] final(self)@[j]).label
                    == old(self)@[j].label,
    {
        if dot <= 1 && !finished {
            return v;
        }
        let label = if finished {
            SppfLabel::Symbol { sym: PSym::Nt(lhs), start, end }
        } else {
            SppfLabel::Item { rule, alt, dot, start, end }
        };
        let idx = self.insert(label);
        proof {
            lemma_label_index_characterization(self@, label);
            let li = label_index(self@, label);
            if li < idx {
                assert(self@[li].label != label);
            }
            if idx < li {
                assert(self@[idx as int].label == label);
            }
            assert(li == idx);
        }
        if w.is_null() {
            self.add_family(idx, v, SppfLabel::Null);
        } else {
            self.add_family(idx, w, v);
        }
        proof {
            assert(labels_distinct(self@)) by {
                assert(forall|j: int|
                    0 <= j < self@.len() ==> (#[trigger] self@[j].label) == insert_spec(
                        old(self)@,
                        label,
                    )[j].label);
            }
        }
        label
    }
}

} // verus!

//! The shape of a net and what it is read by.
use vstd::prelude::*;

use crate::categorize::expr::{
    clone_expr, decide, scoped_text, Expr, ExprV, Predicate, PredicateV, TagRead, TagReadV,
};
use crate::lang::context::CtxV;
use crate::model::Model;
use crate::text::{concat2, join, joined};

verus! {

/// What the engine has noted of an object, as far as a net branches on it.
#[derive(Debug, Clone, Copy, PartialEq, Eq, Structural)]
pub enum ContextKey {
    Side,
    HasParent,
    Prefix,
    Infix,
}

impl ContextKey {
    /// A name that no tag has: it starts with the null character.
    pub open spec fn spec_name(self) -> Seq<char> {
        match self {
            ContextKey::Side => "\0side"@,
            ContextKey::HasParent => "\0has_parent"@,
            ContextKey::Prefix => "\0prefix"@,
            ContextKey::Infix => "\0infix"@,
        }
    }

    /// A name that no tag has: it starts with the null character.
    pub fn name(self) -> (r: &'static str)
        ensures
            r@ == self.spec_name(),
    {
        match self {
            ContextKey::Side => "\0side",
            ContextKey::HasParent => "\0has_parent",
            ContextKey::Prefix => "\0prefix",
            ContextKey::Infix => "\0infix",
        }
    }
}

/// What a branch reads to choose a child.
#[derive(Debug)]
pub enum BranchKey {
    Sentinel(ContextKey),
    Tag(TagRead),
}

/// What a branch reads.
pub enum BranchKeyV {
    Sentinel(ContextKey),
    Tag(TagReadV),
}

/// A branch key, as it is shown.
pub open spec fn shown_branch_key(key: BranchKeyV) -> Seq<char> {
    match key {
        BranchKeyV::Sentinel(s) => s.spec_name(),
        BranchKeyV::Tag(e) => {
            let name = joined(e.names(), "/"@);
            if e.extract.chain().len() > 0 {
                name + " (sanitized)"@
            } else {
                name
            }
        },
    }
}

impl BranchKey {
    pub open spec fn view(&self) -> BranchKeyV {
        match self {
            BranchKey::Sentinel(s) => BranchKeyV::Sentinel(*s),
            BranchKey::Tag(e) => BranchKeyV::Tag(e@),
        }
    }

    /// The key, as it is shown to a reader.
    pub fn label(&self) -> (r: String)
        ensures
            r@ == shown_branch_key(self@),
    {
        match self {
            BranchKey::Sentinel(s) => s.name().to_owned(),
            BranchKey::Tag(e) => {
                let name = join(&e.tag_names(), "/");
                let chain = e.extract.sanitize();
                proof {
                    assert(chain@.len() == e@.extract.chain().len());
                }
                if chain.len() > 0 {
                    concat2(name.as_str(), " (sanitized)")
                } else {
                    name
                }
            },
        }
    }
}

impl Model for BranchKey {
    type M = BranchKeyV;

    open spec fn model(&self) -> BranchKeyV {
        self.view()
    }

    fn copy(&self) -> (r: Self) {
        match self {
            BranchKey::Sentinel(s) => BranchKey::Sentinel(*s),
            BranchKey::Tag(e) => BranchKey::Tag(e.copy()),
        }
    }

    fn same(&self, other: &Self) -> (r: bool) {
        match (self, other) {
            (BranchKey::Sentinel(a), BranchKey::Sentinel(b)) => *a == *b,
            (BranchKey::Tag(a), BranchKey::Tag(b)) => a.same(b),
            _ => false,
        }
    }
}

/// What a branch reads of an object.
pub open spec fn branch_value(key: BranchKeyV, c: CtxV) -> Option<Seq<char>> {
    match key {
        BranchKeyV::Sentinel(ContextKey::Side) => Some(c.side()),
        BranchKeyV::Sentinel(ContextKey::HasParent) => Some(
            if c.parent is Some {
                "true"@
            } else {
                "false"@
            },
        ),
        BranchKeyV::Sentinel(ContextKey::Prefix) => c.annotation("_prefix"@),
        BranchKeyV::Sentinel(ContextKey::Infix) => c.annotation("_infix"@),
        BranchKeyV::Tag(e) => scoped_text(e, c),
    }
}

/// A net: a leaf with the conditions left over, each with its place in the list; a branch with a
/// child for some of the texts that may be read and one for the rest; or a branch on one atom.
#[derive(Debug)]
pub enum DecisionTree {
    Leaf(Vec<(usize, Expr)>),
    Branch { tag: BranchKey, children: Vec<(String, DecisionTree)>, wildcard: Box<DecisionTree> },
    AtomBranch { atom: Predicate, on_true: Box<DecisionTree>, on_false: Box<DecisionTree> },
}

/// What a net is.
pub enum TreeV {
    Leaf(Seq<(usize, ExprV)>),
    Branch(BranchKeyV, Seq<(Seq<char>, TreeV)>, Box<TreeV>),
    AtomBranch(PredicateV, Box<TreeV>, Box<TreeV>),
}

/// The conditions of a leaf.
pub open spec fn leaf_view(v: Seq<(usize, Expr)>) -> Seq<(usize, ExprV)> {
    v.map_values(|p: (usize, Expr)| (p.0, p.1@))
}

impl DecisionTree {
    pub open spec fn view(&self) -> TreeV
        decreases self,
    {
        match self {
            DecisionTree::Leaf(v) => TreeV::Leaf(leaf_view(v@)),
            DecisionTree::Branch { tag, children, wildcard } => TreeV::Branch(
                tag@,
                trees(children@),
                Box::new((**wildcard).view()),
            ),
            DecisionTree::AtomBranch { atom, on_true, on_false } => TreeV::AtomBranch(
                atom@,
                Box::new((**on_true).view()),
                Box::new((**on_false).view()),
            ),
        }
    }
}

pub open spec fn trees(v: Seq<(String, DecisionTree)>) -> Seq<(Seq<char>, TreeV)>
    decreases v,
{
    Seq::new(
        v.len(),
        |i: int|
            if 0 <= i < v.len() {
                (v[i].0@, v[i].1.view())
            } else {
                arbitrary()
            },
    )
}

pub broadcast proof fn trees_len(v: Seq<(String, DecisionTree)>)
    ensures
        #[trigger] trees(v).len() == v.len(),
{
}

pub broadcast proof fn trees_index(v: Seq<(String, DecisionTree)>, i: int)
    requires
        0 <= i < v.len(),
    ensures
        #[trigger] trees(v)[i] == (v[i].0@, v[i].1.view()),
{
}

pub broadcast group group_trees {
    trees_len,
    trees_index,
}

impl Default for DecisionTree {
    fn default() -> (r: Self)
        ensures
            r@ == TreeV::Leaf(Seq::empty()),
    {
        let r = DecisionTree::Leaf(Vec::new());
        proof {
            assert(r@->Leaf_0 =~= Seq::<(usize, ExprV)>::empty());
        }
        r
    }
}

/// A copy of the conditions of a leaf.
pub fn clone_leaf(v: &Vec<(usize, Expr)>) -> (r: Vec<(usize, Expr)>)
    ensures
        leaf_view(r@) == leaf_view(v@),
{
    let mut out: Vec<(usize, Expr)> = Vec::new();
    for i in 0..v.len()
        invariant
            out@.len() == i,
            forall|j: int|
                0 <= j < i ==> (#[trigger] out@[j]).0 == v@[j].0 && out@[j].1@ == v@[j].1@,
    {
        let e = clone_expr(&v[i].1);
        out.push((v[i].0, e));
    }
    proof {
        assert(leaf_view(out@) =~= leaf_view(v@));
    }
    out
}

// ── Shape statistics ────────────────────────────────────────────────────────────────────────

/// How large a net is.
#[derive(Debug, Clone, Copy, PartialEq, Eq, Structural)]
pub struct TreeStats {
    pub leaf_count: usize,
    pub branch_count: usize,
    /// The sizes of all leaves together.
    pub total_leaf_candidates: usize,
    pub max_depth: usize,
    /// The depths of all leaves together.
    pub total_leaf_depth: usize,
}

/// How large a net is, in unbounded numbers.
pub struct StatsV {
    pub leaf_count: int,
    pub branch_count: int,
    pub total_leaf_candidates: int,
    pub max_depth: int,
    pub total_leaf_depth: int,
}

impl StatsV {
    /// The figures of two nets side by side.
    pub open spec fn plus(self, o: StatsV) -> StatsV {
        StatsV {
            leaf_count: self.leaf_count + o.leaf_count,
            branch_count: self.branch_count + o.branch_count,
            total_leaf_candidates: self.total_leaf_candidates + o.total_leaf_candidates,
            max_depth: if self.max_depth >= o.max_depth {
                self.max_depth
            } else {
                o.max_depth
            },
            total_leaf_depth: self.total_leaf_depth + o.total_leaf_depth,
        }
    }
}

/// One branch at `depth`, without what is below it.
pub open spec fn branch_stats(depth: int) -> StatsV {
    StatsV {
        leaf_count: 0,
        branch_count: 1,
        total_leaf_candidates: 0,
        max_depth: depth,
        total_leaf_depth: 0,
    }
}

/// How large the net at `depth` is.
pub open spec fn tree_stats(t: TreeV, depth: int) -> StatsV
    decreases t, 0int,
{
    match t {
        TreeV::Leaf(v) => StatsV {
            leaf_count: 1,
            branch_count: 0,
            total_leaf_candidates: v.len() as int,
            max_depth: depth,
            total_leaf_depth: depth,
        },
        TreeV::Branch(_, children, wildcard) => branch_stats(depth).plus(
            children_stats(children, children.len() as int, depth + 1),
        ).plus(tree_stats(*wildcard, depth + 1)),
        TreeV::AtomBranch(_, a, b) => branch_stats(depth).plus(tree_stats(*a, depth + 1)).plus(
            tree_stats(*b, depth + 1),
        ),
    }
}

/// How large the first `n` children at `depth` are together.
pub open spec fn children_stats(v: Seq<(Seq<char>, TreeV)>, n: int, depth: int) -> StatsV
    decreases v, n,
{
    if n <= 0 || n > v.len() {
        StatsV {
            leaf_count: 0,
            branch_count: 0,
            total_leaf_candidates: 0,
            max_depth: 0,
            total_leaf_depth: 0,
        }
    } else {
        children_stats(v, n - 1, depth).plus(tree_stats(v[n - 1].1, depth))
    }
}

impl TreeStats {
    pub open spec fn view(&self) -> StatsV {
        StatsV {
            leaf_count: self.leaf_count as int,
            branch_count: self.branch_count as int,
            total_leaf_candidates: self.total_leaf_candidates as int,
            max_depth: self.max_depth as int,
            total_leaf_depth: self.total_leaf_depth as int,
        }
    }

    /// No net.
    pub fn empty() -> (r: TreeStats)
        ensures
            r@ == (StatsV {
                leaf_count: 0,
                branch_count: 0,
                total_leaf_candidates: 0,
                max_depth: 0,
                total_leaf_depth: 0,
            }),
    {
        TreeStats {
            leaf_count: 0,
            branch_count: 0,
            total_leaf_candidates: 0,
            max_depth: 0,
            total_leaf_depth: 0,
        }
    }
}

/// Whether every figure can be counted.
pub open spec fn countable(s: StatsV) -> bool {
    &&& s.leaf_count <= usize::MAX
    &&& s.branch_count <= usize::MAX
    &&& s.total_leaf_candidates <= usize::MAX
    &&& s.max_depth < usize::MAX
    &&& s.total_leaf_depth <= usize::MAX
}

/// Whether no figure of `a` is larger than that of `b`.
pub open spec fn no_larger(a: StatsV, b: StatsV) -> bool {
    &&& a.leaf_count <= b.leaf_count
    &&& a.branch_count <= b.branch_count
    &&& a.total_leaf_candidates <= b.total_leaf_candidates
    &&& a.max_depth <= b.max_depth
    &&& a.total_leaf_depth <= b.total_leaf_depth
}

proof fn lemma_stats_grow(t: TreeV, depth: int)
    requires
        0 <= depth,
    ensures
        no_larger(
            StatsV {
                leaf_count: 0,
                branch_count: 0,
                total_leaf_candidates: 0,
                max_depth: depth,
                total_leaf_depth: 0,
            },
            tree_stats(t, depth),
        ),
    decreases t, 0int,
{
    match t {
        TreeV::Leaf(_) => {},
        TreeV::Branch(_, children, wildcard) => {
            lemma_children_grow(children, 0, children.len() as int, depth + 1);
            lemma_stats_grow(*wildcard, depth + 1);
        },
        TreeV::AtomBranch(_, a, b) => {
            lemma_stats_grow(*a, depth + 1);
            lemma_stats_grow(*b, depth + 1);
        },
    }
}

proof fn lemma_children_grow(v: Seq<(Seq<char>, TreeV)>, m: int, n: int, depth: int)
    requires
        0 <= m <= n <= v.len(),
        0 <= depth,
    ensures
        no_larger(children_stats(v, m, depth), children_stats(v, n, depth)),
    decreases v, n,
{
    if m < n {
        lemma_children_grow(v, m, n - 1, depth);
        lemma_stats_grow(v[n - 1].1, depth);
    }
}

impl DecisionTree {
    /// How large the net is.
    pub fn stats(&self) -> (r: TreeStats)
        requires
            countable(tree_stats(self@, 0)),
        ensures
            r@ == tree_stats(self@, 0),
    {
        let mut s = TreeStats::empty();
        proof {
            lemma_stats_grow(self@, 0);
        }
        self.stats_rec(0, &mut s);
        s
    }

    fn stats_rec(&self, depth: usize, s: &mut TreeStats)
        requires
            countable(old(s)@.plus(tree_stats(self@, depth as int))),
        ensures
            final(s)@ == old(s)@.plus(tree_stats(self@, depth as int)),
        decreases self,
    {
        broadcast use group_trees;

        let ghost before = s@;
        if depth > s.max_depth {
            s.max_depth = depth;
        }
        match self {
            DecisionTree::Leaf(v) => {
                s.leaf_count = s.leaf_count + 1;
                s.total_leaf_candidates = s.total_leaf_candidates + v.len();
                s.total_leaf_depth = s.total_leaf_depth + depth;
            },
            DecisionTree::Branch { children, wildcard, .. } => {
                let ghost kids = trees(children@);
                proof {
                    lemma_children_grow(kids, 0, kids.len() as int, depth + 1);
                    lemma_stats_grow(wildcard@, depth + 1);
                }
                s.branch_count = s.branch_count + 1;
                let ghost here = s@;
                for i in 0..children.len()
                    invariant
                        *self is Branch,
                        self->children == *children,
                        kids == trees(children@),
                        depth < usize::MAX,
                        countable(here.plus(children_stats(kids, kids.len() as int, depth + 1))),
                        s@ == here.plus(children_stats(kids, i as int, depth + 1)),
                        here.max_depth >= 0,
                {
                    proof {
                        assert(decreases_to!(children@ => children@[i as int]));
                        assert(decreases_to!(children@[i as int] => children@[i as int].1));
                        lemma_children_grow(kids, i + 1, kids.len() as int, depth + 1);
                    }
                    children[i].1.stats_rec(depth + 1, s);
                }
                wildcard.stats_rec(depth + 1, s);
            },
            DecisionTree::AtomBranch { on_true, on_false, .. } => {
                proof {
                    lemma_stats_grow(on_true@, depth + 1);
                    lemma_stats_grow(on_false@, depth + 1);
                }
                s.branch_count = s.branch_count + 1;
                on_true.stats_rec(depth + 1, s);
                on_false.stats_rec(depth + 1, s);
            },
        }
    }
}

// ── The walk ────────────────────────────────────────────────────────────────────────────────

/// The position of the first child for the text `v`, or the number of children.
pub open spec fn child_position(children: Seq<(Seq<char>, TreeV)>, v: Seq<char>) -> int {
    crate::assoc::first_position(children, v)
}

/// The conditions of the leaf that a walk for the object comes to.
pub open spec fn leaf_for(t: TreeV, c: CtxV) -> Seq<(usize, ExprV)>
    decreases t,
{
    match t {
        TreeV::Leaf(v) => v,
        TreeV::Branch(key, children, wildcard) => match branch_value(key, c) {
            Some(v) => {
                let i = child_position(children, v);
                if 0 <= i < children.len() {
                    leaf_for(children[i].1, c)
                } else {
                    leaf_for(*wildcard, c)
                }
            },
            None => leaf_for(*wildcard, c),
        },
        TreeV::AtomBranch(atom, a, b) => if decide(atom, c) {
            leaf_for(*a, c)
        } else {
            leaf_for(*b, c)
        },
    }
}

} // verus!

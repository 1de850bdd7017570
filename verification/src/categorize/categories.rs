//! Categories: named conditions, the priority order that their `excludes` relation sets, and the
//! category that an object falls into.
use vstd::prelude::*;

use crate::assoc::{lemma_lookup, lookup, position_of};
use crate::categorize::expr::{all_expressible, expressible};
use crate::categorize::order::{
    is_complete, is_node, is_priority_order, is_rest, is_stuck, order_has_no_repeats,
    order_respects_excludes, priority_order,
};
use crate::decision_tree::compile::{build, conditions, initial, is_net};
use crate::decision_tree::kleene::side_known;
use crate::decision_tree::laws::{holding, net_agrees_with_walk, reads_alike};
use crate::decision_tree::places::{fits, matches_are_listed, net_names_listed_places};
use crate::decision_tree::runtime::{first_place, net_matches, resolve_first};
use crate::decision_tree::tree::DecisionTree;
use crate::lang::context::{CtxV, ExtractCtx, ValueSets};
use crate::lang::filter::{clone_filter, eval, filters, group_filters, holds, Filter, FilterV};
use crate::model::{models, Model};
use crate::number::{Readings, ReadingsV};
use crate::text::str_eq;

verus! {

/// A category: objects for which the condition holds and nothing that it excludes does.
#[derive(Debug)]
pub struct CategoryDef {
    pub id: String,
    pub condition: Filter,
    pub excludes: Option<Vec<String>>,
}

/// A category.
pub struct CategoryV {
    pub id: Seq<char>,
    pub condition: FilterV,
    pub excludes: Option<Seq<Seq<char>>>,
}

impl CategoryDef {
    pub open spec fn view(&self) -> CategoryV {
        CategoryV {
            id: self.id@,
            condition: self.condition@,
            excludes: self.excludes.model(),
        }
    }
}

/// The categories of a list.
pub open spec fn defs_view(v: Seq<CategoryDef>) -> Seq<CategoryV> {
    v.map_values(|c: CategoryDef| c@)
}

/// A place in the priority order: a category, or a condition under which an object has none.
#[derive(Debug)]
pub enum OrderedNode {
    Category { idx: usize },
    Skip { condition: Filter },
}

/// The categories of a topic for one kind of element, with the priority order and the net that are
/// compiled from them.
#[derive(Debug)]
pub struct CategoriesFile {
    pub macros: Vec<(String, Filter)>,
    pub categories: Vec<CategoryDef>,
    pub order: Vec<OrderedNode>,
    pub tree: DecisionTree,
}

/// Why there is no priority order.
#[derive(Debug)]
pub enum OrderError {
    /// These names stand in a circle, or behind one.
    Cyclic(Vec<String>),
    /// This name is excluded, and is neither a category nor a macro.
    Unknown(String),
}

/// The named conditions.
pub open spec fn macros_view(v: Seq<(String, Filter)>) -> Seq<(Seq<char>, FilterV)> {
    v.map_values(|p: (String, Filter)| (p.0@, p.1@))
}

/// The names of the categories.
pub open spec fn ids(cats: Seq<CategoryV>) -> Seq<Seq<char>> {
    cats.map_values(|c: CategoryV| c.id)
}

/// What each category excludes.
pub open spec fn exclusions(cats: Seq<CategoryV>) -> Seq<Seq<Seq<char>>> {
    cats.map_values(
        |c: CategoryV|
            match c.excludes {
                Some(v) => v,
                None => Seq::empty(),
            },
    )
}

/// Whether category `a` lists `b` as excluded.
pub open spec fn excludes(a: CategoryV, b: Seq<char>) -> bool {
    a.excludes is Some && a.excludes->0.contains(b)
}

/// The place of the last category with the name, or -1.
pub open spec fn last_named(cats: Seq<CategoryV>, id: Seq<char>) -> int
    decreases cats.len(),
{
    if cats.len() == 0 {
        -1
    } else if cats.last().id == id {
        cats.len() - 1
    } else {
        last_named(cats.drop_last(), id)
    }
}

/// Whether a name is one of a category or of a macro.
pub open spec fn is_known(
    cats: Seq<CategoryV>,
    macros: Seq<(Seq<char>, FilterV)>,
    name: Seq<char>,
) -> bool {
    last_named(cats, name) >= 0 || lookup(macros, name) is Some
}

/// Whether a place in the order stands for the name.
pub open spec fn stands_for(
    node: OrderedNode,
    cats: Seq<CategoryV>,
    macros: Seq<(Seq<char>, FilterV)>,
    name: Seq<char>,
) -> bool {
    match node {
        OrderedNode::Category { idx } => last_named(cats, name) == idx,
        OrderedNode::Skip { condition } => last_named(cats, name) < 0 && lookup(macros, name)
            == Some(condition@),
    }
}

/// Whether the order lists the names.
pub open spec fn spells(
    order: Seq<OrderedNode>,
    cats: Seq<CategoryV>,
    macros: Seq<(Seq<char>, FilterV)>,
    names: Seq<Seq<char>>,
) -> bool {
    order.len() == names.len() && forall|k: int|
        0 <= k < order.len() ==> stands_for(#[trigger] order[k], cats, macros, names[k])
}

/// Whether the names stand in the priority order of the categories, and none is missing.
pub open spec fn is_full_order(cats: Seq<CategoryV>, names: Seq<Seq<char>>) -> bool {
    is_priority_order(ids(cats), exclusions(cats), names) && is_complete(
        ids(cats),
        exclusions(cats),
        names,
    )
}

/// Whether the order is compiled from the categories.
pub open spec fn is_compiled_order(
    order: Seq<OrderedNode>,
    cats: Seq<CategoryV>,
    macros: Seq<(Seq<char>, FilterV)>,
) -> bool {
    exists|names: Seq<Seq<char>>| #[trigger]
        is_full_order(cats, names) && spells(order, cats, macros, names)
}

/// The condition at a place of the order.
pub open spec fn condition_at(node: OrderedNode, cats: Seq<CategoryV>) -> FilterV {
    match node {
        OrderedNode::Category { idx } => cats[idx as int].condition,
        OrderedNode::Skip { condition } => condition@,
    }
}

/// The conditions in their order.
pub open spec fn order_conditions(order: Seq<OrderedNode>, cats: Seq<CategoryV>) -> Seq<FilterV> {
    order.map_values(|n: OrderedNode| condition_at(n, cats))
}

/// Whether every place of the order is one of a category that there is.
pub open spec fn order_fits(order: Seq<OrderedNode>, n: int) -> bool {
    forall|k: int|
        0 <= k < order.len() && (#[trigger] order[k]) is Category ==> order[k]->idx < n
}

/// Whether every condition can be put as an expression.
pub open spec fn conditions_expressible(cats: Seq<CategoryV>) -> bool {
    forall|i: int| 0 <= i < cats.len() ==> expressible((#[trigger] cats[i]).condition)
}

/// Whether every macro that a category excludes can be put as an expression.
pub open spec fn sinks_expressible(
    cats: Seq<CategoryV>,
    macros: Seq<(Seq<char>, FilterV)>,
) -> bool {
    forall|name: Seq<char>|
        is_node(ids(cats), exclusions(cats), name) && (#[trigger] lookup(macros, name)) is Some
            ==> expressible(lookup(macros, name)->0)
}

proof fn lemma_last_named(cats: Seq<CategoryV>, id: Seq<char>)
    ensures
        -1 <= last_named(cats, id) < cats.len(),
        last_named(cats, id) >= 0 ==> cats[last_named(cats, id)].id == id,
        last_named(cats, id) < 0 ==> forall|i: int|
            0 <= i < cats.len() ==> (#[trigger] cats[i]).id != id,
        forall|i: int|
            last_named(cats, id) < i < cats.len() ==> (#[trigger] cats[i]).id != id,
    decreases cats.len(),
{
    if cats.len() > 0 && cats.last().id != id {
        let rest = cats.drop_last();
        lemma_last_named(rest, id);
        assert forall|i: int| last_named(cats, id) < i < cats.len() implies (#[trigger] cats[i]).id
            != id by {
            if i < rest.len() {
                assert(rest[i] == cats[i]);
            }
        }
    }
}

/// The place of the last category with the name.
pub fn place_of(cats: &Vec<CategoryDef>, name: &str) -> (r: Option<usize>)
    ensures
        match r {
            Some(i) => i < cats@.len() && last_named(defs_view(cats@), name@) == i,
            None => last_named(defs_view(cats@), name@) < 0,
        },
{
    let ghost all = defs_view(cats@);
    let mut n: usize = cats.len();
    proof {
        assert(all.take(all.len() as int) =~= all);
    }
    while n > 0
        invariant
            0 <= n <= cats@.len(),
            all == defs_view(cats@),
            last_named(all, name@) == last_named(all.take(n as int), name@),
        decreases n,
    {
        proof {
            assert(all.take(n as int).drop_last() =~= all.take(n - 1));
            assert(all.take(n as int).last() == all[n - 1]);
        }
        if str_eq(cats[n - 1].id.as_str(), name) {
            return Some(n - 1);
        }
        n = n - 1;
    }
    None
}

/// The condition of the macro with the name.
pub fn find_macro<'a>(macros: &'a Vec<(String, Filter)>, name: &str) -> (r: Option<&'a Filter>)
    ensures
        match r {
            Some(x) => lookup(macros_view(macros@), name@) == Some(x@),
            None => lookup(macros_view(macros@), name@) is None,
        },
{
    let ghost all = macros_view(macros@);
    match position_of(macros, name) {
        Some(i) => {
            proof {
                assert forall|j: int| 0 <= j < i implies (#[trigger] all[j]).0 != name@ by {
                    assert(macros@[j].0@ != name@);
                }
                lemma_lookup(all, name@, i as int);
            }
            Some(&macros[i].1)
        },
        None => {
            proof {
                assert forall|j: int| 0 <= j < all.len() implies (#[trigger] all[j]).0 != name@ by {
                    assert(macros@[j].0@ != name@);
                }
                lemma_lookup(all, name@, all.len() as int);
            }
            None
        },
    }
}

fn list_ids(cats: &Vec<CategoryDef>) -> (r: Vec<String>)
    ensures
        models(r@) == ids(defs_view(cats@)),
{
    let mut out: Vec<String> = Vec::new();
    for i in 0..cats.len()
        invariant
            out@.len() == i,
            forall|j: int| 0 <= j < i ==> (#[trigger] out@[j])@ == cats@[j].id@,
    {
        out.push(cats[i].id.clone());
    }
    proof {
        assert(models(out@) =~= ids(defs_view(cats@)));
    }
    out
}

fn list_exclusions(cats: &Vec<CategoryDef>) -> (r: Vec<Vec<String>>)
    ensures
        models(r@) == exclusions(defs_view(cats@)),
{
    let ghost all = exclusions(defs_view(cats@));
    let mut out: Vec<Vec<String>> = Vec::new();
    for i in 0..cats.len()
        invariant
            all == exclusions(defs_view(cats@)),
            out@.len() == i,
            forall|j: int| 0 <= j < i ==> models((#[trigger] out@[j])@) == all[j],
    {
        let list: Vec<String> = match &cats[i].excludes {
            Some(v) => v.copy(),
            None => {
                let none: Vec<String> = Vec::new();
                proof {
                    assert(models(none@) =~= Seq::<Seq<char>>::empty());
                }
                none
            },
        };
        proof {
            assert(models(list@) == all[i as int]);
        }
        out.push(list);
    }
    proof {
        assert(models(out@) =~= all);
    }
    out
}

/// The condition at a place of the order.
pub fn node_condition<'a>(cats: &'a Vec<CategoryDef>, node: &'a OrderedNode) -> (r: &'a Filter)
    requires
        node is Category ==> node->idx < cats@.len(),
    ensures
        r@ == condition_at(*node, defs_view(cats@)),
{
    match node {
        OrderedNode::Category { idx } => &cats[*idx].condition,
        OrderedNode::Skip { condition } => condition,
    }
}

impl CategoriesFile {
    /// The categories.
    pub open spec fn defs(&self) -> Seq<CategoryV> {
        defs_view(self.categories@)
    }

    /// The macros.
    pub open spec fn named(&self) -> Seq<(Seq<char>, FilterV)> {
        macros_view(self.macros@)
    }

    /// The conditions in priority order.
    pub open spec fn walk(&self) -> Seq<FilterV> {
        order_conditions(self.order@, self.defs())
    }

    /// Whether the order and the net name only what there is.
    pub open spec fn is_sound(&self) -> bool {
        order_fits(self.order@, self.categories@.len() as int) && fits(
            self.tree@,
            self.order@.len() as int,
        )
    }

    /// Whether the net is one over the conditions in priority order.
    pub open spec fn has_net(
        &self,
        max_depth: int,
        sets: Seq<(Seq<char>, Seq<Seq<char>>)>,
        r: ReadingsV,
    ) -> bool {
        is_net(
            self.tree@,
            initial(conditions(self.walk(), sets), true),
            Seq::empty(),
            Seq::empty(),
            max_depth,
            r,
        )
    }

    /// Compiles the `excludes` relation into a priority order, in which what a category excludes
    /// comes before it, and a net over the conditions in that order. An error leaves the order as
    /// it was.
    pub fn build_order(&mut self, max_depth: usize, sets: &ValueSets, readings: &Readings) -> (r:
        Result<(), OrderError>)
        requires
            conditions_expressible(old(self).defs()),
            sinks_expressible(old(self).defs(), old(self).named()),
        ensures
            final(self).macros@ == old(self).macros@,
            final(self).categories@ == old(self).categories@,
            match r {
                Ok(_) => {
                    &&& is_compiled_order(
                        final(self).order@,
                        old(self).defs(),
                        old(self).named(),
                    )
                    &&& final(self).is_sound()
                    &&& final(self).has_net(max_depth as int, sets@, readings@)
                },
                Err(e) => {
                    &&& final(self).order@ == old(self).order@
                    &&& final(self).tree@ == old(self).tree@
                    &&& match e {
                        OrderError::Cyclic(names) => is_stuck(
                            ids(old(self).defs()),
                            exclusions(old(self).defs()),
                            models(names@),
                        ) && exists|order: Seq<Seq<char>>| #[trigger]
                            is_priority_order(
                                ids(old(self).defs()),
                                exclusions(old(self).defs()),
                                order,
                            ) && is_rest(
                                ids(old(self).defs()),
                                exclusions(old(self).defs()),
                                order,
                                models(names@),
                            ),
                        OrderError::Unknown(name) => first_unknown(
                            old(self).defs(),
                            old(self).named(),
                            name@,
                        ),
                    }
                },
            },
    {
        broadcast use group_filters;

        let ghost cats = self.defs();
        let ghost mv = self.named();
        let id_list = list_ids(&self.categories);
        let exclusion_list = list_exclusions(&self.categories);
        proof {
            assert(models(id_list@).len() == id_list@.len());
            assert(models(exclusion_list@).len() == exclusion_list@.len());
        }
        let names = match priority_order(&id_list, &exclusion_list) {
            Ok(names) => names,
            Err(left) => {
                return Err(OrderError::Cyclic(left));
            },
        };
        let ghost nv = models(names@);
        proof {
            assert(is_full_order(cats, nv));
        }
        let mut order: Vec<OrderedNode> = Vec::new();
        let mut conds: Vec<Filter> = Vec::new();
        for k in 0..names.len()
            invariant
                cats == self.defs(),
                mv == self.named(),
                cats == old(self).defs(),
                mv == old(self).named(),
                self.order@ == old(self).order@,
                self.tree@ == old(self).tree@,
                self.macros@ == old(self).macros@,
                self.categories@ == old(self).categories@,
                nv == models(names@),
                is_full_order(cats, nv),
                conditions_expressible(cats),
                sinks_expressible(cats, mv),
                order@.len() == k,
                conds@.len() == k,
                forall|j: int|
                    0 <= j < k ==> stands_for(#[trigger] order@[j], cats, mv, nv[j]) && conds@[j]@
                        == condition_at(order@[j], cats) && expressible(conds@[j]@),
                order_fits(order@, cats.len() as int),
                forall|j: int| 0 <= j < k ==> is_known(cats, mv, #[trigger] nv[j]),
        {
            proof {
                assert(names@[k as int]@ == nv[k as int]);
                lemma_last_named(cats, nv[k as int]);
            }
            match place_of(&self.categories, names[k].as_str()) {
                Some(idx) => {
                    proof {
                        assert(expressible(cats[idx as int].condition));
                    }
                    conds.push(clone_filter(&self.categories[idx].condition));
                    order.push(OrderedNode::Category { idx });
                },
                None => {
                    match find_macro(&self.macros, names[k].as_str()) {
                        Some(f) => {
                            proof {
                                assert(order_names_are_nodes(cats, nv, k as int)) by {
                                    lemma_order_names_are_nodes(cats, nv, k as int);
                                }
                                assert(expressible(lookup(mv, nv[k as int])->0));
                            }
                            conds.push(clone_filter(f));
                            order.push(OrderedNode::Skip { condition: clone_filter(f) });
                        },
                        None => {
                            proof {
                                assert(!is_known(cats, mv, nv[k as int]));
                            }
                            return Err(OrderError::Unknown(names[k].clone()));
                        },
                    }
                },
            }
            proof {
                assert(is_known(cats, mv, nv[k as int]));
            }
        }
        proof {
            assert(filters(conds@) =~= order_conditions(order@, cats));
            assert(all_expressible(filters(conds@)));
            assert(spells(order@, cats, mv, nv));
        }
        let tree = build(&conds, max_depth, true, sets, readings);
        proof {
            net_names_listed_places(
                tree@,
                conditions(order_conditions(order@, cats), sets@),
                true,
                max_depth as int,
                readings@,
            );
        }
        self.order = order;
        self.tree = tree;
        Ok(())
    }
}

/// Whether the name at a place of the order is a node.
spec fn order_names_are_nodes(cats: Seq<CategoryV>, names: Seq<Seq<char>>, k: int) -> bool {
    is_node(ids(cats), exclusions(cats), names[k])
}

proof fn lemma_order_names_are_nodes(cats: Seq<CategoryV>, names: Seq<Seq<char>>, k: int)
    requires
        is_full_order(cats, names),
        0 <= k < names.len(),
    ensures
        order_names_are_nodes(cats, names, k),
{
    assert(crate::categorize::order::first_ready(
        ids(cats),
        exclusions(cats),
        names.take(k),
        names[k],
    ));
}

/// Whether `name` is the first in the priority order that is neither a category nor a macro.
pub open spec fn first_unknown(
    cats: Seq<CategoryV>,
    macros: Seq<(Seq<char>, FilterV)>,
    name: Seq<char>,
) -> bool {
    exists|names: Seq<Seq<char>>, k: int|
        0 <= k < names.len() && #[trigger] is_full_order(cats, names) && #[trigger] names[k] == name
            && !is_known(cats, macros, name) && forall|j: int|
            0 <= j < k ==> is_known(cats, macros, #[trigger] names[j])
}

// ── The category of an object ───────────────────────────────────────────────────────────────

/// The category at a place of the order; none where the place stands for having none.
pub open spec fn category_at(order: Seq<OrderedNode>, k: Option<usize>) -> Option<int> {
    match k {
        Some(i) => match order[i as int] {
            OrderedNode::Category { idx } => Some(idx as int),
            OrderedNode::Skip { .. } => None,
        },
        None => None,
    }
}

/// The category of the first condition in the order that holds.
pub open spec fn first_category(
    order: Seq<OrderedNode>,
    cats: Seq<CategoryV>,
    c: CtxV,
) -> Option<int> {
    category_at(order, first_place(holding(order_conditions(order, cats), order.len() as int, c)))
}

/// Which of the categories a result is.
pub open spec fn is_chosen(r: Option<&CategoryDef>, cats: Seq<CategoryDef>, i: Option<int>) -> bool {
    match r {
        Some(def) => i is Some && *def == cats[i->0],
        None => i is None,
    }
}

fn category<'a>(cats: &'a CategoriesFile, place: Option<usize>) -> (r: Option<&'a CategoryDef>)
    requires
        order_fits(cats.order@, cats.categories@.len() as int),
        place is Some ==> place->0 < cats.order@.len(),
    ensures
        is_chosen(r, cats.categories@, category_at(cats.order@, place)),
{
    match place {
        Some(k) => match &cats.order[k] {
            OrderedNode::Category { idx } => Some(&cats.categories[*idx]),
            OrderedNode::Skip { .. } => None,
        },
        None => None,
    }
}

/// The category of an object, by way of the net: that of the first condition in the order that
/// holds.
pub fn categorize<'a>(ctx: &ExtractCtx, cats: &'a CategoriesFile) -> (r: Option<&'a CategoryDef>)
    requires
        cats.is_sound(),
    ensures
        is_chosen(
            r,
            cats.categories@,
            category_at(cats.order@, first_place(net_matches(cats.tree@, ctx@))),
        ),
{
    proof {
        matches_are_listed(cats.tree@, ctx@, cats.order@.len() as int);
    }
    category(cats, resolve_first(&cats.tree, ctx))
}

proof fn lemma_first_holding(fs: Seq<FilterV>, k: int, n: int, c: CtxV)
    requires
        0 <= k < n <= fs.len() <= usize::MAX,
        holds(fs[k], c),
        forall|j: int| 0 <= j < k ==> !holds(#[trigger] fs[j], c),
    ensures
        first_place(holding(fs, n, c)) == Some(k as usize),
    decreases n,
{
    if n == k + 1 {
        lemma_none_holding(fs, k, c);
    } else {
        lemma_first_holding(fs, k, n - 1, c);
    }
}

proof fn lemma_none_holding(fs: Seq<FilterV>, n: int, c: CtxV)
    requires
        0 <= n <= fs.len(),
        forall|j: int| 0 <= j < n ==> !holds(#[trigger] fs[j], c),
    ensures
        holding(fs, n, c).len() == 0,
    decreases n,
{
    if n > 0 {
        lemma_none_holding(fs, n - 1, c);
    }
}

/// The category of an object, by walking through the order: that of the first condition that holds.
pub fn categorize_linear<'a>(ctx: &ExtractCtx, cats: &'a CategoriesFile) -> (r: Option<
    &'a CategoryDef,
>)
    requires
        order_fits(cats.order@, cats.categories@.len() as int),
    ensures
        is_chosen(r, cats.categories@, first_category(cats.order@, cats.defs(), ctx@)),
{
    let ghost fs = order_conditions(cats.order@, cats.defs());
    for k in 0..cats.order.len()
        invariant
            fs == order_conditions(cats.order@, cats.defs()),
            order_fits(cats.order@, cats.categories@.len() as int),
            forall|j: int| 0 <= j < k ==> !holds(#[trigger] fs[j], ctx@),
    {
        if eval(node_condition(&cats.categories, &cats.order[k]), ctx) {
            proof {
                lemma_first_holding(fs, k as int, fs.len() as int, ctx@);
            }
            return category(cats, Some(k));
        }
    }
    proof {
        lemma_none_holding(fs, fs.len() as int, ctx@);
    }
    None
}

// ── What holds of the result ────────────────────────────────────────────────────────────────

/// The net gives the category that walking through the order gives.
pub proof fn net_and_walk_agree(cats: CategoriesFile, max_depth: int, r: ReadingsV, c: CtxV)
    requires
        cats.order@.len() <= usize::MAX,
        cats.has_net(max_depth, c.value_sets, r),
        side_known(c),
        reads_alike(initial(conditions(cats.walk(), c.value_sets), true), c, r),
        forall|i: int| 0 <= i < cats.walk().len() ==> expressible(#[trigger] cats.walk()[i]),
    ensures
        category_at(cats.order@, first_place(net_matches(cats.tree@, c))) == first_category(
            cats.order@,
            cats.defs(),
            c,
        ),
{
    net_agrees_with_walk(cats.tree@, cats.walk(), max_depth, r, c);
}

proof fn lemma_first_place_holds(fs: Seq<FilterV>, n: int, c: CtxV)
    requires
        0 <= n <= fs.len() <= usize::MAX,
        holding(fs, n, c).len() > 0,
    ensures
        holding(fs, n, c)[0] < n,
        holds(fs[holding(fs, n, c)[0] as int], c),
        forall|j: int| 0 <= j < holding(fs, n, c)[0] ==> !holds(#[trigger] fs[j], c),
    decreases n,
{
    if holding(fs, n - 1, c).len() > 0 {
        lemma_first_place_holds(fs, n - 1, c);
    } else {
        assert forall|j: int| 0 <= j < n - 1 implies !holds(#[trigger] fs[j], c) by {
            lemma_nothing_holds(fs, n - 1, c, j);
        }
    }
}

proof fn lemma_nothing_holds(fs: Seq<FilterV>, n: int, c: CtxV, j: int)
    requires
        0 <= j < n <= fs.len(),
        holding(fs, n, c).len() == 0,
    ensures
        !holds(fs[j], c),
    decreases n,
{
    if j < n - 1 {
        lemma_nothing_holds(fs, n - 1, c, j);
    }
}

/// The category that an object falls into holds of it, and nothing that the category excludes
/// does: neither another category of that name nor a macro.
pub proof fn excluded_names_do_not_hold(
    order: Seq<OrderedNode>,
    cats: Seq<CategoryV>,
    macros: Seq<(Seq<char>, FilterV)>,
    c: CtxV,
    y: Seq<char>,
)
    requires
        order.len() <= usize::MAX,
        is_compiled_order(order, cats, macros),
        first_category(order, cats, c) is Some,
        excludes(cats[first_category(order, cats, c)->0], y),
    ensures
        holds(cats[first_category(order, cats, c)->0].condition, c),
        last_named(cats, y) >= 0 ==> !holds(cats[last_named(cats, y)].condition, c),
        last_named(cats, y) < 0 ==> lookup(macros, y) is Some && !holds(lookup(macros, y)->0, c),
{
    let names = choose|names: Seq<Seq<char>>| #[trigger]
        is_full_order(cats, names) && spells(order, cats, macros, names);
    let fs = order_conditions(order, cats);
    let n = order.len() as int;
    lemma_first_place_holds(fs, n, c);
    let k = holding(fs, n, c)[0] as int;
    let i = first_category(order, cats, c)->0;
    assert(stands_for(order[k], cats, macros, names[k]));
    lemma_last_named(cats, names[k]);
    assert(fs[k] == cats[i].condition);
    assert(crate::categorize::order::beats(ids(cats), exclusions(cats), y, names[k])) by {
        assert(ids(cats)[i] == names[k]);
        assert(exclusions(cats)[i] == cats[i].excludes->0);
    }
    order_respects_excludes(ids(cats), exclusions(cats), names, y, k);
    let j = choose|j: int| 0 <= j < k && #[trigger] names[j] == y;
    assert(stands_for(order[j], cats, macros, names[j]));
    lemma_last_named(cats, y);
    assert(!holds(fs[j], c));
}

/// An object has no category only where no category holds of it, or where a macro that a category
/// excludes does.
pub proof fn uncategorized_for_a_reason(
    order: Seq<OrderedNode>,
    cats: Seq<CategoryV>,
    macros: Seq<(Seq<char>, FilterV)>,
    c: CtxV,
    i: int,
)
    requires
        order.len() <= usize::MAX,
        is_compiled_order(order, cats, macros),
        first_category(order, cats, c) is None,
        0 <= i < cats.len(),
        last_named(cats, cats[i].id) == i,
        holds(cats[i].condition, c),
    ensures
        exists|y: Seq<char>|
            is_node(ids(cats), exclusions(cats), y) && last_named(cats, y) < 0
                && (#[trigger] lookup(macros, y)) is Some && holds(lookup(macros, y)->0, c),
{
    let names = choose|names: Seq<Seq<char>>| #[trigger]
        is_full_order(cats, names) && spells(order, cats, macros, names);
    let fs = order_conditions(order, cats);
    let n = order.len() as int;
    assert(is_node(ids(cats), exclusions(cats), cats[i].id)) by {
        assert(ids(cats)[i] == cats[i].id);
    }
    assert(names.contains(cats[i].id));
    let p = names.index_of(cats[i].id);
    assert(stands_for(order[p], cats, macros, names[p]));
    assert(fs[p] == cats[i].condition);
    if holding(fs, n, c).len() == 0 {
        lemma_nothing_holds(fs, n, c, p);
    }
    lemma_first_place_holds(fs, n, c);
    let k = holding(fs, n, c)[0] as int;
    assert(stands_for(order[k], cats, macros, names[k]));
    lemma_order_names_are_nodes(cats, names, k);
    let y = names[k];
    assert(lookup(macros, y) is Some && holds(lookup(macros, y)->0, c));
}

/// Every category has exactly one place in a compiled order.
pub proof fn every_category_has_one_place(
    order: Seq<OrderedNode>,
    cats: Seq<CategoryV>,
    macros: Seq<(Seq<char>, FilterV)>,
    i: int,
)
    requires
        is_compiled_order(order, cats, macros),
        0 <= i < cats.len(),
        last_named(cats, cats[i].id) == i,
    ensures
        exists|k: int|
            0 <= k < order.len() && (#[trigger] order[k]) is Category && order[k]->idx == i,
        forall|k: int, m: int|
            0 <= k < order.len() && 0 <= m < order.len() && (#[trigger] order[k]) is Category && (
            #[trigger] order[m]) is Category && order[k]->idx == i && order[m]->idx == i ==> k
                == m,
{
    let names = choose|names: Seq<Seq<char>>| #[trigger]
        is_full_order(cats, names) && spells(order, cats, macros, names);
    assert(is_node(ids(cats), exclusions(cats), cats[i].id)) by {
        assert(ids(cats)[i] == cats[i].id);
    }
    let p = names.index_of(cats[i].id);
    lemma_last_named(cats, cats[i].id);
    assert(stands_for(order[p], cats, macros, names[p]));
    assert forall|k: int, m: int|
        0 <= k < order.len() && 0 <= m < order.len() && (#[trigger] order[k]) is Category && (
        #[trigger] order[m]) is Category && order[k]->idx == i && order[m]->idx == i implies k
        == m by {
        assert(stands_for(order[k], cats, macros, names[k]));
        assert(stands_for(order[m], cats, macros, names[m]));
        lemma_last_named(cats, names[k]);
        lemma_last_named(cats, names[m]);
        if k < m {
            order_has_no_repeats(ids(cats), exclusions(cats), names, k, m);
        } else if m < k {
            order_has_no_repeats(ids(cats), exclusions(cats), names, m, k);
        }
    }
}

} // verus!

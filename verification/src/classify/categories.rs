//! The categories of a configuration: their priority order, the category that an object falls into,
//! and the zoom level from which it is shown.
use vstd::prelude::*;

use crate::assoc::lookup;
use crate::categorize::order::{
    beats, first_ready, is_complete, is_node, is_priority_order, is_rest, is_stuck,
    order_has_no_repeats, order_respects_excludes, priority_order,
};
use crate::classify::filter::{
    clone_filter, eval, find_macro, holds, is_finite, macros_view, CategoryContext, CategoryCtxV,
    Filter, FilterV,
};
use crate::engine::topic::DeriverBinding;
use crate::model::{models, Model};
use crate::text::str_eq;
use crate::value::Fields;

verus! {

/// From which zoom level on objects are shown: always the same, or by the first case that holds.
#[derive(Debug)]
pub enum MinzoomRule {
    Const(i32),
    Conditional { default: i32, rules: Vec<MinzoomCase> },
}

/// A case of a zoom rule.
#[derive(Debug)]
pub struct MinzoomCase {
    pub when: Filter,
    pub zoom: i32,
}

/// A category.
#[derive(Debug)]
pub struct CategoryDef {
    pub id: String,
    pub condition: Filter,
    pub excludes: Option<Vec<String>>,
    /// In place of the topic's own rule.
    pub minzoom: Option<MinzoomRule>,
    /// Other derivers for outputs than those of the topic.
    pub derivers: Option<Vec<DeriverBinding>>,
    /// Constants, over those of the topic.
    pub consts: Fields,
    /// Private data, over that of the topic.
    pub private: Fields,
    /// Where parking tells the traffic mode: on `both` sides, or `directional` on the own side.
    pub parking_inference: Option<String>,
}

/// A place in the priority order: a category, or a condition under which an object has none.
#[derive(Debug)]
pub enum OrderedNode {
    Category { idx: usize },
    Skip { condition: Filter },
}

/// The categories for one kind of element, with the priority order compiled from them.
#[derive(Debug)]
pub struct CategoriesFile {
    pub macros: Vec<(String, Filter)>,
    pub categories: Vec<CategoryDef>,
    pub order: Vec<OrderedNode>,
}

/// Why there is no priority order.
#[derive(Debug)]
pub enum OrderError {
    /// These names stand in a circle, or behind one.
    Cyclic(Vec<String>),
    /// This name is excluded, and is neither a category nor a macro.
    Unknown(String),
}

// ── Zoom levels ─────────────────────────────────────────────────────────────────────────────

/// Whether every condition of a zoom rule ends.
pub open spec fn rule_is_finite(rule: MinzoomRule, macros: Seq<(Seq<char>, FilterV)>) -> bool {
    match rule {
        MinzoomRule::Const(_) => true,
        MinzoomRule::Conditional { rules, .. } => forall|i: int|
            0 <= i < rules@.len() ==> is_finite((#[trigger] rules@[i]).when@, macros),
    }
}

/// The zoom level of the first case from `k` on that holds.
pub open spec fn first_zoom(
    rules: Seq<MinzoomCase>,
    k: int,
    default: i32,
    c: CategoryCtxV,
    macros: Seq<(Seq<char>, FilterV)>,
) -> i32
    decreases rules.len() - k,
{
    if k < 0 || k >= rules.len() {
        default
    } else if holds(rules[k].when@, c, macros) {
        rules[k].zoom
    } else {
        first_zoom(rules, k + 1, default, c, macros)
    }
}

/// The zoom level that a rule gives of an object.
pub open spec fn zoom_of(
    rule: MinzoomRule,
    c: CategoryCtxV,
    macros: Seq<(Seq<char>, FilterV)>,
) -> i32 {
    match rule {
        MinzoomRule::Const(z) => z,
        MinzoomRule::Conditional { default, rules } => first_zoom(rules@, 0, default, c, macros),
    }
}

/// The zoom level that a rule gives of an object.
pub fn resolve_minzoom(
    rule: &MinzoomRule,
    ctx: &CategoryContext,
    macros: &Vec<(String, Filter)>,
) -> (r: i32)
    requires
        rule_is_finite(*rule, macros_view(macros@)),
    ensures
        r == zoom_of(*rule, ctx@, macros_view(macros@)),
{
    match rule {
        MinzoomRule::Const(z) => *z,
        MinzoomRule::Conditional { default, rules } => {
            let ghost mv = macros_view(macros@);
            let mut k: usize = 0;
            while k < rules.len()
                invariant
                    0 <= k <= rules@.len(),
                    mv == macros_view(macros@),
                    forall|i: int|
                        0 <= i < rules@.len() ==> is_finite((#[trigger] rules@[i]).when@, mv),
                    zoom_of(*rule, ctx@, mv) == first_zoom(
                        rules@,
                        k as int,
                        *default,
                        ctx@,
                        mv,
                    ),
                decreases rules.len() - k,
            {
                if eval(&rules[k].when, ctx, macros) {
                    return rules[k].zoom;
                }
                k = k + 1;
            }
            *default
        },
    }
}

// ── The priority order ──────────────────────────────────────────────────────────────────────

/// The names of the categories.
pub open spec fn ids(cats: Seq<CategoryDef>) -> Seq<Seq<char>> {
    cats.map_values(|c: CategoryDef| c.id@)
}

/// What a category excludes.
pub open spec fn excluded(c: CategoryDef) -> Seq<Seq<char>> {
    match c.excludes.model() {
        Some(v) => v,
        None => Seq::empty(),
    }
}

/// What each category excludes.
pub open spec fn exclusions(cats: Seq<CategoryDef>) -> Seq<Seq<Seq<char>>> {
    cats.map_values(|c: CategoryDef| excluded(c))
}

/// The place of the last category with the name, or -1.
pub open spec fn last_named(cats: Seq<CategoryDef>, id: Seq<char>) -> int
    decreases cats.len(),
{
    if cats.len() == 0 {
        -1
    } else if cats.last().id@ == id {
        cats.len() - 1
    } else {
        last_named(cats.drop_last(), id)
    }
}

/// Whether a name is one of a category or of a macro.
pub open spec fn is_known(
    cats: Seq<CategoryDef>,
    macros: Seq<(Seq<char>, FilterV)>,
    name: Seq<char>,
) -> bool {
    last_named(cats, name) >= 0 || lookup(macros, name) is Some
}

/// Whether a place in the order stands for the name.
pub open spec fn stands_for(
    node: OrderedNode,
    cats: Seq<CategoryDef>,
    macros: Seq<(Seq<char>, FilterV)>,
    name: Seq<char>,
) -> bool {
    match node {
        OrderedNode::Category { idx } => last_named(cats, name) == idx,
        OrderedNode::Skip { condition } => last_named(cats, name) < 0 && lookup(macros, name)
            == Some(condition@),
    }
}

/// Whether the order lists the names.
pub open spec fn spells(
    order: Seq<OrderedNode>,
    cats: Seq<CategoryDef>,
    macros: Seq<(Seq<char>, FilterV)>,
    names: Seq<Seq<char>>,
) -> bool {
    order.len() == names.len() && forall|k: int|
        0 <= k < order.len() ==> stands_for(#[trigger] order[k], cats, macros, names[k])
}

/// Whether the names stand in the priority order of the categories, and none is missing.
pub open spec fn is_full_order(cats: Seq<CategoryDef>, names: Seq<Seq<char>>) -> bool {
    is_priority_order(ids(cats), exclusions(cats), names) && is_complete(
        ids(cats),
        exclusions(cats),
        names,
    )
}

/// Whether the order is compiled from the categories.
pub open spec fn is_compiled_order(
    order: Seq<OrderedNode>,
    cats: Seq<CategoryDef>,
    macros: Seq<(Seq<char>, FilterV)>,
) -> bool {
    exists|names: Seq<Seq<char>>| #[trigger]
        is_full_order(cats, names) && spells(order, cats, macros, names)
}

/// Whether `name` is the first in the priority order that is neither a category nor a macro.
pub open spec fn first_unknown(
    cats: Seq<CategoryDef>,
    macros: Seq<(Seq<char>, FilterV)>,
    name: Seq<char>,
) -> bool {
    exists|names: Seq<Seq<char>>, k: int|
        0 <= k < names.len() && #[trigger] is_full_order(cats, names) && #[trigger] names[k] == name
            && !is_known(cats, macros, name) && forall|j: int|
            0 <= j < k ==> is_known(cats, macros, #[trigger] names[j])
}

/// Whether the error says why the categories have no priority order.
pub open spec fn explains(
    e: OrderError,
    cats: Seq<CategoryDef>,
    macros: Seq<(Seq<char>, FilterV)>,
) -> bool {
    match e {
        OrderError::Cyclic(names) => is_stuck(ids(cats), exclusions(cats), models(names@))
            && exists|order: Seq<Seq<char>>| #[trigger]
            is_priority_order(ids(cats), exclusions(cats), order) && is_rest(
                ids(cats),
                exclusions(cats),
                order,
                models(names@),
            ),
        OrderError::Unknown(name) => first_unknown(cats, macros, name@),
    }
}

/// Whether every place of the order is one of a category that there is.
pub open spec fn order_fits(order: Seq<OrderedNode>, n: int) -> bool {
    forall|k: int|
        0 <= k < order.len() && (#[trigger] order[k]) is Category ==> order[k]->idx < n
}

pub proof fn lemma_last_named(cats: Seq<CategoryDef>, id: Seq<char>)
    ensures
        -1 <= last_named(cats, id) < cats.len(),
        last_named(cats, id) >= 0 ==> cats[last_named(cats, id)].id@ == id,
    decreases cats.len(),
{
    if cats.len() > 0 && cats.last().id@ != id {
        lemma_last_named(cats.drop_last(), id);
    }
}

fn place_of(cats: &Vec<CategoryDef>, name: &str) -> (r: Option<usize>)
    ensures
        match r {
            Some(i) => i < cats@.len() && last_named(cats@, name@) == i,
            None => last_named(cats@, name@) < 0,
        },
{
    let mut n: usize = cats.len();
    proof {
        assert(cats@.take(cats@.len() as int) =~= cats@);
    }
    while n > 0
        invariant
            0 <= n <= cats@.len(),
            last_named(cats@, name@) == last_named(cats@.take(n as int), name@),
        decreases n,
    {
        proof {
            assert(cats@.take(n as int).drop_last() =~= cats@.take(n - 1));
            assert(cats@.take(n as int).last() == cats@[n - 1]);
        }
        if str_eq(cats[n - 1].id.as_str(), name) {
            return Some(n - 1);
        }
        n = n - 1;
    }
    None
}

fn list_ids(cats: &Vec<CategoryDef>) -> (r: Vec<String>)
    ensures
        models(r@) == ids(cats@),
        r@.len() == cats@.len(),
{
    let mut out: Vec<String> = Vec::new();
    for i in 0..cats.len()
        invariant
            out@.len() == i,
            forall|j: int| 0 <= j < i ==> (#[trigger] out@[j])@ == cats@[j].id@,
    {
        out.push(cats[i].id.clone());
    }
    proof {
        assert(models(out@) =~= ids(cats@));
    }
    out
}

fn list_exclusions(cats: &Vec<CategoryDef>) -> (r: Vec<Vec<String>>)
    ensures
        models(r@) == exclusions(cats@),
        r@.len() == cats@.len(),
{
    let mut out: Vec<Vec<String>> = Vec::new();
    for i in 0..cats.len()
        invariant
            out@.len() == i,
            forall|j: int| 0 <= j < i ==> models((#[trigger] out@[j])@) == excluded(cats@[j]),
    {
        let list: Vec<String> = match &cats[i].excludes {
            Some(v) => v.copy(),
            None => {
                let none: Vec<String> = Vec::new();
                proof {
                    assert(models(none@) =~= Seq::<Seq<char>>::empty());
                }
                none
            },
        };
        out.push(list);
    }
    proof {
        assert(models(out@) =~= exclusions(cats@));
    }
    out
}

impl CategoriesFile {
    /// Compiles the `excludes` relation into a priority order, in which what a category excludes
    /// comes before it. An error leaves the order as it was.
    pub fn build_order(&mut self) -> (r: Result<(), OrderError>)
        ensures
            final(self).macros@ == old(self).macros@,
            final(self).categories@ == old(self).categories@,
            match r {
                Ok(_) => is_compiled_order(
                    final(self).order@,
                    old(self).categories@,
                    macros_view(old(self).macros@),
                ) && order_fits(final(self).order@, old(self).categories@.len() as int),
                Err(e) => final(self).order@ == old(self).order@ && explains(
                    e,
                    old(self).categories@,
                    macros_view(old(self).macros@),
                ),
            },
    {
        let ghost cats = self.categories@;
        let ghost mv = macros_view(self.macros@);
        let id_list = list_ids(&self.categories);
        let exclusion_list = list_exclusions(&self.categories);
        let names = match priority_order(&id_list, &exclusion_list) {
            Ok(names) => names,
            Err(left) => {
                return Err(OrderError::Cyclic(left));
            },
        };
        let ghost nv = models(names@);
        proof {
            assert(is_full_order(cats, nv));
        }
        let mut order: Vec<OrderedNode> = Vec::new();
        for k in 0..names.len()
            invariant
                cats == self.categories@,
                mv == macros_view(self.macros@),
                self.order@ == old(self).order@,
                self.macros@ == old(self).macros@,
                self.categories@ == old(self).categories@,
                nv == models(names@),
                is_full_order(cats, nv),
                order@.len() == k,
                forall|j: int|
                    0 <= j < k ==> stands_for(#[trigger] order@[j], cats, mv, nv[j]),
                order_fits(order@, cats.len() as int),
                forall|j: int| 0 <= j < k ==> is_known(cats, mv, #[trigger] nv[j]),
        {
            proof {
                assert(names@[k as int]@ == nv[k as int]);
            }
            match place_of(&self.categories, names[k].as_str()) {
                Some(idx) => {
                    order.push(OrderedNode::Category { idx });
                },
                None => match find_macro(&self.macros, names[k].as_str()) {
                    Some(f) => {
                        order.push(OrderedNode::Skip { condition: clone_filter(f) });
                    },
                    None => {
                        proof {
                            assert(!is_known(cats, mv, nv[k as int]));
                        }
                        return Err(OrderError::Unknown(names[k].clone()));
                    },
                },
            }
            proof {
                assert(is_known(cats, mv, nv[k as int]));
            }
        }
        proof {
            assert(spells(order@, cats, mv, nv));
        }
        self.order = order;
        Ok(())
    }
}

// ── The category of an object ───────────────────────────────────────────────────────────────

/// The condition at a place of the order.
pub open spec fn condition_at(node: OrderedNode, cats: Seq<CategoryDef>) -> FilterV {
    match node {
        OrderedNode::Category { idx } => cats[idx as int].condition@,
        OrderedNode::Skip { condition } => condition@,
    }
}

/// The first place of the order, from `k` on, whose condition holds; else the end.
pub open spec fn first_match(
    order: Seq<OrderedNode>,
    k: int,
    cats: Seq<CategoryDef>,
    c: CategoryCtxV,
    macros: Seq<(Seq<char>, FilterV)>,
) -> int
    decreases order.len() - k,
{
    if k < 0 || k >= order.len() || holds(condition_at(order[k], cats), c, macros) {
        k
    } else {
        first_match(order, k + 1, cats, c, macros)
    }
}

/// The category that an object falls into: that of the first place whose condition holds.
pub open spec fn category_of(
    order: Seq<OrderedNode>,
    cats: Seq<CategoryDef>,
    c: CategoryCtxV,
    macros: Seq<(Seq<char>, FilterV)>,
) -> Option<int> {
    let k = first_match(order, 0, cats, c, macros);
    if k < order.len() && order[k] is Category {
        Some(order[k]->idx as int)
    } else {
        None
    }
}

/// Whether every condition in the order ends.
pub open spec fn order_is_finite(
    order: Seq<OrderedNode>,
    cats: Seq<CategoryDef>,
    macros: Seq<(Seq<char>, FilterV)>,
) -> bool {
    forall|k: int|
        0 <= k < order.len() ==> is_finite(condition_at(#[trigger] order[k], cats), macros)
}

/// The category that an object falls into.
pub fn categorize<'a>(ctx: &CategoryContext, cats: &'a CategoriesFile) -> (r: Option<
    &'a CategoryDef,
>)
    requires
        order_fits(cats.order@, cats.categories@.len() as int),
        order_is_finite(cats.order@, cats.categories@, macros_view(cats.macros@)),
    ensures
        match category_of(cats.order@, cats.categories@, ctx@, macros_view(cats.macros@)) {
            Some(i) => r is Some && *r->0 == cats.categories@[i] && 0 <= i
                < cats.categories@.len(),
            None => r is None,
        },
{
    let ghost mv = macros_view(cats.macros@);
    let mut k: usize = 0;
    while k < cats.order.len()
        invariant
            0 <= k <= cats.order@.len(),
            mv == macros_view(cats.macros@),
            order_fits(cats.order@, cats.categories@.len() as int),
            order_is_finite(cats.order@, cats.categories@, mv),
            first_match(cats.order@, 0, cats.categories@, ctx@, mv) == first_match(
                cats.order@,
                k as int,
                cats.categories@,
                ctx@,
                mv,
            ),
        decreases cats.order.len() - k,
    {
        proof {
            assert(is_finite(condition_at(cats.order@[k as int], cats.categories@), mv));
        }
        match &cats.order[k] {
            OrderedNode::Category { idx } => {
                if eval(&cats.categories[*idx].condition, ctx, &cats.macros) {
                    return Some(&cats.categories[*idx]);
                }
            },
            OrderedNode::Skip { condition } => {
                if eval(condition, ctx, &cats.macros) {
                    return None;
                }
            },
        }
        k = k + 1;
    }
    None
}

proof fn lemma_first_match(
    order: Seq<OrderedNode>,
    k: int,
    cats: Seq<CategoryDef>,
    c: CategoryCtxV,
    macros: Seq<(Seq<char>, FilterV)>,
)
    requires
        0 <= k <= order.len(),
    ensures
        k <= first_match(order, k, cats, c, macros) <= order.len(),
        first_match(order, k, cats, c, macros) < order.len() ==> holds(
            condition_at(order[first_match(order, k, cats, c, macros)], cats),
            c,
            macros,
        ),
        forall|j: int|
            k <= j < first_match(order, k, cats, c, macros) ==> !holds(
                condition_at(#[trigger] order[j], cats),
                c,
                macros,
            ),
    decreases order.len() - k,
{
    if k < order.len() && !holds(condition_at(order[k], cats), c, macros) {
        lemma_first_match(order, k + 1, cats, c, macros);
    }
}

/// Whether the category or the macro of a name holds of an object.
pub open spec fn name_holds(
    cats: Seq<CategoryDef>,
    macros: Seq<(Seq<char>, FilterV)>,
    name: Seq<char>,
    c: CategoryCtxV,
) -> bool {
    if last_named(cats, name) >= 0 {
        holds(cats[last_named(cats, name)].condition@, c, macros)
    } else {
        lookup(macros, name) is Some && holds(lookup(macros, name)->0, c, macros)
    }
}

/// The category that an object falls into holds of it, and nothing that it excludes does.
pub proof fn excluded_names_do_not_hold(
    order: Seq<OrderedNode>,
    cats: Seq<CategoryDef>,
    macros: Seq<(Seq<char>, FilterV)>,
    c: CategoryCtxV,
    y: Seq<char>,
)
    requires
        is_compiled_order(order, cats, macros),
        category_of(order, cats, c, macros) is Some,
        excluded(cats[category_of(order, cats, c, macros)->0]).contains(y),
    ensures
        holds(cats[category_of(order, cats, c, macros)->0].condition@, c, macros),
        !name_holds(cats, macros, y, c),
{
    let names = choose|names: Seq<Seq<char>>| #[trigger]
        is_full_order(cats, names) && spells(order, cats, macros, names);
    lemma_first_match(order, 0, cats, c, macros);
    let k = first_match(order, 0, cats, c, macros);
    let i = order[k]->idx as int;
    assert(stands_for(order[k], cats, macros, names[k]));
    lemma_last_named(cats, names[k]);
    assert(beats(ids(cats), exclusions(cats), y, names[k])) by {
        assert(ids(cats)[i] == names[k]);
        assert(exclusions(cats)[i] == excluded(cats[i]));
    }
    order_respects_excludes(ids(cats), exclusions(cats), names, y, k);
    let j = choose|j: int| 0 <= j < k && #[trigger] names[j] == y;
    assert(stands_for(order[j], cats, macros, names[j]));
    assert(!holds(condition_at(order[j], cats), c, macros));
}

/// Whether of any two names in the order that both hold of the object one excludes the other.
pub open spec fn disjoint_at(
    cats: Seq<CategoryDef>,
    macros: Seq<(Seq<char>, FilterV)>,
    c: CategoryCtxV,
) -> bool {
    forall|x: Seq<char>, y: Seq<char>|
        is_node(ids(cats), exclusions(cats), x) && is_node(ids(cats), exclusions(cats), y) && x != y
            && #[trigger] name_holds(cats, macros, x, c) && #[trigger] name_holds(
            cats,
            macros,
            y,
            c,
        ) ==> beats(ids(cats), exclusions(cats), x, y) || beats(ids(cats), exclusions(cats), y, x)
}

/// Where of any two names that hold one excludes the other, an object falls into the category that
/// holds of it and of which no excluded name does: the order decides as the relation says.
pub proof fn order_decides_as_excludes_say(
    order: Seq<OrderedNode>,
    cats: Seq<CategoryDef>,
    macros: Seq<(Seq<char>, FilterV)>,
    c: CategoryCtxV,
    i: int,
)
    requires
        is_compiled_order(order, cats, macros),
        disjoint_at(cats, macros, c),
        0 <= i < cats.len(),
        last_named(cats, cats[i].id@) == i,
        holds(cats[i].condition@, c, macros),
        forall|y: Seq<char>| #[trigger]
            beats(ids(cats), exclusions(cats), y, cats[i].id@) ==> !name_holds(cats, macros, y, c),
    ensures
        category_of(order, cats, c, macros) == Some(i),
{
    let names = choose|names: Seq<Seq<char>>| #[trigger]
        is_full_order(cats, names) && spells(order, cats, macros, names);
    let x = cats[i].id@;
    assert(is_node(ids(cats), exclusions(cats), x)) by {
        assert(ids(cats)[i] == x);
    }
    assert(names.contains(x));
    let p = names.index_of(x);
    assert(stands_for(order[p], cats, macros, names[p]));
    lemma_first_match(order, 0, cats, c, macros);
    let k = first_match(order, 0, cats, c, macros);
    assert(k <= p) by {
        if k > p {
            assert(!holds(condition_at(order[p], cats), c, macros));
        }
    }
    assert(stands_for(order[k], cats, macros, names[k]));
    lemma_last_named(cats, names[k]);
    let y = names[k];
    assert(name_holds(cats, macros, y, c));
    assert(name_holds(cats, macros, x, c));
    assert(first_ready(ids(cats), exclusions(cats), names.take(k), names[k]));
    if y != x {
        assert(beats(ids(cats), exclusions(cats), x, y) || beats(
            ids(cats),
            exclusions(cats),
            y,
            x,
        ));
        if beats(ids(cats), exclusions(cats), x, y) {
            order_respects_excludes(ids(cats), exclusions(cats), names, x, k);
            let j = choose|j: int| 0 <= j < k && #[trigger] names[j] == x;
            if j < p {
                order_has_no_repeats(ids(cats), exclusions(cats), names, j, p);
            } else if p < j {
                order_has_no_repeats(ids(cats), exclusions(cats), names, p, j);
            }
        }
    }
}

} // verus!

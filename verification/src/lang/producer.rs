//! Value producers: small trees that give one output's value from an object, with what is noted
//! beside it.
use vstd::prelude::*;

use crate::categorize::expr::{all_expressible, expressible};
use crate::decision_tree::compile::{build, conditions, initial, is_net};
use crate::decision_tree::kleene::side_known;
use crate::decision_tree::laws::{holding, net_agrees_with_full_walk, reads_alike};
use crate::decision_tree::places::{fits, matches_are_listed, net_names_listed_places};
use crate::decision_tree::runtime::{matching, net_matches};
use crate::decision_tree::tree::{DecisionTree, TreeV};
use crate::lang::context::{CtxV, ExtractCtx, ValueSets};
use crate::lang::extract::{value_read, Extract, ExtractV};
use crate::lang::filter::{clone_filter, eval, filters, group_filters, holds, Filter, FilterV};
use crate::lang::sanitize::opt_value;
use crate::number::{Readings, ReadingsV};
use crate::value::{clone_value, Fields, Value, ValueV};

verus! {

/// A rule table with more rules than this gets a net.
pub const MATCH_TREE_MIN_RULES: usize = 6;

/// What a rule table was made from: rules, branches tried in turn, a choice between the parent's and
/// the object's own value, a tag with a replacement, or a bare default.
#[derive(Debug, Clone, Copy, PartialEq, Eq, Structural)]
pub enum MatchOrigin {
    Rules,
    Fallback,
    ParentOrObj,
    TagOr,
    Default,
}

/// A rule of a table: a condition, and what gives the value where it holds.
#[derive(Debug)]
pub struct Rule {
    pub when: Filter,
    pub value: Producer,
}

/// A value producer.
#[derive(Debug)]
pub enum Producer {
    /// The first rule that holds and whose value produces something; else the default. A net over
    /// the conditions, where there is one, stands for walking through them.
    Match {
        rules: Vec<Rule>,
        default: Option<Value>,
        annotate: Fields,
        origin: MatchOrigin,
        tree: Option<DecisionTree>,
    },
    /// A tag read.
    Extract { extract: Extract, annotate: Fields },
    /// A value that no tag has a say in.
    Const { value: Value, annotate: Fields },
    /// The inner producer on the parent way's tags; nothing without a parent.
    Parent(Box<Producer>),
}

/// What a producer gave, and what is noted beside it.
#[derive(Debug)]
pub struct Produced {
    pub value: Value,
    pub annotate: Fields,
}

/// A rule of a table.
pub struct RuleV {
    pub when: FilterV,
    pub value: ProducerV,
}

/// A value producer.
pub enum ProducerV {
    Match {
        rules: Seq<RuleV>,
        default: Option<ValueV>,
        annotate: Map<Seq<char>, ValueV>,
        origin: MatchOrigin,
        tree: Option<TreeV>,
    },
    Extract { extract: ExtractV, annotate: Map<Seq<char>, ValueV> },
    Const { value: ValueV, annotate: Map<Seq<char>, ValueV> },
    Parent(Box<ProducerV>),
}

/// What a producer gave.
pub struct ProducedV {
    pub value: ValueV,
    pub annotate: Map<Seq<char>, ValueV>,
}

impl Produced {
    pub open spec fn view(&self) -> ProducedV {
        ProducedV { value: self.value@, annotate: self.annotate@ }
    }
}

/// What an optional result holds.
pub open spec fn opt_produced(p: Option<Produced>) -> Option<ProducedV> {
    match p {
        Some(x) => Some(x@),
        None => None,
    }
}

/// What an optional net holds.
pub open spec fn opt_tree(t: Option<DecisionTree>) -> Option<TreeV> {
    match t {
        Some(x) => Some(x@),
        None => None,
    }
}

impl Producer {
    pub open spec fn view(&self) -> ProducerV
        decreases self,
    {
        match self {
            Producer::Match { rules, default, annotate, origin, tree } => ProducerV::Match {
                rules: rules_view(rules@),
                default: opt_value(*default),
                annotate: annotate@,
                origin: *origin,
                tree: opt_tree(*tree),
            },
            Producer::Extract { extract, annotate } => ProducerV::Extract {
                extract: extract@,
                annotate: annotate@,
            },
            Producer::Const { value, annotate } => ProducerV::Const {
                value: value@,
                annotate: annotate@,
            },
            Producer::Parent(inner) => ProducerV::Parent(Box::new((**inner).view())),
        }
    }
}

/// The rules of a table.
pub open spec fn rules_view(v: Seq<Rule>) -> Seq<RuleV>
    decreases v,
{
    Seq::new(
        v.len(),
        |i: int|
            if 0 <= i < v.len() {
                RuleV { when: v[i].when.view(), value: v[i].value.view() }
            } else {
                arbitrary()
            },
    )
}

pub broadcast proof fn rules_view_len(v: Seq<Rule>)
    ensures
        #[trigger] rules_view(v).len() == v.len(),
{
}

pub broadcast proof fn rules_view_index(v: Seq<Rule>, i: int)
    requires
        0 <= i < v.len(),
    ensures
        #[trigger] rules_view(v)[i] == (RuleV { when: v[i].when.view(), value: v[i].value.view() }),
{
}

pub broadcast group group_rules {
    rules_view_len,
    rules_view_index,
}

// ── What a producer gives ───────────────────────────────────────────────────────────────────

/// The result with `own` noted beside it where it brings nothing to note itself.
pub open spec fn inherit(p: ProducedV, own: Map<Seq<char>, ValueV>) -> ProducedV {
    if p.annotate == Map::<Seq<char>, ValueV>::empty() {
        ProducedV { value: p.value, annotate: own }
    } else {
        p
    }
}

/// What a producer gives of an object.
pub open spec fn produced(p: ProducerV, c: CtxV) -> Option<ProducedV>
    decreases p, 0int,
{
    match p {
        ProducerV::Match { rules, default, annotate, tree, .. } => {
            let found = match tree {
                Some(t) => attempt(rules, net_matches(t, c), 0, annotate, c),
                None => scan(rules, 0, annotate, c),
            };
            match found {
                Some(x) => Some(x),
                None => match default {
                    Some(value) => Some(ProducedV { value, annotate }),
                    None => None,
                },
            }
        },
        ProducerV::Extract { extract, annotate } => match value_read(extract, c.obj, c.readings) {
            Some(value) => Some(ProducedV { value, annotate }),
            None => None,
        },
        ProducerV::Const { value, annotate } => Some(ProducedV { value, annotate }),
        ProducerV::Parent(inner) => match c.parent {
            Some(tags) => produced(*inner, c.with_obj(tags)),
            None => None,
        },
    }
}

/// What the first rule from `k` on gives that holds and produces something.
pub open spec fn scan(
    rules: Seq<RuleV>,
    k: int,
    own: Map<Seq<char>, ValueV>,
    c: CtxV,
) -> Option<ProducedV>
    decreases rules, rules.len() - k,
{
    if k < 0 || k >= rules.len() {
        None
    } else if holds(rules[k].when, c) {
        match produced(rules[k].value, c) {
            Some(x) => Some(inherit(x, own)),
            None => scan(rules, k + 1, own, c),
        }
    } else {
        scan(rules, k + 1, own, c)
    }
}

/// What the first of the rules at `places[k..]` gives that produces something.
pub open spec fn attempt(
    rules: Seq<RuleV>,
    places: Seq<usize>,
    k: int,
    own: Map<Seq<char>, ValueV>,
    c: CtxV,
) -> Option<ProducedV>
    decreases rules, places.len() - k,
{
    if k < 0 || k >= places.len() {
        None
    } else if places[k] < rules.len() {
        match produced(rules[places[k] as int].value, c) {
            Some(x) => Some(inherit(x, own)),
            None => attempt(rules, places, k + 1, own, c),
        }
    } else {
        attempt(rules, places, k + 1, own, c)
    }
}

/// What a rule table gives of an object.
pub open spec fn table_result(
    rules: Seq<RuleV>,
    tree: Option<TreeV>,
    own: Map<Seq<char>, ValueV>,
    c: CtxV,
) -> Option<ProducedV> {
    match tree {
        Some(t) => attempt(rules, net_matches(t, c), 0, own, c),
        None => scan(rules, 0, own, c),
    }
}

/// Whether every net in the producer names only rules of its table.
pub open spec fn sound(p: ProducerV) -> bool
    decreases p,
{
    match p {
        ProducerV::Match { rules, tree, .. } => all_sound(rules) && (tree is Some ==> fits(
            tree->0,
            rules.len() as int,
        )),
        ProducerV::Parent(inner) => sound(*inner),
        _ => true,
    }
}

/// Whether the producer of every rule is sound.
pub open spec fn all_sound(rules: Seq<RuleV>) -> bool
    decreases rules,
{
    forall|i: int| 0 <= i < rules.len() ==> sound((#[trigger] rules[i]).value)
}

fn finish(p: Produced, own: &Fields) -> (r: Produced)
    ensures
        r@ == inherit(p@, own@),
{
    if p.annotate.is_empty() {
        Produced { value: p.value, annotate: own.copy() }
    } else {
        p
    }
}

/// What the first rule gives that holds and produces something; a rule that holds and produces
/// nothing does not stop the search.
pub fn match_rules(
    rules: &Vec<Rule>,
    tree: &Option<DecisionTree>,
    ctx: &ExtractCtx,
    own_consts: &Fields,
) -> (r: Option<Produced>)
    requires
        all_sound(rules_view(rules@)),
        tree is Some ==> fits(tree->0@, rules@.len() as int),
    ensures
        opt_produced(r) == table_result(rules_view(rules@), opt_tree(*tree), own_consts@, ctx@),
    decreases rules,
{
    broadcast use group_rules;

    let ghost rv = rules_view(rules@);
    let ghost own = own_consts@;
    let ghost c = ctx@;
    match tree {
        Some(t) => {
            let places = matching(t, ctx);
            proof {
                matches_are_listed(t@, c, rules@.len() as int);
            }
            let mut k: usize = 0;
            while k < places.len()
                invariant
                    0 <= k <= places@.len(),
                    rv == rules_view(rules@),
                    own == own_consts@,
                    c == ctx@,
                    all_sound(rv),
                    table_result(rv, opt_tree(*tree), own, c) == attempt(rv, places@, 0, own, c),
                    forall|i: int|
                        0 <= i < places@.len() ==> #[trigger] places@[i] < rules@.len(),
                    attempt(rv, places@, 0, own, c) == attempt(rv, places@, k as int, own, c),
                decreases places.len() - k,
            {
                let i: usize = places[k];
                proof {
                    assert(decreases_to!(rules@ => rules@[i as int]));
                    assert(decreases_to!(rules@[i as int] => rules@[i as int].value));
                    assert(sound(rv[i as int].value));
                }
                match rules[i].value.eval(ctx) {
                    Some(p) => {
                        return Some(finish(p, own_consts));
                    },
                    None => {},
                }
                k = k + 1;
            }
            None
        },
        None => {
            let mut k: usize = 0;
            while k < rules.len()
                invariant
                    0 <= k <= rules@.len(),
                    rv == rules_view(rules@),
                    own == own_consts@,
                    c == ctx@,
                    all_sound(rv),
                    table_result(rv, opt_tree(*tree), own, c) == scan(rv, 0, own, c),
                    scan(rv, 0, own, c) == scan(rv, k as int, own, c),
                decreases rules.len() - k,
            {
                proof {
                    assert(decreases_to!(rules@ => rules@[k as int]));
                    assert(decreases_to!(rules@[k as int] => rules@[k as int].value));
                    assert(sound(rv[k as int].value));
                }
                if eval(&rules[k].when, ctx) {
                    match rules[k].value.eval(ctx) {
                        Some(p) => {
                            return Some(finish(p, own_consts));
                        },
                        None => {},
                    }
                }
                k = k + 1;
            }
            None
        },
    }
}

fn copy_default(default: &Option<Value>, annotate: &Fields) -> (r: Option<Produced>)
    ensures
        opt_produced(r) == (match opt_value(*default) {
            Some(value) => Some(ProducedV { value, annotate: annotate@ }),
            None => None,
        }),
{
    match default {
        Some(v) => Some(Produced { value: clone_value(v), annotate: annotate.copy() }),
        None => None,
    }
}

impl Producer {
    /// What the producer gives of an object.
    pub fn eval(&self, ctx: &ExtractCtx) -> (r: Option<Produced>)
        requires
            sound(self@),
        ensures
            opt_produced(r) == produced(self@, ctx@),
        decreases self,
    {
        broadcast use group_rules;

        match self {
            Producer::Match { rules, default, annotate, tree, .. } => {
                proof {
                    assert(rules_view(rules@).len() == rules@.len());
                    assert(self@->tree == opt_tree(*tree));
                }
                match match_rules(rules, tree, ctx, annotate) {
                    Some(p) => Some(p),
                    None => copy_default(default, annotate),
                }
            },
            Producer::Extract { extract, annotate } => {
                match extract.read(ctx) {
                    Some(value) => Some(Produced { value, annotate: annotate.copy() }),
                    None => None,
                }
            },
            Producer::Const { value, annotate } => Some(
                Produced { value: clone_value(value), annotate: annotate.copy() },
            ),
            Producer::Parent(inner) => match ctx.parent_tags {
                Some(tags) => inner.eval(&ctx.with_obj_tags(tags)),
                None => None,
            },
        }
    }
}

// ── Nets for large tables ───────────────────────────────────────────────────────────────────

/// The conditions of a table.
pub open spec fn whens(rules: Seq<RuleV>) -> Seq<FilterV> {
    rules.map_values(|r: RuleV| r.when)
}

/// Whether the conditions of every large table can be put as expressions.
pub open spec fn compilable(p: ProducerV) -> bool
    decreases p,
{
    match p {
        ProducerV::Match { rules, .. } => all_compilable(rules) && (rules.len()
            > MATCH_TREE_MIN_RULES ==> all_expressible(whens(rules))),
        ProducerV::Parent(inner) => compilable(*inner),
        _ => true,
    }
}

/// Whether the producer of every rule can get its nets.
pub open spec fn all_compilable(rules: Seq<RuleV>) -> bool
    decreases rules,
{
    forall|i: int| 0 <= i < rules.len() ==> compilable((#[trigger] rules[i]).value)
}

/// Whether `q` is `p` with a net for every large table.
pub open spec fn is_compiled(
    p: ProducerV,
    q: ProducerV,
    max_depth: int,
    sets: Seq<(Seq<char>, Seq<Seq<char>>)>,
    r: ReadingsV,
) -> bool
    decreases p,
{
    match (p, q) {
        (
            ProducerV::Match { rules, default, annotate, origin, tree },
            ProducerV::Match {
                rules: rules2,
                default: default2,
                annotate: annotate2,
                origin: origin2,
                tree: tree2,
            },
        ) => {
            &&& all_compiled(rules, rules2, max_depth, sets, r)
            &&& default2 == default
            &&& annotate2 == annotate
            &&& origin2 == origin
            &&& if rules.len() > MATCH_TREE_MIN_RULES {
                tree2 is Some && is_net(
                    tree2->0,
                    initial(conditions(whens(rules), sets), false),
                    Seq::empty(),
                    Seq::empty(),
                    max_depth,
                    r,
                )
            } else {
                tree2 == tree
            }
        },
        (ProducerV::Parent(inner), ProducerV::Parent(inner2)) => is_compiled(
            *inner,
            *inner2,
            max_depth,
            sets,
            r,
        ),
        (ProducerV::Match { .. }, _) => false,
        (ProducerV::Parent(_), _) => false,
        _ => q == p,
    }
}

/// Whether the rules are the same but for the nets of their producers.
pub open spec fn all_compiled(
    rules: Seq<RuleV>,
    rules2: Seq<RuleV>,
    max_depth: int,
    sets: Seq<(Seq<char>, Seq<Seq<char>>)>,
    r: ReadingsV,
) -> bool
    decreases rules,
{
    &&& rules2.len() == rules.len()
    &&& forall|i: int|
        0 <= i < rules.len() ==> (#[trigger] rules2[i]).when == rules[i].when && is_compiled(
            rules[i].value,
            rules2[i].value,
            max_depth,
            sets,
            r,
        )
}

/// The producer with no net in it.
pub open spec fn cleared(p: ProducerV) -> ProducerV
    decreases p,
{
    match p {
        ProducerV::Match { rules, default, annotate, origin, .. } => ProducerV::Match {
            rules: cleared_rules(rules),
            default,
            annotate,
            origin,
            tree: None,
        },
        ProducerV::Parent(inner) => ProducerV::Parent(Box::new(cleared(*inner))),
        _ => p,
    }
}

/// The rules with no net in any producer.
pub open spec fn cleared_rules(rules: Seq<RuleV>) -> Seq<RuleV>
    decreases rules,
{
    Seq::new(
        rules.len(),
        |i: int|
            if 0 <= i < rules.len() {
                RuleV { when: rules[i].when, value: cleared(rules[i].value) }
            } else {
                arbitrary()
            },
    )
}

fn compiled(p: Producer, max_depth: usize, sets: &ValueSets, readings: &Readings) -> (r: Producer)
    requires
        compilable(p@),
        sound(p@),
    ensures
        is_compiled(p@, r@, max_depth as int, sets@, readings@),
        sound(r@),
    decreases p,
{
    broadcast use {group_rules, group_filters};

    let ghost pv = p@;
    match p {
        Producer::Match { rules, default, annotate, origin, tree } => {
            let ghost all = rules@;
            let ghost rv = rules_view(rules@);
            let n: usize = rules.len();
            let mut left = rules;
            let mut out: Vec<Rule> = Vec::new();
            let mut conds: Vec<Filter> = Vec::new();
            let mut i: usize = 0;
            while i < n
                invariant
                    0 <= i <= n,
                    n == all.len(),
                    pv == p@,
                    p is Match,
                    p->rules@ == all,
                    left@ == all.skip(i as int),
                    rv == rules_view(all),
                    all_compilable(rv),
                    all_sound(rv),
                    out@.len() == i,
                    conds@.len() == i,
                    forall|j: int|
                        0 <= j < i ==> (#[trigger] conds@[j])@ == rv[j].when,
                    forall|j: int|
                        0 <= j < i ==> (#[trigger] out@[j]).when@ == rv[j].when && is_compiled(
                            rv[j].value,
                            out@[j].value@,
                            max_depth as int,
                            sets@,
                            readings@,
                        ) && sound(out@[j].value@),
                decreases n - i,
            {
                let rule = left.remove(0);
                proof {
                    assert(rule == all[i as int]);
                    assert(left@ =~= all.skip(i + 1));
                    assert(decreases_to!(all => all[i as int]));
                    assert(decreases_to!(all[i as int] => all[i as int].value));
                    assert(compilable(rv[i as int].value));
                    assert(sound(rv[i as int].value));
                }
                conds.push(clone_filter(&rule.when));
                let value = compiled(rule.value, max_depth, sets, readings);
                out.push(Rule { when: rule.when, value });
                i = i + 1;
            }
            proof {
                assert(filters(conds@) =~= whens(rv));
                let ov = rules_view(out@);
                assert forall|j: int| 0 <= j < rv.len() implies (#[trigger] ov[j]).when
                    == rv[j].when && is_compiled(
                    rv[j].value,
                    ov[j].value,
                    max_depth as int,
                    sets@,
                    readings@,
                ) by {
                    assert(out@[j].when@ == rv[j].when);
                }
                assert(all_compiled(rv, ov, max_depth as int, sets@, readings@));
                assert forall|j: int| 0 <= j < ov.len() implies sound((#[trigger] ov[j]).value) by {
                    assert(out@[j].when@ == rv[j].when);
                }
                assert(all_sound(ov));
            }
            let net = if n > MATCH_TREE_MIN_RULES {
                let t = build(&conds, max_depth, false, sets, readings);
                proof {
                    net_names_listed_places(
                        t@,
                        conditions(whens(rv), sets@),
                        false,
                        max_depth as int,
                        readings@,
                    );
                }
                Some(t)
            } else {
                tree
            };
            Producer::Match { rules: out, default, annotate, origin, tree: net }
        },
        Producer::Parent(inner) => {
            let q = compiled(*inner, max_depth, sets, readings);
            Producer::Parent(Box::new(q))
        },
        other => other,
    }
}

fn without_trees(p: Producer) -> (r: Producer)
    ensures
        r@ == cleared(p@),
    decreases p,
{
    broadcast use group_rules;

    match p {
        Producer::Match { rules, default, annotate, origin, tree: _ } => {
            let ghost all = rules@;
            let ghost rv = rules_view(rules@);
            let n: usize = rules.len();
            let mut left = rules;
            let mut out: Vec<Rule> = Vec::new();
            let mut i: usize = 0;
            while i < n
                invariant
                    0 <= i <= n,
                    n == all.len(),
                    p is Match,
                    p->rules@ == all,
                    left@ == all.skip(i as int),
                    rv == rules_view(all),
                    out@.len() == i,
                    forall|j: int|
                        0 <= j < i ==> (#[trigger] out@[j]).when@ == rv[j].when && out@[j].value@
                            == cleared(rv[j].value),
                decreases n - i,
            {
                let rule = left.remove(0);
                proof {
                    assert(rule == all[i as int]);
                    assert(left@ =~= all.skip(i + 1));
                    assert(decreases_to!(all => all[i as int]));
                    assert(decreases_to!(all[i as int] => all[i as int].value));
                }
                let value = without_trees(rule.value);
                out.push(Rule { when: rule.when, value });
                i = i + 1;
            }
            proof {
                assert(rules_view(out@) =~= cleared_rules(rv));
            }
            Producer::Match { rules: out, default, annotate, origin, tree: None }
        },
        Producer::Parent(inner) => Producer::Parent(Box::new(without_trees(*inner))),
        other => other,
    }
}

impl Producer {
    /// Gives every large rule table a net over its conditions.
    pub fn compile_trees(&mut self, max_depth: usize, sets: &ValueSets, readings: &Readings)
        requires
            compilable(old(self)@),
            sound(old(self)@),
        ensures
            is_compiled(old(self)@, final(self)@, max_depth as int, sets@, readings@),
            sound(final(self)@),
    {
        let mut own = Producer::Const { value: Value::Null, annotate: Fields::new() };
        std::mem::swap(self, &mut own);
        *self = compiled(own, max_depth, sets, readings);
    }

    /// Takes every net out again.
    pub fn clear_trees(&mut self)
        ensures
            final(self)@ == cleared(old(self)@),
    {
        let mut own = Producer::Const { value: Value::Null, annotate: Fields::new() };
        std::mem::swap(self, &mut own);
        *self = without_trees(own);
    }
}

// ── Nets change no result ───────────────────────────────────────────────────────────────────

/// Whether a producer has no net.
pub open spec fn treeless(p: ProducerV) -> bool {
    p == cleared(p)
}

/// Whether the nets of the producer read the object as the conditions do: at every table that the
/// object comes to, the conditions are expressible, the object's side is one that conditions know,
/// and the texts that they name are read alike.
pub open spec fn agreeable(p: ProducerV, c: CtxV, r: ReadingsV) -> bool
    decreases p,
{
    match p {
        ProducerV::Match { rules, .. } => {
            &&& all_agreeable(rules, c, r)
            &&& rules.len() <= usize::MAX
            &&& rules.len() > MATCH_TREE_MIN_RULES ==> {
                &&& side_known(c)
                &&& reads_alike(initial(conditions(whens(rules), c.value_sets), false), c, r)
                &&& forall|i: int| 0 <= i < rules.len() ==> expressible((#[trigger] rules[i]).when)
            }
        },
        ProducerV::Parent(inner) => c.parent is Some ==> agreeable(
            *inner,
            c.with_obj(c.parent->0),
            r,
        ),
        _ => true,
    }
}

/// Whether the producer of every rule is agreeable.
pub open spec fn all_agreeable(rules: Seq<RuleV>, c: CtxV, r: ReadingsV) -> bool
    decreases rules,
{
    forall|i: int| 0 <= i < rules.len() ==> agreeable((#[trigger] rules[i]).value, c, r)
}

proof fn lemma_holding_grows(fs: Seq<FilterV>, k: int, n: int, c: CtxV)
    requires
        0 <= k <= n <= fs.len(),
    ensures
        holding(fs, k, c).len() <= holding(fs, n, c).len(),
        forall|i: int|
            0 <= i < holding(fs, k, c).len() ==> #[trigger] holding(fs, n, c)[i] == holding(
                fs,
                k,
                c,
            )[i],
    decreases n,
{
    if k < n {
        lemma_holding_grows(fs, k, n - 1, c);
    }
}

proof fn lemma_scan_is_attempt(
    rules: Seq<RuleV>,
    k: int,
    own: Map<Seq<char>, ValueV>,
    c: CtxV,
)
    requires
        0 <= k <= rules.len() <= usize::MAX,
    ensures
        scan(rules, k, own, c) == attempt(
            rules,
            holding(whens(rules), rules.len() as int, c),
            holding(whens(rules), k, c).len() as int,
            own,
            c,
        ),
    decreases rules.len() - k,
{
    let fs = whens(rules);
    if k < rules.len() {
        lemma_scan_is_attempt(rules, k + 1, own, c);
        lemma_holding_grows(fs, k + 1, rules.len() as int, c);
        assert(fs[k] == rules[k].when);
        if holds(rules[k].when, c) {
            let h = holding(fs, k, c);
            assert(holding(fs, k + 1, c) == h.push(k as usize));
            assert(holding(fs, k + 1, c)[h.len() as int] == k);
            assert(holding(fs, rules.len() as int, c)[h.len() as int] == k);
        } else {
            assert(holding(fs, k + 1, c) == holding(fs, k, c));
        }
    }
}

proof fn lemma_attempt_same(
    rules: Seq<RuleV>,
    rules2: Seq<RuleV>,
    places: Seq<usize>,
    k: int,
    own: Map<Seq<char>, ValueV>,
    c: CtxV,
)
    requires
        0 <= k <= places.len(),
        rules2.len() == rules.len(),
        forall|i: int|
            0 <= i < rules.len() ==> produced((#[trigger] rules2[i]).value, c) == produced(
                rules[i].value,
                c,
            ),
    ensures
        attempt(rules2, places, k, own, c) == attempt(rules, places, k, own, c),
    decreases places.len() - k,
{
    if k < places.len() {
        lemma_attempt_same(rules, rules2, places, k + 1, own, c);
    }
}

proof fn lemma_scan_same(
    rules: Seq<RuleV>,
    rules2: Seq<RuleV>,
    k: int,
    own: Map<Seq<char>, ValueV>,
    c: CtxV,
)
    requires
        0 <= k <= rules.len(),
        rules2.len() == rules.len(),
        forall|i: int|
            0 <= i < rules.len() ==> (#[trigger] rules2[i]).when == rules[i].when && produced(
                rules2[i].value,
                c,
            ) == produced(rules[i].value, c),
    ensures
        scan(rules2, k, own, c) == scan(rules, k, own, c),
    decreases rules.len() - k,
{
    if k < rules.len() {
        lemma_scan_same(rules, rules2, k + 1, own, c);
    }
}

/// A producer with nets gives what it gives without.
pub proof fn nets_change_no_result(
    p: ProducerV,
    q: ProducerV,
    max_depth: int,
    r: ReadingsV,
    c: CtxV,
)
    requires
        treeless(p),
        is_compiled(p, q, max_depth, c.value_sets, r),
        agreeable(p, c, r),
    ensures
        produced(q, c) == produced(p, c),
    decreases p,
{
    match p {
        ProducerV::Match { rules, default, annotate, tree, .. } => {
            let rules2 = q->rules;
            assert(tree is None);
            assert(all_compiled(rules, rules2, max_depth, c.value_sets, r));
            assert(all_agreeable(rules, c, r));
            assert forall|i: int| 0 <= i < rules.len() implies (#[trigger] rules2[i]).when
                == rules[i].when && produced(rules2[i].value, c) == produced(rules[i].value, c) by {
                assert(decreases_to!(rules => rules[i]));
                assert(decreases_to!(rules[i] => rules[i].value));
                assert(cleared_rules(rules)[i] == rules[i]);
                nets_change_no_result(rules[i].value, rules2[i].value, max_depth, r, c);
            }
            if rules.len() > MATCH_TREE_MIN_RULES {
                let fs = whens(rules);
                let t = q->tree->0;
                assert forall|i: int| 0 <= i < fs.len() implies expressible(#[trigger] fs[i]) by {
                    assert(expressible(rules[i].when));
                }
                net_agrees_with_full_walk(t, fs, max_depth, r, c);
                lemma_attempt_same(rules, rules2, net_matches(t, c), 0, annotate, c);
                lemma_scan_is_attempt(rules, 0, annotate, c);
            } else {
                lemma_scan_same(rules, rules2, 0, annotate, c);
            }
        },
        ProducerV::Parent(inner) => {
            if c.parent is Some {
                nets_change_no_result(
                    *inner,
                    *(q->Parent_0),
                    max_depth,
                    r,
                    c.with_obj(c.parent->0),
                );
            }
        },
        _ => {},
    }
}

proof fn lemma_cleared_twice(p: ProducerV)
    ensures
        cleared(cleared(p)) == cleared(p),
    decreases p,
{
    match p {
        ProducerV::Match { rules, .. } => {
            assert forall|i: int| 0 <= i < rules.len() implies cleared(
                #[trigger] cleared(rules[i].value),
            ) == cleared(rules[i].value) by {
                assert(decreases_to!(rules => rules[i]));
                assert(decreases_to!(rules[i] => rules[i].value));
                lemma_cleared_twice(rules[i].value);
            }
            assert(cleared_rules(cleared_rules(rules)) =~= cleared_rules(rules)) by {
                assert forall|i: int| 0 <= i < rules.len() implies cleared_rules(
                    cleared_rules(rules),
                )[i] == #[trigger] cleared_rules(rules)[i] by {
                    assert(cleared(cleared(rules[i].value)) == cleared(rules[i].value));
                }
            }
        },
        ProducerV::Parent(inner) => {
            lemma_cleared_twice(*inner);
        },
        _ => {},
    }
}

proof fn lemma_cleared_sound(p: ProducerV)
    ensures
        sound(cleared(p)),
    decreases p,
{
    match p {
        ProducerV::Match { rules, .. } => {
            assert forall|i: int| 0 <= i < rules.len() implies sound(
                (#[trigger] cleared_rules(rules)[i]).value,
            ) by {
                assert(decreases_to!(rules => rules[i]));
                assert(decreases_to!(rules[i] => rules[i].value));
                lemma_cleared_sound(rules[i].value);
            }
            assert(all_sound(cleared_rules(rules)));
        },
        ProducerV::Parent(inner) => {
            lemma_cleared_sound(*inner);
        },
        _ => {},
    }
}

/// Clearing leaves no net behind, and a producer without nets is sound.
pub proof fn clearing_leaves_no_net(p: ProducerV)
    ensures
        treeless(cleared(p)),
        sound(cleared(p)),
{
    lemma_cleared_twice(p);
    lemma_cleared_sound(p);
}

/// Putting nets in and taking them out again gives back a producer that had none.
pub proof fn clearing_undoes_compiling(
    p: ProducerV,
    q: ProducerV,
    max_depth: int,
    sets: Seq<(Seq<char>, Seq<Seq<char>>)>,
    r: ReadingsV,
)
    requires
        treeless(p),
        is_compiled(p, q, max_depth, sets, r),
    ensures
        cleared(q) == p,
    decreases p,
{
    match p {
        ProducerV::Match { rules, .. } => {
            let rules2 = q->rules;
            assert(all_compiled(rules, rules2, max_depth, sets, r));
            assert forall|i: int| 0 <= i < rules.len() implies #[trigger] cleared_rules(rules2)[i]
                == rules[i] by {
                assert(decreases_to!(rules => rules[i]));
                assert(decreases_to!(rules[i] => rules[i].value));
                assert(cleared_rules(rules)[i] == rules[i]);
                assert(rules2[i].when == rules[i].when);
                clearing_undoes_compiling(rules[i].value, rules2[i].value, max_depth, sets, r);
            }
            assert(cleared_rules(rules2) =~= rules);
        },
        ProducerV::Parent(inner) => {
            clearing_undoes_compiling(*inner, *(q->Parent_0), max_depth, sets, r);
        },
        _ => {},
    }
}

} // verus!

//! Conditions with their macros put in place and their sanitizers written out, and the overlaps of
//! categories made of them.
use vstd::prelude::*;

use crate::assoc::lookup;
use crate::categorize::categories;
use crate::categorize::categories::{
    conditions_expressible, excludes, last_named, CategoryV,
};
use crate::categorize::expr::{all_expressible, expr_holds, expr_of, expressible, Expr};
use crate::categorize::faithful::expression_is_faithful;
use crate::categorize::linter;
use crate::categorize::linter::{are_overlaps, no_overlap_is_missed, overlapping, Overlap};
use crate::classify::categories::{CategoriesFile, CategoryDef};
use crate::classify::chain::{
    all_spelled, seen_number, seen_text, written_chain, written_chains_keep_meaning,
};
use crate::classify::filter::{
    all_hold, any_holds, filters, find_macro, group_filters, holds_within, macros_view, number_at,
    read_as, value_at, CategoryCtxV, Filter, FilterV,
};
use crate::classify::sanitize::{sanitized_by, DefV, SanitizerRegistry};
use crate::decision_tree::tree::DecisionTree;
use crate::lang;
use crate::lang::context::{CtxV, ValueSets};
use crate::lang::extract::{first_set, text_read, Extract, ExtractV};
use crate::lang::sanitize::{sanitized, SanitizerV};
use crate::model::{models, Model};
use crate::number::Bound;

verus! {

// ── Macros in place ─────────────────────────────────────────────────────────────────────────

/// Whether every macro in a condition, and in those, is known, at most `n` deep, and every question
/// for the first of some tags names one.
pub open spec fn resolves(f: FilterV, macros: Seq<(Seq<char>, FilterV)>, n: nat) -> bool
    decreases n, f,
{
    match f {
        FilterV::And(fs) => all_resolve(fs, macros, n),
        FilterV::Or(fs) => all_resolve(fs, macros, n),
        FilterV::Not(g) => resolves(*g, macros, n),
        FilterV::Macro(name) => match lookup(macros, name) {
            Some(g) => n > 0 && resolves(g, macros, (n - 1) as nat),
            None => false,
        },
        FilterV::FirstTagExists { first_tag, .. } => first_tag.len() > 0,
        _ => true,
    }
}

/// Whether every condition of a list resolves.
pub open spec fn all_resolve(fs: Seq<FilterV>, macros: Seq<(Seq<char>, FilterV)>, n: nat) -> bool
    decreases n, fs,
{
    forall|i: int| 0 <= i < fs.len() ==> resolves(#[trigger] fs[i], macros, n)
}

/// Whether a condition can be written without macros.
pub open spec fn is_resolvable(f: FilterV, macros: Seq<(Seq<char>, FilterV)>) -> bool {
    exists|n: nat| #[trigger] resolves(f, macros, n)
}

/// The read of one tag, its text behind a chain.
pub open spec fn tag_read(tag: Seq<char>, chain: Seq<SanitizerV>) -> ExtractV {
    ExtractV::Value { key: tag, sanitize: chain }
}

/// The read of one tag as it stands.
pub open spec fn raw_tag(tag: Seq<char>) -> ExtractV {
    tag_read(tag, Seq::empty())
}

/// The read of the first tag of some that is set, its text behind a chain.
pub open spec fn first_read(tags: Seq<Seq<char>>, chain: Seq<SanitizerV>) -> ExtractV {
    ExtractV::Candidates { keys: tags, sanitize: chain }
}

/// A condition on the parent.
pub open spec fn on_parent(f: lang::filter::FilterV) -> lang::filter::FilterV {
    lang::filter::FilterV::Parent(Box::new(f))
}

/// The condition with its macros put in place, followed `n` deep, and its sanitizers written out.
pub open spec fn inlined(
    f: FilterV,
    macros: Seq<(Seq<char>, FilterV)>,
    reg: Seq<(Seq<char>, DefV)>,
    n: nat,
) -> lang::filter::FilterV
    decreases n, f,
{
    match f {
        FilterV::Bool(b) => lang::filter::FilterV::Bool(b),
        FilterV::And(fs) => lang::filter::FilterV::And(all_inlined(fs, macros, reg, n)),
        FilterV::Or(fs) => lang::filter::FilterV::Or(all_inlined(fs, macros, reg, n)),
        FilterV::Not(g) => lang::filter::FilterV::Not(Box::new(inlined(*g, macros, reg, n))),
        FilterV::Macro(name) => match lookup(macros, name) {
            Some(g) => if n > 0 {
                inlined(g, macros, reg, (n - 1) as nat)
            } else {
                lang::filter::FilterV::Bool(false)
            },
            None => lang::filter::FilterV::Bool(false),
        },
        FilterV::TagInSet { tag, in_set } => lang::filter::FilterV::InSet(raw_tag(tag), in_set),
        FilterV::TagIn { tag, within, sanitize } => lang::filter::FilterV::In(tag_read(tag, written_chain(reg, sanitize)), within),
        FilterV::TagContains { tag, contains } => lang::filter::FilterV::Contains(
            raw_tag(tag),
            contains,
            false,
        ),
        FilterV::TagStartsWith { tag, starts_with } => lang::filter::FilterV::StartsWith(
            raw_tag(tag),
            starts_with,
        ),
        FilterV::TagEndsWith { tag, ends_with } => lang::filter::FilterV::EndsWith(
            raw_tag(tag),
            ends_with,
        ),
        FilterV::TagExists { tag, exists } => lang::filter::FilterV::Exists(raw_tag(tag), exists),
        FilterV::TagEq { tag, eq, sanitize } => lang::filter::FilterV::Eq(tag_read(tag, written_chain(reg, sanitize)), eq),
        FilterV::FirstTagInSet { first_tag, in_set, sanitize } => lang::filter::FilterV::InSet(
            first_read(first_tag, written_chain(reg, sanitize)),
            in_set,
        ),
        FilterV::FirstTagIn { first_tag, within, sanitize } => lang::filter::FilterV::In(
            first_read(first_tag, written_chain(reg, sanitize)),
            within,
        ),
        FilterV::FirstTagExists { first_tag, exists } => lang::filter::FilterV::Exists(
            first_read(first_tag, Seq::empty()),
            exists,
        ),
        FilterV::ParentTagIn { parent_tag, within, sanitize } => on_parent(
            lang::filter::FilterV::In(tag_read(parent_tag, written_chain(reg, sanitize)), within),
        ),
        FilterV::ParentTagContains { parent_tag, contains } => on_parent(
            lang::filter::FilterV::Contains(raw_tag(parent_tag), contains, false),
        ),
        FilterV::ParentTagStartsWith { parent_tag, starts_with } => on_parent(
            lang::filter::FilterV::StartsWith(raw_tag(parent_tag), starts_with),
        ),
        FilterV::ParentTagEndsWith { parent_tag, ends_with } => on_parent(
            lang::filter::FilterV::EndsWith(raw_tag(parent_tag), ends_with),
        ),
        FilterV::ParentTagEq { parent_tag, eq, sanitize } => on_parent(
            lang::filter::FilterV::Eq(tag_read(parent_tag, written_chain(reg, sanitize)), eq),
        ),
        FilterV::Side { side } => lang::filter::FilterV::AnnotationEq("_side"@, side),
        FilterV::Prefix { prefix } => lang::filter::FilterV::AnnotationEq("_prefix"@, prefix),
        FilterV::Infix { infix } => lang::filter::FilterV::AnnotationEq("_infix"@, infix),
        FilterV::HasKeyPrefix { has_key_prefix } => lang::filter::FilterV::HasKeyPrefix(
            has_key_prefix,
        ),
        FilterV::HasParent { has_parent } => lang::filter::FilterV::HasParent(has_parent),
        FilterV::NumLt { num, lt, sanitize } => lang::filter::FilterV::NumRange(
            tag_read(num, written_chain(reg, sanitize)),
            Bound::Unbounded,
            Bound::Excluded(lt),
        ),
        FilterV::NumLte { num, lte, sanitize } => lang::filter::FilterV::NumRange(
            tag_read(num, written_chain(reg, sanitize)),
            Bound::Unbounded,
            Bound::Included(lte),
        ),
        FilterV::NumGt { num, gt, sanitize } => lang::filter::FilterV::NumRange(
            tag_read(num, written_chain(reg, sanitize)),
            Bound::Excluded(gt),
            Bound::Unbounded,
        ),
        FilterV::NumGte { num, gte, sanitize } => lang::filter::FilterV::NumRange(
            tag_read(num, written_chain(reg, sanitize)),
            Bound::Included(gte),
            Bound::Unbounded,
        ),
    }
}

/// The conditions of a list with their macros put in place.
pub open spec fn all_inlined(
    fs: Seq<FilterV>,
    macros: Seq<(Seq<char>, FilterV)>,
    reg: Seq<(Seq<char>, DefV)>,
    n: nat,
) -> Seq<lang::filter::FilterV>
    decreases n, fs,
{
    Seq::new(
        fs.len(),
        |i: int|
            if 0 <= i < fs.len() {
                inlined(fs[i], macros, reg, n)
            } else {
                arbitrary()
            },
    )
}

/// How deep the macros of a condition are followed.
pub open spec fn resolve_depth(f: FilterV, macros: Seq<(Seq<char>, FilterV)>) -> nat {
    choose|n: nat| #[trigger] resolves(f, macros, n)
}

/// The condition with its macros put in place and its sanitizers written out.
pub open spec fn bare(
    f: FilterV,
    macros: Seq<(Seq<char>, FilterV)>,
    reg: Seq<(Seq<char>, DefV)>,
) -> lang::filter::FilterV {
    inlined(f, macros, reg, resolve_depth(f, macros))
}

/// How deep macros are followed makes no difference, as long as it is deep enough.
pub proof fn inlining_depth_does_not_matter(
    f: FilterV,
    macros: Seq<(Seq<char>, FilterV)>,
    reg: Seq<(Seq<char>, DefV)>,
    n: nat,
    m: nat,
)
    requires
        resolves(f, macros, n),
        resolves(f, macros, m),
    ensures
        inlined(f, macros, reg, n) == inlined(f, macros, reg, m),
    decreases n, f,
{
    match f {
        FilterV::And(fs) => {
            lemma_lists_alike(fs, macros, reg, n, m);
        },
        FilterV::Or(fs) => {
            lemma_lists_alike(fs, macros, reg, n, m);
        },
        FilterV::Not(g) => {
            inlining_depth_does_not_matter(*g, macros, reg, n, m);
        },
        FilterV::Macro(name) => {
            inlining_depth_does_not_matter(
                lookup(macros, name)->0,
                macros,
                reg,
                (n - 1) as nat,
                (m - 1) as nat,
            );
        },
        _ => {},
    }
}

proof fn lemma_lists_alike(
    fs: Seq<FilterV>,
    macros: Seq<(Seq<char>, FilterV)>,
    reg: Seq<(Seq<char>, DefV)>,
    n: nat,
    m: nat,
)
    requires
        all_resolve(fs, macros, n),
        all_resolve(fs, macros, m),
    ensures
        all_inlined(fs, macros, reg, n) == all_inlined(fs, macros, reg, m),
    decreases n, fs,
{
    assert forall|i: int| 0 <= i < fs.len() implies #[trigger] all_inlined(fs, macros, reg, n)[i]
        == all_inlined(fs, macros, reg, m)[i] by {
        inlining_depth_does_not_matter(fs[i], macros, reg, n, m);
    }
    assert(all_inlined(fs, macros, reg, n) =~= all_inlined(fs, macros, reg, m));
}

// ── The same, executed ──────────────────────────────────────────────────────────────────────

/// Whether every macro in a condition, and in those, is known, at most `depth` deep, and every
/// question for the first of some tags names one.
pub fn resolves_within(f: &Filter, macros: &Vec<(String, Filter)>, depth: usize) -> (r: bool)
    ensures
        r == resolves(f@, macros_view(macros@), depth as nat),
        r ==> is_resolvable(f@, macros_view(macros@)),
    decreases depth, f,
{
    let r: bool = match f {
        Filter::And { and } => all_resolve_within(and, macros, depth),
        Filter::Or { or } => all_resolve_within(or, macros, depth),
        Filter::Not { not } => resolves_within(not, macros, depth),
        Filter::Macro { name } => match find_macro(macros, name.as_str()) {
            Some(g) => depth > 0 && resolves_within(g, macros, depth - 1),
            None => false,
        },
        Filter::FirstTagExists { first_tag, .. } => {
            assert(models(first_tag@).len() == first_tag@.len());
            first_tag.len() > 0
        },
        _ => true,
    };
    assert(r ==> resolves(f@, macros_view(macros@), depth as nat));
    r
}

fn all_resolve_within(v: &Vec<Filter>, macros: &Vec<(String, Filter)>, depth: usize) -> (r: bool)
    ensures
        r == all_resolve(filters(v@), macros_view(macros@), depth as nat),
    decreases depth, v,
{
    broadcast use group_filters;

    let ghost fv = filters(v@);
    let mut i: usize = 0;
    while i < v.len()
        invariant
            0 <= i <= v@.len(),
            fv == filters(v@),
            forall|j: int|
                0 <= j < i ==> resolves(#[trigger] fv[j], macros_view(macros@), depth as nat),
        decreases v.len() - i,
    {
        proof {
            assert(decreases_to!(v@ => v@[i as int]));
            assert(fv[i as int] == v@[i as int]@);
        }
        if !resolves_within(&v[i], macros, depth) {
            return false;
        }
        i = i + 1;
    }
    proof {
        assert(all_resolve(fv, macros_view(macros@), depth as nat));
    }
    true
}

fn read_tag(tag: &String, reg: &SanitizerRegistry, sanitize: &Option<String>) -> (r: Extract)
    ensures
        r@ == tag_read(tag@, written_chain(reg@, sanitize.model())),
{
    Extract::Value { key: tag.clone(), sanitize: reg.chain(sanitize) }
}

fn read_raw(tag: &String) -> (r: Extract)
    ensures
        r@ == raw_tag(tag@),
{
    let r = Extract::Value { key: tag.clone(), sanitize: Vec::new() };
    assert(r@->Value_sanitize =~= Seq::empty());
    r
}

fn read_first(tags: &Vec<String>, reg: &SanitizerRegistry, sanitize: &Option<String>) -> (r: Extract)
    ensures
        r@ == first_read(models(tags@), written_chain(reg@, sanitize.model())),
{
    Extract::Candidates { keys: tags.copy(), sanitize: reg.chain(sanitize) }
}

fn of_parent(f: lang::filter::Filter) -> (r: lang::filter::Filter)
    ensures
        r@ == on_parent(f@),
{
    lang::filter::Filter::Parent { parent: Box::new(f) }
}

fn inline_within(
    f: &Filter,
    macros: &Vec<(String, Filter)>,
    reg: &SanitizerRegistry,
    Ghost(n): Ghost<nat>,
) -> (r: lang::filter::Filter)
    requires
        resolves(f@, macros_view(macros@), n),
    ensures
        r@ == inlined(f@, macros_view(macros@), reg@, n),
    decreases n, f,
{
    match f {
        Filter::Bool(b) => lang::filter::Filter::Bool(*b),
        Filter::And { and } => lang::filter::Filter::And {
            and: inline_all(and, macros, reg, Ghost(n)),
        },
        Filter::Or { or } => lang::filter::Filter::Or { or: inline_all(or, macros, reg, Ghost(n)) },
        Filter::Not { not } => lang::filter::Filter::Not {
            not: Box::new(inline_within(not, macros, reg, Ghost(n))),
        },
        Filter::Macro { name } => match find_macro(macros, name.as_str()) {
            Some(g) => inline_within(g, macros, reg, Ghost((n - 1) as nat)),
            None => lang::filter::Filter::Bool(false),
        },
        Filter::TagInSet { tag, in_set } => lang::filter::Filter::InSet {
            extract: read_raw(tag),
            in_set: in_set.clone(),
        },
        Filter::TagIn { tag, within, sanitize } => lang::filter::Filter::In {
            extract: read_tag(tag, reg, sanitize),
            within: within.copy(),
        },
        Filter::TagContains { tag, contains } => lang::filter::Filter::Contains {
            extract: read_raw(tag),
            contains: contains.clone(),
            case_insensitive: false,
        },
        Filter::TagStartsWith { tag, starts_with } => lang::filter::Filter::StartsWith {
            extract: read_raw(tag),
            starts_with: starts_with.clone(),
        },
        Filter::TagEndsWith { tag, ends_with } => lang::filter::Filter::EndsWith {
            extract: read_raw(tag),
            ends_with: ends_with.clone(),
        },
        Filter::TagExists { tag, exists } => lang::filter::Filter::Exists {
            extract: read_raw(tag),
            exists: *exists,
        },
        Filter::TagEq { tag, eq, sanitize } => lang::filter::Filter::Eq {
            extract: read_tag(tag, reg, sanitize),
            eq: eq.clone(),
        },
        Filter::FirstTagInSet { first_tag, in_set, sanitize } => lang::filter::Filter::InSet {
            extract: read_first(first_tag, reg, sanitize),
            in_set: in_set.clone(),
        },
        Filter::FirstTagIn { first_tag, within, sanitize } => lang::filter::Filter::In {
            extract: read_first(first_tag, reg, sanitize),
            within: within.copy(),
        },
        Filter::FirstTagExists { first_tag, exists } => lang::filter::Filter::Exists {
            extract: read_first(first_tag, reg, &None),
            exists: *exists,
        },
        Filter::ParentTagIn { parent_tag, within, sanitize } => of_parent(
            lang::filter::Filter::In { extract: read_tag(parent_tag, reg, sanitize), within: within.copy() },
        ),
        Filter::ParentTagContains { parent_tag, contains } => of_parent(
            lang::filter::Filter::Contains {
                extract: read_raw(parent_tag),
                contains: contains.clone(),
                case_insensitive: false,
            },
        ),
        Filter::ParentTagStartsWith { parent_tag, starts_with } => of_parent(
            lang::filter::Filter::StartsWith {
                extract: read_raw(parent_tag),
                starts_with: starts_with.clone(),
            },
        ),
        Filter::ParentTagEndsWith { parent_tag, ends_with } => of_parent(
            lang::filter::Filter::EndsWith {
                extract: read_raw(parent_tag),
                ends_with: ends_with.clone(),
            },
        ),
        Filter::ParentTagEq { parent_tag, eq, sanitize } => of_parent(
            lang::filter::Filter::Eq { extract: read_tag(parent_tag, reg, sanitize), eq: eq.clone() },
        ),
        Filter::Side { side } => lang::filter::Filter::AnnotationEq {
            key: "_side".to_owned(),
            eq: side.clone(),
        },
        Filter::Prefix { prefix } => lang::filter::Filter::AnnotationEq {
            key: "_prefix".to_owned(),
            eq: prefix.clone(),
        },
        Filter::Infix { infix } => lang::filter::Filter::AnnotationEq {
            key: "_infix".to_owned(),
            eq: infix.clone(),
        },
        Filter::HasKeyPrefix { has_key_prefix } => lang::filter::Filter::HasKeyPrefix {
            has_key_prefix: has_key_prefix.clone(),
        },
        Filter::HasParent { has_parent } => lang::filter::Filter::HasParent {
            has_parent: *has_parent,
        },
        Filter::NumLt { num, lt, sanitize } => lang::filter::Filter::NumRange {
            extract: read_tag(num, reg, sanitize),
            min: Bound::Unbounded,
            max: Bound::Excluded(*lt),
        },
        Filter::NumLte { num, lte, sanitize } => lang::filter::Filter::NumRange {
            extract: read_tag(num, reg, sanitize),
            min: Bound::Unbounded,
            max: Bound::Included(*lte),
        },
        Filter::NumGt { num, gt, sanitize } => lang::filter::Filter::NumRange {
            extract: read_tag(num, reg, sanitize),
            min: Bound::Excluded(*gt),
            max: Bound::Unbounded,
        },
        Filter::NumGte { num, gte, sanitize } => lang::filter::Filter::NumRange {
            extract: read_tag(num, reg, sanitize),
            min: Bound::Included(*gte),
            max: Bound::Unbounded,
        },
    }
}

fn inline_all(
    v: &Vec<Filter>,
    macros: &Vec<(String, Filter)>,
    reg: &SanitizerRegistry,
    Ghost(n): Ghost<nat>,
) -> (r: Vec<lang::filter::Filter>)
    requires
        all_resolve(filters(v@), macros_view(macros@), n),
    ensures
        lang::filter::filters(r@) == all_inlined(filters(v@), macros_view(macros@), reg@, n),
    decreases n, v,
{
    broadcast use group_filters;
    broadcast use lang::filter::group_filters;

    let ghost fv = filters(v@);
    let mut out: Vec<lang::filter::Filter> = Vec::new();
    let mut i: usize = 0;
    while i < v.len()
        invariant
            0 <= i <= v@.len(),
            fv == filters(v@),
            all_resolve(fv, macros_view(macros@), n),
            out@.len() == i,
            forall|j: int|
                0 <= j < i ==> (#[trigger] out@[j])@ == inlined(fv[j], macros_view(macros@), reg@, n),
        decreases v.len() - i,
    {
        proof {
            assert(decreases_to!(v@ => v@[i as int]));
            assert(fv[i as int] == v@[i as int]@);
        }
        out.push(inline_within(&v[i], macros, reg, Ghost(n)));
        i = i + 1;
    }
    proof {
        assert(lang::filter::filters(out@) =~= all_inlined(fv, macros_view(macros@), reg@, n));
    }
    out
}

/// The condition with its macros put in place and its sanitizers written out.
pub fn without_macros(
    f: &Filter,
    macros: &Vec<(String, Filter)>,
    sanitizers: &SanitizerRegistry,
) -> (r: lang::filter::Filter)
    requires
        is_resolvable(f@, macros_view(macros@)),
    ensures
        r@ == bare(f@, macros_view(macros@), sanitizers@),
{
    let ghost n = resolve_depth(f@, macros_view(macros@));
    inline_within(f, macros, sanitizers, Ghost(n))
}

proof fn lemma_inlined_expressible(
    f: FilterV,
    macros: Seq<(Seq<char>, FilterV)>,
    reg: Seq<(Seq<char>, DefV)>,
    n: nat,
)
    ensures
        expressible(inlined(f, macros, reg, n)),
    decreases n, f,
{
    reveal_with_fuel(expressible, 2);
    match f {
        FilterV::And(fs) => {
            lemma_all_expressible(fs, macros, reg, n);
        },
        FilterV::Or(fs) => {
            lemma_all_expressible(fs, macros, reg, n);
        },
        FilterV::Not(g) => {
            lemma_inlined_expressible(*g, macros, reg, n);
        },
        FilterV::Macro(name) => {
            if lookup(macros, name) is Some && n > 0 {
                lemma_inlined_expressible(lookup(macros, name)->0, macros, reg, (n - 1) as nat);
            }
        },
        _ => {},
    }
}

proof fn lemma_all_expressible(
    fs: Seq<FilterV>,
    macros: Seq<(Seq<char>, FilterV)>,
    reg: Seq<(Seq<char>, DefV)>,
    n: nat,
)
    ensures
        all_expressible(all_inlined(fs, macros, reg, n)),
    decreases n, fs,
{
    assert forall|i: int| 0 <= i < fs.len() implies expressible(
        #[trigger] all_inlined(fs, macros, reg, n)[i],
    ) by {
        lemma_inlined_expressible(fs[i], macros, reg, n);
    }
}

/// The condition as an expression over what it asks of tags.
pub fn filter_to_expr(
    f: &Filter,
    macros: &Vec<(String, Filter)>,
    sanitizers: &SanitizerRegistry,
    sets: &ValueSets,
) -> (r: Expr)
    requires
        is_resolvable(f@, macros_view(macros@)),
    ensures
        r@ == expr_of(bare(f@, macros_view(macros@), sanitizers@), sets@),
{
    proof {
        lemma_inlined_expressible(
            f@,
            macros_view(macros@),
            sanitizers@,
            resolve_depth(f@, macros_view(macros@)),
        );
    }
    crate::categorize::expr::filter_to_expr(&without_macros(f, macros, sanitizers), sets)
}

// ── Overlaps ────────────────────────────────────────────────────────────────────────────────

/// A category whose condition has its macros put in place and its sanitizers written out.
pub open spec fn bare_category(
    c: CategoryDef,
    macros: Seq<(Seq<char>, FilterV)>,
    reg: Seq<(Seq<char>, DefV)>,
) -> CategoryV {
    CategoryV {
        id: c.id@,
        condition: bare(c.condition@, macros, reg),
        excludes: c.excludes.model(),
    }
}

/// The categories of a file, their conditions written without references by name.
pub open spec fn bare_categories(
    file: CategoriesFile,
    reg: Seq<(Seq<char>, DefV)>,
) -> Seq<CategoryV> {
    file.categories@.map_values(
        |c: CategoryDef| bare_category(c, macros_view(file.macros@), reg),
    )
}

/// Whether the conditions of a file can be written without macros.
pub open spec fn file_resolves(file: CategoriesFile) -> bool {
    forall|i: int|
        0 <= i < file.categories@.len() ==> is_resolvable(
            (#[trigger] file.categories@[i]).condition@,
            macros_view(file.macros@),
        )
}

/// The overlapping pairs of categories, in the order of the list.
pub fn find_overlaps(
    file: &CategoriesFile,
    sanitizers: &SanitizerRegistry,
    sets: &ValueSets,
) -> (r: Vec<Overlap>)
    requires
        file_resolves(*file),
    ensures
        are_overlaps(r@, bare_categories(*file, sanitizers@), sets@),
{
    let ghost macros = macros_view(file.macros@);
    let ghost wanted = bare_categories(*file, sanitizers@);
    let mut out: Vec<categories::CategoryDef> = Vec::new();
    let mut i: usize = 0;
    while i < file.categories.len()
        invariant
            i <= file.categories@.len(),
            macros == macros_view(file.macros@),
            wanted == bare_categories(*file, sanitizers@),
            file_resolves(*file),
            out@.len() == i,
            forall|j: int| 0 <= j < i ==> (#[trigger] out@[j])@ == wanted[j],
        decreases file.categories.len() - i,
    {
        let c: &CategoryDef = &file.categories[i];
        out.push(
            categories::CategoryDef {
                id: c.id.clone(),
                condition: without_macros(&c.condition, &file.macros, sanitizers),
                excludes: c.excludes.copy(),
            },
        );
        i = i + 1;
    }
    let plain = categories::CategoriesFile {
        macros: Vec::new(),
        categories: out,
        order: Vec::new(),
        tree: DecisionTree::Leaf(Vec::new()),
    };
    proof {
        assert(plain.defs() =~= wanted);
        assert forall|j: int| 0 <= j < wanted.len() implies expressible(
            (#[trigger] wanted[j]).condition,
        ) by {
            let f = file.categories@[j].condition@;
            lemma_inlined_expressible(f, macros, sanitizers@, resolve_depth(f, macros));
        }
        assert(conditions_expressible(plain.defs()));
    }
    linter::find_overlaps(&plain, sets)
}

// ── What is kept ────────────────────────────────────────────────────────────────────────────

/// Whether two contexts show the same object: the same tags, parent, side, prefix and infix, read
/// with the same sets and numbers.
pub open spec fn same_object(c: CategoryCtxV, d: CtxV) -> bool {
    &&& d.obj == c.tags
    &&& d.parent == c.parent_tags
    &&& (c.parent_highway is Some) == (c.parent_tags is Some)
    &&& d.side() == c.side.spec_name()
    &&& d.annotation("_prefix"@) == c.prefix
    &&& d.annotation("_infix"@) == c.infix
    &&& d.value_sets == c.value_sets
    &&& d.readings == c.readings
}

proof fn lemma_chain_read(
    raw: Seq<char>,
    sanitize: Option<Seq<char>>,
    c: CategoryCtxV,
)
    requires
        all_spelled(c.sanitizers),
    ensures
        seen_text(sanitized(written_chain(c.sanitizers, sanitize), raw, c.readings)) == read_as(
            Some(raw),
            sanitize,
            c,
        ),
        seen_number(
            sanitized(written_chain(c.sanitizers, sanitize), raw, c.readings),
            c.readings,
        ) == match sanitize {
            None => c.readings.number(raw),
            Some(name) => seen_number(
                sanitized_by(c.sanitizers, name, raw, c.readings),
                c.readings,
            ),
        },
{
    match sanitize {
        Some(name) => {
            written_chains_keep_meaning(c.sanitizers, name, raw, c.readings);
        },
        None => {},
    }
}

proof fn lemma_tag_read(
    tag: Seq<char>,
    sanitize: Option<Seq<char>>,
    c: CategoryCtxV,
    m: Map<Seq<char>, Seq<char>>,
)
    requires
        all_spelled(c.sanitizers),
    ensures
        text_read(tag_read(tag, written_chain(c.sanitizers, sanitize)), m, c.readings) == read_as(
            value_at(m, tag),
            sanitize,
            c,
        ),
        m == c.tags ==> lang::filter::number_read(
            tag_read(tag, written_chain(c.sanitizers, sanitize)),
            m,
            c.readings,
        ) == number_at(c, tag, sanitize),
{
    reveal_with_fuel(first_set, 2);
    let e = tag_read(tag, written_chain(c.sanitizers, sanitize));
    assert(e.keys() =~= seq![tag]);
    assert(seq![tag].skip(1) =~= Seq::<Seq<char>>::empty());
    if m.dom().contains(tag) {
        lemma_chain_read(m[tag], sanitize, c);
    }
}

proof fn lemma_raw_tag(tag: Seq<char>, c: CategoryCtxV, m: Map<Seq<char>, Seq<char>>)
    requires
        all_spelled(c.sanitizers),
    ensures
        text_read(raw_tag(tag), m, c.readings) == value_at(m, tag),
{
    lemma_tag_read(tag, None, c, m);
}

proof fn lemma_first_read(tags: Seq<Seq<char>>, sanitize: Option<Seq<char>>, c: CategoryCtxV)
    requires
        all_spelled(c.sanitizers),
    ensures
        text_read(first_read(tags, written_chain(c.sanitizers, sanitize)), c.tags, c.readings)
            == read_as(first_set(c.tags, tags), sanitize, c),
{
    if first_set(c.tags, tags) is Some {
        lemma_chain_read(first_set(c.tags, tags)->0, sanitize, c);
    }
}

/// A condition says the same with its macros put in place and its sanitizers written out.
pub proof fn inlining_keeps_meaning(
    f: FilterV,
    macros: Seq<(Seq<char>, FilterV)>,
    n: nat,
    c: CategoryCtxV,
    d: CtxV,
)
    requires
        resolves(f, macros, n),
        all_spelled(c.sanitizers),
        same_object(c, d),
    ensures
        lang::filter::holds(inlined(f, macros, c.sanitizers, n), d) == holds_within(f, c, macros, n),
    decreases n, f,
{
    reveal_with_fuel(lang::filter::holds, 2);
    match f {
        FilterV::Bool(_) => {},
        FilterV::And(fs) => {
            lemma_lists_keep_meaning(fs, macros, n, c, d);
        },
        FilterV::Or(fs) => {
            lemma_lists_keep_meaning(fs, macros, n, c, d);
        },
        FilterV::Not(g) => {
            inlining_keeps_meaning(*g, macros, n, c, d);
        },
        FilterV::Macro(name) => {
            inlining_keeps_meaning(lookup(macros, name)->0, macros, (n - 1) as nat, c, d);
        },
        FilterV::TagInSet { tag, .. } => {
            lemma_raw_tag(tag, c, c.tags);
        },
        FilterV::TagIn { tag, sanitize, .. } => {
            lemma_tag_read(tag, sanitize, c, c.tags);
        },
        FilterV::TagContains { tag, .. } => {
            lemma_raw_tag(tag, c, c.tags);
        },
        FilterV::TagStartsWith { tag, .. } => {
            lemma_raw_tag(tag, c, c.tags);
        },
        FilterV::TagEndsWith { tag, .. } => {
            lemma_raw_tag(tag, c, c.tags);
        },
        FilterV::TagExists { tag, .. } => {
            lemma_raw_tag(tag, c, c.tags);
        },
        FilterV::TagEq { tag, sanitize, .. } => {
            lemma_tag_read(tag, sanitize, c, c.tags);
        },
        FilterV::FirstTagInSet { first_tag, sanitize, .. } => {
            lemma_first_read(first_tag, sanitize, c);
        },
        FilterV::FirstTagIn { first_tag, sanitize, .. } => {
            lemma_first_read(first_tag, sanitize, c);
        },
        FilterV::FirstTagExists { first_tag, .. } => {
            lemma_first_read(first_tag, None, c);
        },
        FilterV::ParentTagIn { parent_tag, sanitize, .. } => {
            lemma_on_parent(parent_tag, sanitize, c, d);
        },
        FilterV::ParentTagContains { parent_tag, .. } => {
            lemma_on_parent(parent_tag, None, c, d);
        },
        FilterV::ParentTagStartsWith { parent_tag, .. } => {
            lemma_on_parent(parent_tag, None, c, d);
        },
        FilterV::ParentTagEndsWith { parent_tag, .. } => {
            lemma_on_parent(parent_tag, None, c, d);
        },
        FilterV::ParentTagEq { parent_tag, sanitize, .. } => {
            lemma_on_parent(parent_tag, sanitize, c, d);
        },
        FilterV::Side { .. } => {},
        FilterV::Prefix { .. } => {
            reveal_strlit("_side");
            reveal_strlit("_prefix");
            assert("_side"@[1] == 's' && "_prefix"@[1] == 'p');
        },
        FilterV::Infix { .. } => {
            reveal_strlit("_side");
            reveal_strlit("_infix");
            assert("_side"@[1] == 's' && "_infix"@[1] == 'i');
        },
        FilterV::HasKeyPrefix { .. } => {},
        FilterV::HasParent { .. } => {},
        FilterV::NumLt { num, sanitize, .. } => {
            lemma_tag_read(num, sanitize, c, c.tags);
        },
        FilterV::NumLte { num, sanitize, .. } => {
            lemma_tag_read(num, sanitize, c, c.tags);
        },
        FilterV::NumGt { num, sanitize, .. } => {
            lemma_tag_read(num, sanitize, c, c.tags);
        },
        FilterV::NumGte { num, sanitize, .. } => {
            lemma_tag_read(num, sanitize, c, c.tags);
        },
    }
}

proof fn lemma_on_parent(
    tag: Seq<char>,
    sanitize: Option<Seq<char>>,
    c: CategoryCtxV,
    d: CtxV,
)
    requires
        all_spelled(c.sanitizers),
        same_object(c, d),
    ensures
        d.parent is Some ==> text_read(
            tag_read(tag, written_chain(c.sanitizers, sanitize)),
            d.parent->0,
            d.readings,
        ) == read_as(value_at(d.parent->0, tag), sanitize, c),
        forall|f: lang::filter::FilterV| #[trigger]
            lang::filter::holds(on_parent(f), d) == (d.parent is Some && lang::filter::holds(
                f,
                d.with_obj(d.parent->0),
            )),
{
    if d.parent is Some {
        lemma_tag_read(tag, sanitize, c, d.parent->0);
    }
}

proof fn lemma_lists_keep_meaning(
    fs: Seq<FilterV>,
    macros: Seq<(Seq<char>, FilterV)>,
    n: nat,
    c: CategoryCtxV,
    d: CtxV,
)
    requires
        all_resolve(fs, macros, n),
        all_spelled(c.sanitizers),
        same_object(c, d),
    ensures
        lang::filter::all_hold(all_inlined(fs, macros, c.sanitizers, n), d) == all_hold(fs, c, macros, n),
        lang::filter::any_holds(all_inlined(fs, macros, c.sanitizers, n), d) == any_holds(fs, c, macros, n),
    decreases n, fs,
{
    let gs = all_inlined(fs, macros, c.sanitizers, n);
    assert forall|i: int| 0 <= i < fs.len() implies lang::filter::holds(#[trigger] gs[i], d)
        == holds_within(fs[i], c, macros, n) by {
        inlining_keeps_meaning(fs[i], macros, n, c, d);
    }
    if any_holds(fs, c, macros, n) {
        let i = choose|i: int| 0 <= i < fs.len() && holds_within(#[trigger] fs[i], c, macros, n);
        assert(lang::filter::holds(gs[i], d));
    }
    if lang::filter::any_holds(gs, d) {
        let i = choose|i: int| 0 <= i < gs.len() && lang::filter::holds(#[trigger] gs[i], d);
        assert(holds_within(fs[i], c, macros, n));
    }
    if all_hold(fs, c, macros, n) {
        assert forall|i: int| 0 <= i < gs.len() implies lang::filter::holds(
            #[trigger] gs[i],
            d,
        ) by {
            assert(holds_within(fs[i], c, macros, n));
        }
    }
    if lang::filter::all_hold(gs, d) {
        assert forall|i: int| 0 <= i < fs.len() implies holds_within(
            #[trigger] fs[i],
            c,
            macros,
            n,
        ) by {
            assert(lang::filter::holds(gs[i], d));
        }
    }
}

/// Two categories, neither of which excludes the other, overlap wherever one object makes both of
/// their conditions true, whatever sanitizers they name.
pub proof fn no_named_overlap_is_missed(
    file: CategoriesFile,
    i: int,
    j: int,
    c: CategoryCtxV,
    d: CtxV,
    n: nat,
    m: nat,
)
    requires
        0 <= i < file.categories@.len(),
        0 <= j < file.categories@.len(),
        file_resolves(file),
        all_spelled(c.sanitizers),
        same_object(c, d),
        ({
            let cats = bare_categories(file, c.sanitizers);
            let macros = macros_view(file.macros@);
            &&& last_named(cats, cats[i].id) == i
            &&& last_named(cats, cats[j].id) == j
            &&& !excludes(cats[i], cats[j].id)
            &&& !excludes(cats[j], cats[i].id)
            &&& resolves(file.categories@[i].condition@, macros, n)
            &&& resolves(file.categories@[j].condition@, macros, m)
            &&& holds_within(file.categories@[i].condition@, c, macros, n)
            &&& holds_within(file.categories@[j].condition@, c, macros, m)
        }),
    ensures
        overlapping(bare_categories(file, c.sanitizers), c.value_sets, i, j),
{
    let cats = bare_categories(file, c.sanitizers);
    lemma_bare_holds(file, i, c, d, n);
    lemma_bare_holds(file, j, c, d, m);
    no_overlap_is_missed(cats, c.value_sets, i, j, d);
}

proof fn lemma_bare_holds(file: CategoriesFile, i: int, c: CategoryCtxV, d: CtxV, n: nat)
    requires
        0 <= i < file.categories@.len(),
        all_spelled(c.sanitizers),
        same_object(c, d),
        resolves(file.categories@[i].condition@, macros_view(file.macros@), n),
        holds_within(file.categories@[i].condition@, c, macros_view(file.macros@), n),
    ensures
        expr_holds(
            expr_of(bare_categories(file, c.sanitizers)[i].condition, c.value_sets),
            d,
        ),
{
    let f = file.categories@[i].condition@;
    let macros = macros_view(file.macros@);
    let k = resolve_depth(f, macros);
    assert(resolves(f, macros, k));
    inlining_depth_does_not_matter(f, macros, c.sanitizers, n, k);
    inlining_keeps_meaning(f, macros, n, c, d);
    lemma_inlined_expressible(f, macros, c.sanitizers, k);
    expression_is_faithful(bare(f, macros, c.sanitizers), d);
}

} // verus!

//! The order in which categories are tried: a name that another one excludes comes first.
use vstd::prelude::*;

use crate::model::models;
use crate::text::{contains_str, insert_sorted, lex_lt, lex_lt_trichotomy, str_eq, strictly_sorted};

verus! {

/// Whether `n` is a category or excluded by one.
pub open spec fn is_node(ids: Seq<Seq<char>>, excludes: Seq<Seq<Seq<char>>>, n: Seq<char>) -> bool {
    ids.contains(n) || exists|i: int| 0 <= i < excludes.len() && (#[trigger] excludes[i]).contains(n)
}

/// Whether the category `n` excludes `y`, so that `y` comes first.
pub open spec fn beats(
    ids: Seq<Seq<char>>,
    excludes: Seq<Seq<Seq<char>>>,
    y: Seq<char>,
    n: Seq<char>,
) -> bool {
    exists|i: int|
        0 <= i < ids.len() && (#[trigger] ids[i]) == n && excludes[i].contains(y)
}

/// Whether `n` may come next: everything that comes before it is listed.
pub open spec fn ready(
    ids: Seq<Seq<char>>,
    excludes: Seq<Seq<Seq<char>>>,
    done: Seq<Seq<char>>,
    n: Seq<char>,
) -> bool {
    &&& is_node(ids, excludes, n)
    &&& !done.contains(n)
    &&& forall|y: Seq<char>| #[trigger] beats(ids, excludes, y, n) ==> done.contains(y)
}

/// Whether the list takes, at every place, the alphabetically first name that may come next.
pub open spec fn is_priority_order(
    ids: Seq<Seq<char>>,
    excludes: Seq<Seq<Seq<char>>>,
    order: Seq<Seq<char>>,
) -> bool {
    forall|k: int|
        0 <= k < order.len() ==> first_ready(ids, excludes, order.take(k), #[trigger] order[k])
}

/// Whether `n` is the alphabetically first name that may come next.
pub open spec fn first_ready(
    ids: Seq<Seq<char>>,
    excludes: Seq<Seq<Seq<char>>>,
    done: Seq<Seq<char>>,
    n: Seq<char>,
) -> bool {
    ready(ids, excludes, done, n) && forall|m: Seq<char>| #[trigger]
        ready(ids, excludes, done, m) ==> m == n || lex_lt(n, m)
}

/// Whether the list holds every name.
pub open spec fn is_complete(
    ids: Seq<Seq<char>>,
    excludes: Seq<Seq<Seq<char>>>,
    order: Seq<Seq<char>>,
) -> bool {
    forall|n: Seq<char>| #[trigger] is_node(ids, excludes, n) ==> order.contains(n)
}

/// Whether each of the names is excluded by one that comes after another of them, in a circle.
pub open spec fn is_stuck(
    ids: Seq<Seq<char>>,
    excludes: Seq<Seq<Seq<char>>>,
    names: Seq<Seq<char>>,
) -> bool {
    &&& names.len() > 0
    &&& forall|i: int|
        0 <= i < names.len() ==> is_node(ids, excludes, #[trigger] names[i]) && beaten_within(
            ids,
            excludes,
            names,
            names[i],
        )
}

/// Whether one of the names must come before `n`.
pub open spec fn beaten_within(
    ids: Seq<Seq<char>>,
    excludes: Seq<Seq<Seq<char>>>,
    names: Seq<Seq<char>>,
    n: Seq<char>,
) -> bool {
    exists|y: Seq<char>| #[trigger] beats(ids, excludes, y, n) && names.contains(y)
}

/// Whether the names are those that the order does not hold, sorted.
pub open spec fn is_rest(
    ids: Seq<Seq<char>>,
    excludes: Seq<Seq<Seq<char>>>,
    order: Seq<Seq<char>>,
    names: Seq<Seq<char>>,
) -> bool {
    strictly_sorted(names) && forall|n: Seq<char>| #[trigger]
        names.contains(n) <==> is_node(ids, excludes, n) && !order.contains(n)
}

/// In an order, what a category excludes comes before the category.
pub proof fn order_respects_excludes(
    ids: Seq<Seq<char>>,
    excludes: Seq<Seq<Seq<char>>>,
    order: Seq<Seq<char>>,
    y: Seq<char>,
    k: int,
)
    requires
        is_priority_order(ids, excludes, order),
        0 <= k < order.len(),
        beats(ids, excludes, y, order[k]),
    ensures
        order.take(k).contains(y),
        exists|j: int| 0 <= j < k && #[trigger] order[j] == y,
{
    assert(first_ready(ids, excludes, order.take(k), order[k]));
    let j = order.take(k).index_of(y);
    assert(order[j] == y);
}

/// An order holds no name twice.
pub proof fn order_has_no_repeats(
    ids: Seq<Seq<char>>,
    excludes: Seq<Seq<Seq<char>>>,
    order: Seq<Seq<char>>,
    j: int,
    k: int,
)
    requires
        is_priority_order(ids, excludes, order),
        0 <= j < k < order.len(),
    ensures
        order[j] != order[k],
{
    assert(first_ready(ids, excludes, order.take(k), order[k]));
    assert(order.take(k)[j] == order[j]);
}

/// There is no complete order around a circle.
pub proof fn no_order_around_a_circle(
    ids: Seq<Seq<char>>,
    excludes: Seq<Seq<Seq<char>>>,
    order: Seq<Seq<char>>,
    names: Seq<Seq<char>>,
)
    requires
        is_stuck(ids, excludes, names),
        is_priority_order(ids, excludes, order),
    ensures
        !is_complete(ids, excludes, order),
{
    if is_complete(ids, excludes, order) {
        assert(is_node(ids, excludes, names[0]));
        let k = order.index_of(names[0]);
        assert(order[k] == names[0]);
        assert(names.contains(names[0]));
        lemma_none_before(ids, excludes, order, names, k);
    }
}

proof fn lemma_none_before(
    ids: Seq<Seq<char>>,
    excludes: Seq<Seq<Seq<char>>>,
    order: Seq<Seq<char>>,
    names: Seq<Seq<char>>,
    k: int,
)
    requires
        is_stuck(ids, excludes, names),
        is_priority_order(ids, excludes, order),
        0 <= k < order.len(),
    ensures
        !names.contains(order[k]),
    decreases k,
{
    if names.contains(order[k]) {
        let i = names.index_of(order[k]);
        assert(names[i] == order[k]);
        assert(beaten_within(ids, excludes, names, names[i]));
        let y = choose|y: Seq<char>| #[trigger]
            beats(ids, excludes, y, order[k]) && names.contains(y);
        order_respects_excludes(ids, excludes, order, y, k);
        let j = choose|j: int| 0 <= j < k && #[trigger] order[j] == y;
        lemma_none_before(ids, excludes, order, names, j);
    }
}

fn all_nodes(ids: &Vec<String>, excludes: &Vec<Vec<String>>) -> (r: Vec<String>)
    ensures
        strictly_sorted(models(r@)),
        forall|n: Seq<char>| #[trigger]
            models(r@).contains(n) <==> is_node(models(ids@), models(excludes@), n),
{
    let ghost is = models(ids@);
    let ghost ex = models(excludes@);
    let mut out: Vec<String> = Vec::new();
    let mut i: usize = 0;
    while i < ids.len()
        invariant
            0 <= i <= ids@.len(),
            is == models(ids@),
            strictly_sorted(models(out@)),
            forall|n: Seq<char>| #[trigger]
                models(out@).contains(n) <==> exists|j: int| 0 <= j < i && #[trigger] is[j] == n,
        decreases ids.len() - i,
    {
        let ghost before = models(out@);
        insert_sorted(&mut out, ids[i].as_str());
        proof {
            assert forall|n: Seq<char>| #[trigger]
                models(out@).contains(n) <==> exists|j: int|
                    0 <= j < i + 1 && #[trigger] is[j] == n by {
                assert(models(out@).to_set().contains(n) <==> before.to_set().insert(
                    is[i as int],
                ).contains(n));
                assert(before.contains(n) <==> exists|j: int| 0 <= j < i && #[trigger] is[j] == n);
            }
        }
        i = i + 1;
    }
    proof {
        assert forall|n: Seq<char>| #[trigger] models(out@).contains(n) <==> is.contains(n) by {
            if is.contains(n) {
                assert(is[is.index_of(n)] == n);
            }
        }
    }
    let mut k: usize = 0;
    while k < excludes.len()
        invariant
            0 <= k <= excludes@.len(),
            is == models(ids@),
            ex == models(excludes@),
            strictly_sorted(models(out@)),
            forall|n: Seq<char>| #[trigger]
                models(out@).contains(n) <==> is.contains(n) || exists|j: int|
                    0 <= j < k && (#[trigger] ex[j]).contains(n),
        decreases excludes.len() - k,
    {
        let ghost before = models(out@);
        let list = &excludes[k];
        let ghost ls = models(list@);
        let mut m: usize = 0;
        while m < list.len()
            invariant
                0 <= m <= list@.len(),
                ls == models(list@),
                strictly_sorted(models(out@)),
                forall|n: Seq<char>| #[trigger]
                    models(out@).contains(n) <==> before.contains(n) || exists|j: int|
                        0 <= j < m && #[trigger] ls[j] == n,
            decreases list.len() - m,
        {
            let ghost o = models(out@);
            insert_sorted(&mut out, list[m].as_str());
            proof {
                assert forall|n: Seq<char>| #[trigger]
                    models(out@).contains(n) <==> before.contains(n) || exists|j: int|
                        0 <= j < m + 1 && #[trigger] ls[j] == n by {
                    assert(models(out@).to_set().contains(n) <==> o.to_set().insert(
                        ls[m as int],
                    ).contains(n));
                    assert(o.contains(n) <==> before.contains(n) || exists|j: int|
                        0 <= j < m && #[trigger] ls[j] == n);
                }
            }
            m = m + 1;
        }
        proof {
            assert(ex[k as int] == ls);
            assert forall|n: Seq<char>| #[trigger]
                models(out@).contains(n) <==> is.contains(n) || exists|j: int|
                    0 <= j < k + 1 && (#[trigger] ex[j]).contains(n) by {
                assert(before.contains(n) <==> is.contains(n) || exists|j: int|
                    0 <= j < k && (#[trigger] ex[j]).contains(n));
                if ls.contains(n) {
                    assert(ls[ls.index_of(n)] == n);
                    assert(ex[k as int].contains(n));
                }
                if exists|j: int| 0 <= j < m && #[trigger] ls[j] == n {
                    assert(ls.contains(n));
                    assert(ex[k as int].contains(n));
                }
            }
        }
        k = k + 1;
    }
    out
}

/// Whether everything that comes before `n` is listed.
fn may_follow(ids: &Vec<String>, excludes: &Vec<Vec<String>>, done: &Vec<String>, n: &str) -> (r:
    bool)
    requires
        ids@.len() == excludes@.len(),
    ensures
        r == (forall|y: Seq<char>| #[trigger]
            beats(models(ids@), models(excludes@), y, n@) ==> models(done@).contains(y)),
{
    let ghost is = models(ids@);
    let ghost ex = models(excludes@);
    let ghost dn = models(done@);
    let mut i: usize = 0;
    while i < ids.len()
        invariant
            0 <= i <= ids@.len(),
            ids@.len() == excludes@.len(),
            is == models(ids@),
            ex == models(excludes@),
            dn == models(done@),
            forall|j: int, y: Seq<char>|
                0 <= j < i && is[j] == n@ && #[trigger] ex[j].contains(y) ==> dn.contains(y),
        decreases ids.len() - i,
    {
        if str_eq(ids[i].as_str(), n) {
            let list = &excludes[i];
            let ghost ls = models(list@);
            proof {
                assert(ex[i as int] == ls);
            }
            let mut m: usize = 0;
            while m < list.len()
                invariant
                    0 <= m <= list@.len(),
                    i < ids@.len(),
                    ids@.len() == excludes@.len(),
                    is == models(ids@),
                    ex == models(excludes@),
                    dn == models(done@),
                    ls == models(list@),
                    ls == ex[i as int],
                    is[i as int] == n@,
                    forall|j: int| 0 <= j < m ==> dn.contains(#[trigger] ls[j]),
                decreases list.len() - m,
            {
                if !contains_str(done, list[m].as_str()) {
                    proof {
                        let y = ls[m as int];
                        assert(ex[i as int].contains(y));
                        assert(is[i as int] == n@);
                        assert(beats(is, ex, y, n@));
                        assert(!dn.contains(y));
                    }
                    return false;
                }
                m = m + 1;
            }
            proof {
                assert forall|j: int, y: Seq<char>|
                    0 <= j < i + 1 && is[j] == n@ && #[trigger] ex[j].contains(
                        y,
                    ) implies dn.contains(y) by {
                    if j == i {
                        let q = ls.index_of(y);
                        assert(dn.contains(ls[q]));
                    }
                }
            }
        }
        i = i + 1;
    }
    proof {
        assert forall|y: Seq<char>| #[trigger] beats(is, ex, y, n@) implies dn.contains(y) by {
            let j = choose|j: int| 0 <= j < is.len() && (#[trigger] is[j]) == n@ && ex[j].contains(
                y,
            );
            assert(ex[j].contains(y));
        }
    }
    true
}

/// The alphabetically first name that may come next, where one may.
fn next_ready(
    ids: &Vec<String>,
    excludes: &Vec<Vec<String>>,
    nodes: &Vec<String>,
    done: &Vec<String>,
) -> (r: Option<usize>)
    requires
        ids@.len() == excludes@.len(),
        strictly_sorted(models(nodes@)),
        forall|n: Seq<char>| #[trigger]
            models(nodes@).contains(n) <==> is_node(models(ids@), models(excludes@), n),
    ensures
        match r {
            Some(i) => i < nodes@.len() && first_ready(
                models(ids@),
                models(excludes@),
                models(done@),
                models(nodes@)[i as int],
            ),
            None => forall|n: Seq<char>| !#[trigger]
                ready(models(ids@), models(excludes@), models(done@), n),
        },
{
    let ghost is = models(ids@);
    let ghost ex = models(excludes@);
    let ghost dn = models(done@);
    let ghost ns = models(nodes@);
    let mut i: usize = 0;
    while i < nodes.len()
        invariant
            0 <= i <= nodes@.len(),
            ids@.len() == excludes@.len(),
            is == models(ids@),
            ex == models(excludes@),
            dn == models(done@),
            ns == models(nodes@),
            strictly_sorted(ns),
            forall|n: Seq<char>| #[trigger] ns.contains(n) <==> is_node(is, ex, n),
            forall|j: int| 0 <= j < i ==> !ready(is, ex, dn, #[trigger] ns[j]),
        decreases nodes.len() - i,
    {
        if !contains_str(done, nodes[i].as_str()) && may_follow(
            ids,
            excludes,
            done,
            nodes[i].as_str(),
        ) {
            proof {
                let n = ns[i as int];
                assert(ns.contains(n));
                assert(ready(is, ex, dn, n));
                assert forall|m: Seq<char>| #[trigger] ready(is, ex, dn, m) implies m == n
                    || lex_lt(n, m) by {
                    assert(ns.contains(m));
                    let j = ns.index_of(m);
                    if j > i {
                        assert(lex_lt(ns[i as int], ns[j]));
                    }
                }
            }
            return Some(i);
        }
        i = i + 1;
    }
    proof {
        assert forall|n: Seq<char>| !#[trigger] ready(is, ex, dn, n) by {
            if ready(is, ex, dn, n) {
                assert(ns.contains(n));
                let j = ns.index_of(n);
                assert(!ready(is, ex, dn, ns[j]));
            }
        }
    }
    None
}

fn not_listed(nodes: &Vec<String>, done: &Vec<String>) -> (r: Vec<String>)
    requires
        strictly_sorted(models(nodes@)),
    ensures
        strictly_sorted(models(r@)),
        forall|n: Seq<char>| #[trigger]
            models(r@).contains(n) <==> models(nodes@).contains(n) && !models(done@).contains(n),
{
    let ghost ns = models(nodes@);
    let ghost dn = models(done@);
    let mut out: Vec<String> = Vec::new();
    let mut i: usize = 0;
    while i < nodes.len()
        invariant
            0 <= i <= nodes@.len(),
            ns == models(nodes@),
            dn == models(done@),
            strictly_sorted(models(out@)),
            forall|n: Seq<char>| #[trigger]
                models(out@).contains(n) <==> !dn.contains(n) && exists|j: int|
                    0 <= j < i && #[trigger] ns[j] == n,
        decreases nodes.len() - i,
    {
        let ghost before = models(out@);
        if !contains_str(done, nodes[i].as_str()) {
            insert_sorted(&mut out, nodes[i].as_str());
            proof {
                assert forall|n: Seq<char>| #[trigger]
                    models(out@).contains(n) <==> before.contains(n) || n == ns[i as int] by {
                    assert(models(out@).to_set().contains(n) <==> before.to_set().insert(
                        ns[i as int],
                    ).contains(n));
                    assert(before.contains(n) <==> before.to_set().contains(n));
                }
            }
        }
        proof {
            assert forall|n: Seq<char>| #[trigger]
                models(out@).contains(n) <==> !dn.contains(n) && exists|j: int|
                    0 <= j < i + 1 && #[trigger] ns[j] == n by {
                assert(before.contains(n) <==> !dn.contains(n) && exists|j: int|
                    0 <= j < i && #[trigger] ns[j] == n);
            }
        }
        i = i + 1;
    }
    proof {
        assert forall|n: Seq<char>| #[trigger]
            models(out@).contains(n) <==> ns.contains(n) && !dn.contains(n) by {
            if ns.contains(n) {
                assert(ns[ns.index_of(n)] == n);
            }
        }
    }
    out
}

/// The names in the order in which they are tried, or the names that exclude one another in a
/// circle.
pub fn priority_order(ids: &Vec<String>, excludes: &Vec<Vec<String>>) -> (r: Result<
    Vec<String>,
    Vec<String>,
>)
    requires
        ids@.len() == excludes@.len(),
    ensures
        match r {
            Ok(order) => is_priority_order(models(ids@), models(excludes@), models(order@))
                && is_complete(models(ids@), models(excludes@), models(order@)),
            Err(names) => is_stuck(models(ids@), models(excludes@), models(names@)) && exists|
                order: Seq<Seq<char>>,
            | #[trigger]
                is_priority_order(models(ids@), models(excludes@), order) && is_rest(
                    models(ids@),
                    models(excludes@),
                    order,
                    models(names@),
                ),
        },
{
    let ghost is = models(ids@);
    let ghost ex = models(excludes@);
    let nodes = all_nodes(ids, excludes);
    let ghost ns = models(nodes@);
    let mut order: Vec<String> = Vec::new();
    let mut count: usize = 0;
    proof {
        assert(models(order@) =~= Seq::<Seq<char>>::empty());
    }
    while count < nodes.len()
        invariant
            0 <= count <= nodes@.len(),
            count == order@.len(),
            ids@.len() == excludes@.len(),
            is == models(ids@),
            ex == models(excludes@),
            ns == models(nodes@),
            strictly_sorted(ns),
            forall|n: Seq<char>| #[trigger] ns.contains(n) <==> is_node(is, ex, n),
            is_priority_order(is, ex, models(order@)),
        decreases nodes.len() - count,
    {
        let ghost before = models(order@);
        match next_ready(ids, excludes, &nodes, &order) {
            Some(i) => {
                order.push(nodes[i].clone());
                proof {
                    let after = models(order@);
                    assert(after =~= before.push(ns[i as int]));
                    assert forall|k: int| 0 <= k < after.len() implies first_ready(
                        is,
                        ex,
                        after.take(k),
                        #[trigger] after[k],
                    ) by {
                        assert(after.take(k) =~= before.take(k));
                        if k < before.len() {
                            assert(first_ready(is, ex, before.take(k), before[k]));
                        } else {
                            assert(before.take(k) =~= before);
                        }
                    }
                }
            },
            None => {
                let rest = not_listed(&nodes, &order);
                proof {
                    lemma_left_over_is_stuck(is, ex, ns, before, models(rest@));
                }
                return Err(rest);
            },
        }
        count = count + 1;
    }
    proof {
        lemma_all_listed(is, ex, ns, models(order@));
    }
    Ok(order)
}

proof fn lemma_left_over_is_stuck(
    ids: Seq<Seq<char>>,
    excludes: Seq<Seq<Seq<char>>>,
    nodes: Seq<Seq<char>>,
    order: Seq<Seq<char>>,
    rest: Seq<Seq<char>>,
)
    requires
        ids.len() == excludes.len(),
        is_priority_order(ids, excludes, order),
        order.len() < nodes.len(),
        strictly_sorted(nodes),
        forall|n: Seq<char>| #[trigger] nodes.contains(n) <==> is_node(ids, excludes, n),
        forall|n: Seq<char>| #[trigger]
            rest.contains(n) <==> nodes.contains(n) && !order.contains(n),
        forall|n: Seq<char>| !#[trigger] ready(ids, excludes, order, n),
    ensures
        is_stuck(ids, excludes, rest),
{
    assert(rest.len() > 0) by {
        if rest.len() == 0 {
            assert forall|i: int| 0 <= i < nodes.len() implies order.contains(
                #[trigger] nodes[i],
            ) by {
                assert(nodes.contains(nodes[i]));
                assert(!rest.contains(nodes[i]));
            }
            lemma_pigeonhole(nodes, order);
        }
    }
    assert forall|i: int| 0 <= i < rest.len() implies is_node(ids, excludes, #[trigger] rest[i])
        && beaten_within(ids, excludes, rest, rest[i]) by {
        let n = rest[i];
        assert(rest.contains(n));
        assert(nodes.contains(n));
        assert(!ready(ids, excludes, order, n));
        let y = choose|y: Seq<char>| #[trigger]
            beats(ids, excludes, y, n) && !order.contains(y);
        assert(beats(ids, excludes, y, n));
        let j = choose|j: int|
            0 <= j < ids.len() && (#[trigger] ids[j]) == n && excludes[j].contains(y);
        assert(excludes[j].contains(y));
        assert(is_node(ids, excludes, y));
        assert(nodes.contains(y));
        assert(rest.contains(y));
    }
}

/// A list without repeats is no longer than a list that holds all its items.
proof fn lemma_pigeonhole(nodes: Seq<Seq<char>>, order: Seq<Seq<char>>)
    requires
        strictly_sorted(nodes),
        forall|i: int| 0 <= i < nodes.len() ==> order.contains(#[trigger] nodes[i]),
    ensures
        nodes.len() <= order.len(),
{
    assert(nodes.no_duplicates()) by {
        assert forall|i: int, j: int|
            0 <= i < nodes.len() && 0 <= j < nodes.len() && i != j implies nodes[i]
            != nodes[j] by {
            if i < j {
                assert(lex_lt(nodes[i], nodes[j]));
            } else {
                assert(lex_lt(nodes[j], nodes[i]));
            }
            lex_lt_trichotomy(nodes[i], nodes[i]);
        }
    }
    nodes.unique_seq_to_set();
    order.lemma_cardinality_of_set();
    vstd::seq_lib::seq_to_set_is_finite(order);
    assert(nodes.to_set().subset_of(order.to_set())) by {
        assert forall|x: Seq<char>| nodes.to_set().contains(x) implies #[trigger] order.to_set().contains(
            x,
        ) by {
            let i = nodes.index_of(x);
            assert(order.contains(nodes[i]));
        }
    }
    vstd::set_lib::lemma_len_subset(nodes.to_set(), order.to_set());
}

proof fn lemma_all_listed(
    ids: Seq<Seq<char>>,
    excludes: Seq<Seq<Seq<char>>>,
    nodes: Seq<Seq<char>>,
    order: Seq<Seq<char>>,
)
    requires
        is_priority_order(ids, excludes, order),
        order.len() == nodes.len(),
        strictly_sorted(nodes),
        forall|n: Seq<char>| #[trigger] nodes.contains(n) <==> is_node(ids, excludes, n),
    ensures
        is_complete(ids, excludes, order),
{
    assert(order.no_duplicates()) by {
        assert forall|i: int, j: int|
            0 <= i < order.len() && 0 <= j < order.len() && i != j implies order[i]
            != order[j] by {
            if i < j {
                order_has_no_repeats(ids, excludes, order, i, j);
            } else {
                order_has_no_repeats(ids, excludes, order, j, i);
            }
        }
    }
    order.unique_seq_to_set();
    nodes.lemma_cardinality_of_set();
    vstd::seq_lib::seq_to_set_is_finite(nodes);
    vstd::seq_lib::seq_to_set_is_finite(order);
    assert(order.to_set().subset_of(nodes.to_set())) by {
        assert forall|x: Seq<char>| order.to_set().contains(x) implies #[trigger] nodes.to_set().contains(
            x,
        ) by {
            let k = order.index_of(x);
            assert(first_ready(ids, excludes, order.take(k), order[k]));
            assert(nodes.contains(x));
        }
    }
    vstd::set_lib::lemma_len_subset(order.to_set(), nodes.to_set());
    vstd::set_lib::lemma_subset_equality(order.to_set(), nodes.to_set());
    assert forall|n: Seq<char>| #[trigger] is_node(ids, excludes, n) implies order.contains(n) by {
        assert(nodes.contains(n));
        assert(nodes.to_set().contains(n));
        assert(order.to_set().contains(n));
    }
}

} // verus!

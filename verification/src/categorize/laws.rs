//! What the transforms do to an object's tags: which tags are unnested, stripped, directed, written
//! and dropped, and what the objects that are split off start with.
use vstd::prelude::*;

use crate::categorize::pipeline::{
    fresh, is_build, may_build, may_drop, may_reach, may_spawn, may_step, may_stop, noted,
    orphaned_documentation_stays, projects, unclashing, unnested_tags_come_from_the_source, RunV,
};
use crate::categorize::transform::{
    behind_prefix, companions, direction, full_prefix, has_nested, keeps, marker, may_become,
    may_strip, may_unnest, names_side, seen, stripped_list, tag_writes, touched, unnest_source,
    CloneStep, DirectedFrom, InputTransform, Setting, SpawnedV, StateV, TransformStep,
};
use crate::lang::extract::{first_set, ExtractV};
use crate::lang::filter::{holds, FilterV};
use crate::lang::producer::ProducerV;
use crate::model::models;
use crate::tags::lists;
use crate::text::without_trailing;
use crate::value::ValueV;

verus! {

// ── Unnesting ───────────────────────────────────────────────────────────────────────────────

/// A key up to its first colon.
pub open spec fn first_part(s: Seq<char>) -> Seq<char>
    decreases s.len(),
{
    if s.len() == 0 || s[0] == ':' {
        Seq::empty()
    } else {
        seq![s[0]] + first_part(s.skip(1))
    }
}

/// Whether a text is the name of a side of the road, or of both.
pub open spec fn is_side(s: Seq<char>) -> bool {
    s == seq!['l', 'e', 'f', 't'] || s == seq!['r', 'i', 'g', 'h', 't'] || s == seq![
        'b',
        'o',
        't',
        'h',
    ]
}

proof fn lemma_first_part(s: Seq<char>, p: Seq<char>)
    requires
        forall|i: int| 0 <= i < p.len() ==> #[trigger] p[i] != ':',
    ensures
        first_part(s) == p <==> s == p || (p + seq![':']).is_prefix_of(s),
    decreases s.len(),
{
    if p.len() == 0 {
        assert(p =~= Seq::<char>::empty());
        if s.len() > 0 && s[0] == ':' {
            assert((p + seq![':'])[0] == s[0]);
            assert((p + seq![':']) =~= s.subrange(0, 1));
        }
        if (p + seq![':']).is_prefix_of(s) {
            assert((p + seq![':'])[0] == s[0]);
        }
        if s.len() == 0 {
            assert(s =~= p);
        }
        if first_part(s) == p && s.len() > 0 && s[0] != ':' {
            assert(first_part(s).len() > 0);
        }
    } else if s.len() == 0 {
        assert(first_part(s).len() == 0);
    } else if s[0] == ':' {
        assert(first_part(s).len() == 0);
        assert(p[0] != ':');
        if (p + seq![':']).is_prefix_of(s) {
            assert((p + seq![':'])[0] == s[0]);
        }
    } else {
        let q = p.skip(1);
        assert forall|i: int| 0 <= i < q.len() implies #[trigger] q[i] != ':' by {
            assert(q[i] == p[i + 1]);
        }
        lemma_first_part(s.skip(1), q);
        assert(p =~= seq![p[0]] + q);
        assert(s =~= seq![s[0]] + s.skip(1));
        if first_part(s) == p {
            assert(first_part(s)[0] == s[0]);
            assert(first_part(s).skip(1) =~= first_part(s.skip(1)));
        }
        let a = p + seq![':'];
        let b = q + seq![':'];
        assert(a =~= seq![p[0]] + b);
        if a.is_prefix_of(s) {
            assert(a[0] == s[0]);
            assert(b =~= s.skip(1).subrange(0, b.len() as int)) by {
                assert forall|i: int| 0 <= i < b.len() implies b[i] == s.skip(1)[i] by {
                    assert(a[i + 1] == s[i + 1]);
                }
            }
        }
        if b.is_prefix_of(s.skip(1)) && p[0] == s[0] {
            assert(a =~= s.subrange(0, a.len() as int)) by {
                assert forall|i: int| 0 <= i < a.len() implies a[i] == s[i] by {
                    if i > 0 {
                        assert(b[i - 1] == s.skip(1)[i - 1]);
                    }
                }
            }
        }
    }
}

/// A key names a side exactly where its first part does, whatever follows behind a colon.
pub proof fn sides_are_told_by_the_first_part(s: Seq<char>)
    ensures
        names_side(s) <==> is_side(first_part(s)),
{
    reveal_strlit("left");
    reveal_strlit("right");
    reveal_strlit("both");
    reveal_strlit(":");
    assert("left"@ =~= seq!['l', 'e', 'f', 't']);
    assert("right"@ =~= seq!['r', 'i', 'g', 'h', 't']);
    assert("both"@ =~= seq!['b', 'o', 't', 'h']);
    assert(":"@ =~= seq![':']);
    lemma_first_part(s, "left"@);
    lemma_first_part(s, "right"@);
    lemma_first_part(s, "both"@);
}

/// A prefix, an infix where there is one, and what is behind them, with colons between.
pub open spec fn joined(prefix: Seq<char>, infix: Seq<char>, rest: Seq<char>) -> Seq<char> {
    if infix.len() == 0 {
        prefix + seq![':'] + rest
    } else {
        prefix + seq![':'] + infix + seq![':'] + rest
    }
}

/// Whether a key stands under a prefix and an infix: it is the two, joined by a colon, or has more
/// behind another colon. Under a bare prefix what is behind it must not begin with a side.
pub open spec fn stands_under(key: Seq<char>, prefix: Seq<char>, infix: Seq<char>) -> bool {
    ||| infix.len() == 0 && key == prefix
    ||| infix.len() > 0 && key == prefix + seq![':'] + infix
    ||| exists|rest: Seq<char>|
        key == #[trigger] joined(prefix, infix, rest) && (infix.len() == 0 ==> !is_side(
            first_part(rest),
        ))
}

proof fn lemma_behind(key: Seq<char>, prefix: Seq<char>, infix: Seq<char>)
    ensures
        behind_prefix(key, prefix, infix) is Some <==> stands_under(key, prefix, infix),
{
    reveal_strlit(":");
    assert(":"@ =~= seq![':']);
    let full = full_prefix(prefix, infix);
    let nested = full + ":"@;
    if nested.is_prefix_of(key) {
        let rest = key.subrange(nested.len() as int, key.len() as int);
        sides_are_told_by_the_first_part(rest);
        assert(joined(prefix, infix, rest) =~= key);
    }
    if stands_under(key, prefix, infix) && key != full {
        let rest = choose|rest: Seq<char>|
            key == #[trigger] joined(prefix, infix, rest) && (infix.len() == 0 ==> !is_side(
                first_part(rest),
            ));
        assert(nested =~= key.subrange(0, nested.len() as int));
        assert(key.subrange(nested.len() as int, key.len() as int) =~= rest);
        sides_are_told_by_the_first_part(rest);
    }
}

proof fn lemma_nested_behind(full: Seq<char>, rest: Seq<char>, prefix: Seq<char>, infix: Seq<char>)
    requires
        full == full_prefix(prefix, infix),
        infix.len() == 0 ==> !is_side(first_part(rest)),
    ensures
        behind_prefix(full + ":"@ + rest, prefix, infix) == Some(Some(rest)),
{
    reveal_strlit(":");
    let nested = full + ":"@;
    let key = nested + rest;
    assert(nested =~= key.subrange(0, nested.len() as int));
    assert(key.subrange(nested.len() as int, key.len() as int) =~= rest);
    assert(key.len() > full.len());
    sides_are_told_by_the_first_part(rest);
}

/// Under a bare prefix nothing is unnested where every key under it has a side as its first part:
/// the tags stay as they are.
pub proof fn sided_keys_are_not_unnested_bare(
    src: Map<Seq<char>, Seq<char>>,
    prefix: Seq<char>,
    metas: Seq<Seq<char>>,
    before: Map<Seq<char>, Seq<char>>,
    after: Map<Seq<char>, Seq<char>>,
)
    requires
        may_unnest(src, prefix, Seq::empty(), metas, before, after),
        !src.dom().contains(prefix),
        forall|rest: Seq<char>| #[trigger]
            src.dom().contains(prefix + ":"@ + rest) ==> is_side(first_part(rest)),
    ensures
        after == before,
{
    reveal_strlit(":");
    assert(":"@ =~= seq![':']);
    assert forall|key: Seq<char>| #[trigger] src.dom().contains(key) implies behind_prefix(
        key,
        prefix,
        Seq::empty(),
    ) is None by {
        lemma_behind(key, prefix, Seq::empty());
        if stands_under(key, prefix, Seq::empty()) {
            let rest = choose|rest: Seq<char>|
                key == #[trigger] joined(prefix, Seq::empty(), rest) && !is_side(first_part(rest));
            assert(prefix + ":"@ + rest == key);
        }
    }
    orphaned_documentation_stays(src, prefix, Seq::empty(), metas, before, after);
}

/// Where no tag stands under the prefix and the infix, unnesting changes nothing.
pub proof fn nothing_under_the_prefix_changes_nothing(
    src: Map<Seq<char>, Seq<char>>,
    prefix: Seq<char>,
    infix: Seq<char>,
    metas: Seq<Seq<char>>,
    before: Map<Seq<char>, Seq<char>>,
    after: Map<Seq<char>, Seq<char>>,
)
    requires
        may_unnest(src, prefix, infix, metas, before, after),
        forall|key: Seq<char>| #[trigger]
            src.dom().contains(key) ==> !stands_under(key, prefix, infix),
    ensures
        after == before,
{
    assert forall|key: Seq<char>| #[trigger] src.dom().contains(key) implies behind_prefix(
        key,
        prefix,
        infix,
    ) is None by {
        lemma_behind(key, prefix, infix);
    }
    orphaned_documentation_stays(src, prefix, infix, metas, before, after);
}

/// What is tagged for one side is not unnested for another: where no key under the prefix has the
/// infix as its first part, unnesting under the infix changes nothing.
pub proof fn one_side_is_not_unnested_for_another(
    src: Map<Seq<char>, Seq<char>>,
    prefix: Seq<char>,
    side: Seq<char>,
    metas: Seq<Seq<char>>,
    before: Map<Seq<char>, Seq<char>>,
    after: Map<Seq<char>, Seq<char>>,
)
    requires
        side.len() > 0,
        forall|i: int| 0 <= i < side.len() ==> #[trigger] side[i] != ':',
        may_unnest(src, prefix, side, metas, before, after),
        forall|rest: Seq<char>| #[trigger]
            src.dom().contains(prefix + ":"@ + rest) ==> first_part(rest) != side,
    ensures
        after == before,
{
    reveal_strlit(":");
    assert(":"@ =~= seq![':']);
    assert forall|key: Seq<char>| #[trigger] src.dom().contains(key) implies !stands_under(
        key,
        prefix,
        side,
    ) by {
        if key == prefix + seq![':'] + side {
            lemma_first_part(side, side);
            assert(prefix + ":"@ + side == key);
        } else if stands_under(key, prefix, side) {
            let more = choose|rest: Seq<char>|
                key == #[trigger] joined(prefix, side, rest) && (side.len() == 0 ==> !is_side(
                    first_part(rest),
                ));
            let rest = side + seq![':'] + more;
            assert((side + seq![':']) =~= rest.subrange(0, (side.len() + 1) as int));
            lemma_first_part(rest, side);
            assert(prefix + ":"@ + rest =~= key);
        }
    }
    nothing_under_the_prefix_changes_nothing(src, prefix, side, metas, before, after);
}

proof fn lemma_first_write(
    src: Map<Seq<char>, Seq<char>>,
    prefix: Seq<char>,
    infix: Seq<char>,
    metas: Seq<Seq<char>>,
    key: Seq<char>,
    target: Seq<char>,
)
    requires
        src.dom().contains(key),
        behind_prefix(key, prefix, infix) == Some(Some(target)) || (behind_prefix(
            key,
            prefix,
            infix,
        ) == Some(None::<Seq<char>>) && target == prefix),
    ensures
        projects(src, prefix, infix, metas, target, src[key]),
{
    let ws = tag_writes((key, src[key]), prefix, infix, metas, src);
    assert(ws[0] == (target, src[key]));
    assert(ws.contains((target, src[key])));
}

/// A tag under the prefix and the infix comes to stand under what is behind them, with its value; a
/// tag that is the prefix and the infix themselves comes to stand under the prefix. The tags that
/// document it come along: under the name of the documentation, and what is behind.
pub proof fn unnesting_moves_tags_out(
    src: Map<Seq<char>, Seq<char>>,
    prefix: Seq<char>,
    infix: Seq<char>,
    metas: Seq<Seq<char>>,
    before: Map<Seq<char>, Seq<char>>,
    after: Map<Seq<char>, Seq<char>>,
    full: Seq<char>,
    rest: Seq<char>,
)
    requires
        may_unnest(src, prefix, infix, metas, before, after),
        unclashing(src, prefix, infix, metas),
        infix.len() == 0 ==> full == prefix,
        infix.len() > 0 ==> full == prefix + ":"@ + infix,
    ensures
        src.dom().contains(full) ==> after.dom().contains(prefix) && after[prefix] == src[full],
        src.dom().contains(full + ":"@ + rest) && (infix.len() > 0 || !is_side(first_part(rest)))
            ==> after.dom().contains(rest) && after[rest] == src[full + ":"@ + rest],
        forall|i: int, m: Seq<char>|
            #![trigger metas[i], m.len()]
            0 <= i < metas.len() && metas[i] == m + ":"@ && m.len() > 0 && m.last() != ':'
                && src.dom().contains(full) && src.dom().contains(metas[i] + full)
                ==> after.dom().contains(m) && after[m] == src[metas[i] + full],
        forall|i: int, m: Seq<char>|
            #![trigger metas[i], m.len()]
            0 <= i < metas.len() && metas[i] == m + ":"@ && m.len() > 0 && m.last() != ':'
                && src.dom().contains(full + ":"@ + rest) && (infix.len() > 0 || !is_side(
                first_part(rest),
            )) && src.dom().contains(metas[i] + (full + ":"@ + rest)) ==> after.dom().contains(
                m + ":"@ + rest,
            ) && after[m + ":"@ + rest] == src[metas[i] + (full + ":"@ + rest)],
{
    reveal_strlit(":");
    let key = full + ":"@ + rest;
    if src.dom().contains(full) {
        lemma_first_write(src, prefix, infix, metas, full, prefix);
        unnested_tags_come_from_the_source(src, prefix, infix, metas, before, after, prefix);
    }
    if infix.len() > 0 || !is_side(first_part(rest)) {
        lemma_nested_behind(full, rest, prefix, infix);
        if src.dom().contains(key) {
            lemma_first_write(src, prefix, infix, metas, key, rest);
            unnested_tags_come_from_the_source(src, prefix, infix, metas, before, after, rest);
        }
    }
    assert forall|i: int, m: Seq<char>|
        #![trigger metas[i], m.len()]
        0 <= i < metas.len() && metas[i] == m + ":"@ && m.len() > 0 && m.last() != ':'
            && src.dom().contains(full) && src.dom().contains(
            metas[i] + full,
        ) implies after.dom().contains(m) && after[m] == src[metas[i] + full] by {
        lemma_trimmed(m);
        lemma_companion_write(src, prefix, infix, metas, full, None, i);
        unnested_tags_come_from_the_source(src, prefix, infix, metas, before, after, m);
    }
    assert forall|i: int, m: Seq<char>|
        #![trigger metas[i], m.len()]
        0 <= i < metas.len() && metas[i] == m + ":"@ && m.len() > 0 && m.last() != ':'
            && src.dom().contains(key) && (infix.len() > 0 || !is_side(first_part(rest)))
            && src.dom().contains(metas[i] + key) implies after.dom().contains(m + ":"@ + rest)
        && after[m + ":"@ + rest] == src[metas[i] + key] by {
        lemma_trimmed(m);
        lemma_companion_write(src, prefix, infix, metas, key, Some(rest), i);
        unnested_tags_come_from_the_source(
            src,
            prefix,
            infix,
            metas,
            before,
            after,
            m + ":"@ + rest,
        );
    }
}

proof fn lemma_trimmed(m: Seq<char>)
    requires
        m.len() > 0,
        m.last() != ':',
    ensures
        without_trailing(m + ":"@, ':') == m,
{
    reveal_strlit(":");
    reveal_with_fuel(without_trailing, 3);
    assert((m + ":"@).drop_last() =~= m);
}

proof fn lemma_companion_write(
    src: Map<Seq<char>, Seq<char>>,
    prefix: Seq<char>,
    infix: Seq<char>,
    metas: Seq<Seq<char>>,
    key: Seq<char>,
    rest: Option<Seq<char>>,
    i: int,
)
    requires
        src.dom().contains(key),
        behind_prefix(key, prefix, infix) == Some(rest),
        0 <= i < metas.len(),
        src.dom().contains(metas[i] + key),
    ensures
        projects(
            src,
            prefix,
            infix,
            metas,
            (match rest {
                Some(s) => without_trailing(metas[i], ':') + ":"@ + s,
                None => without_trailing(metas[i], ':'),
            }),
            src[metas[i] + key],
        ),
{
    let name = match rest {
        Some(s) => without_trailing(metas[i], ':') + ":"@ + s,
        None => without_trailing(metas[i], ':'),
    };
    let cs = companions(key, rest, metas, metas.len() as int, src);
    lemma_companion_listed(key, rest, metas, metas.len() as int, src, i);
    let j = cs.index_of((name, src[metas[i] + key]));
    let ws = tag_writes((key, src[key]), prefix, infix, metas, src);
    assert(ws[j + 1] == (name, src[metas[i] + key]));
    assert(ws.contains((name, src[metas[i] + key])));
}

proof fn lemma_companion_listed(
    key: Seq<char>,
    rest: Option<Seq<char>>,
    metas: Seq<Seq<char>>,
    n: int,
    src: Map<Seq<char>, Seq<char>>,
    i: int,
)
    requires
        0 <= i < n <= metas.len(),
        src.dom().contains(metas[i] + key),
    ensures
        companions(key, rest, metas, n, src).contains(
            (
                match rest {
                    Some(s) => without_trailing(metas[i], ':') + ":"@ + s,
                    None => without_trailing(metas[i], ':'),
                },
                src[metas[i] + key],
            ),
        ),
    decreases n,
{
    let name = match rest {
        Some(s) => without_trailing(metas[i], ':') + ":"@ + s,
        None => without_trailing(metas[i], ':'),
    };
    let all = companions(key, rest, metas, n, src);
    let before = companions(key, rest, metas, n - 1, src);
    if i == n - 1 {
        assert(all[before.len() as int] == (name, src[metas[i] + key]));
    } else {
        lemma_companion_listed(key, rest, metas, n - 1, src, i);
        let j = before.index_of((name, src[metas[i] + key]));
        assert(all[j] == (name, src[metas[i] + key]));
    }
}

/// Where nothing is documented, unnesting only writes the prefix, where it is a tag itself, and what
/// stands behind it: every other tag stays as it was.
pub proof fn unnesting_leaves_other_tags(
    src: Map<Seq<char>, Seq<char>>,
    prefix: Seq<char>,
    infix: Seq<char>,
    before: Map<Seq<char>, Seq<char>>,
    after: Map<Seq<char>, Seq<char>>,
    full: Seq<char>,
    k: Seq<char>,
)
    requires
        may_unnest(src, prefix, infix, Seq::empty(), before, after),
        infix.len() == 0 ==> full == prefix,
        infix.len() > 0 ==> full == prefix + ":"@ + infix,
        !(k == prefix && src.dom().contains(full)),
        !src.dom().contains(full + ":"@ + k) || (infix.len() == 0 && is_side(first_part(k))),
    ensures
        after.dom().contains(k) == before.dom().contains(k),
        after[k] == before[k],
{
    reveal_strlit(":");
    assert forall|v: Seq<char>| !#[trigger] projects(src, prefix, infix, Seq::empty(), k, v) by {
        if projects(src, prefix, infix, Seq::empty(), k, v) {
            let key = choose|key: Seq<char>| #[trigger]
                src.dom().contains(key) && tag_writes(
                    (key, src[key]),
                    prefix,
                    infix,
                    Seq::empty(),
                    src,
                ).contains((k, v));
            let ws = tag_writes((key, src[key]), prefix, infix, Seq::empty(), src);
            assert(ws.len() <= 1);
            assert(ws[0] == (k, v));
            let nested = full + ":"@;
            if key != full {
                let rest = key.subrange(nested.len() as int, key.len() as int);
                assert(rest == k);
                assert(full + ":"@ + k =~= key);
                sides_are_told_by_the_first_part(k);
            }
        }
    }
    unnested_tags_come_from_the_source(src, prefix, infix, Seq::empty(), before, after, k);
}

// ── The unnesting step ──────────────────────────────────────────────────────────────────────

/// The tags that an unnesting step takes tags from: the parent's where there is one, else the
/// object's own.
pub open spec fn tags_read(
    own: Map<Seq<char>, Seq<char>>,
    parent: Option<Map<Seq<char>, Seq<char>>>,
) -> Map<Seq<char>, Seq<char>> {
    match parent {
        Some(p) => p,
        None => own,
    }
}

proof fn lemma_touched(
    m: Map<Seq<char>, Seq<char>>,
    prefix: Seq<char>,
    metas: Seq<Seq<char>>,
    key: Seq<char>,
)
    requires
        m.dom().contains(key),
        prefix.is_prefix_of(key) || exists|i: int|
            0 <= i < metas.len() && (#[trigger] metas[i]).is_prefix_of(key),
    ensures
        touched(m, prefix, metas).dom().contains(key),
        touched(m, prefix, metas)[key] == m[key],
{
}

/// An unnesting step of an object with a parent takes tags from the parent, whatever the object's
/// own tags are; one without takes them from the object itself. What is behind the prefix comes to
/// stand alone, and the tags that document it come along.
pub proof fn unnesting_step_moves_tags_out(
    step: InputTransform,
    s: StateV,
    parent: Option<Map<Seq<char>, Seq<char>>>,
    w: Setting,
    t: StateV,
    full: Seq<char>,
    rest: Seq<char>,
)
    requires
        step is UnnestTags,
        step->guard is Some ==> holds(step->guard->0@, seen(s, parent, w)),
        may_become(step, s, parent, w, t),
        unclashing(
            unnest_source(s.tags, parent, step->UnnestTags_prefix@, models(step->meta_prefixes@)),
            step->UnnestTags_prefix@,
            step->infix@,
            models(step->meta_prefixes@),
        ),
        step->infix@.len() == 0 ==> full == step->UnnestTags_prefix@,
        step->infix@.len() > 0 ==> full == step->UnnestTags_prefix@ + ":"@ + step->infix@,
    ensures
        ({
            let src = tags_read(s.tags, parent);
            let prefix = step->UnnestTags_prefix@;
            &&& src.dom().contains(full) ==> t.tags.dom().contains(prefix) && t.tags[prefix]
                == src[full]
            &&& src.dom().contains(full + ":"@ + rest) && (step->infix@.len() > 0 || !is_side(
                first_part(rest),
            )) ==> t.tags.dom().contains(rest) && t.tags[rest] == src[full + ":"@ + rest]
            &&& forall|i: int, m: Seq<char>|
                #![trigger step->meta_prefixes@[i], m.len()]
                0 <= i < step->meta_prefixes@.len() && step->meta_prefixes@[i]@ == m + ":"@
                    && m.len() > 0 && m.last() != ':' && src.dom().contains(full)
                    && src.dom().contains(step->meta_prefixes@[i]@ + full)
                    ==> t.tags.dom().contains(m) && t.tags[m] == src[step->meta_prefixes@[i]@
                    + full]
        }),
{
    let prefix = step->UnnestTags_prefix@;
    let metas = models(step->meta_prefixes@);
    let src = tags_read(s.tags, parent);
    let used = unnest_source(s.tags, parent, prefix, metas);
    let key = full + ":"@ + rest;
    assert(prefix.is_prefix_of(full)) by {
        assert(full.subrange(0, prefix.len() as int) =~= prefix);
    }
    assert(prefix.is_prefix_of(key)) by {
        assert(key.subrange(0, prefix.len() as int) =~= prefix);
    }
    if parent is None {
        if src.dom().contains(full) {
            lemma_touched(s.tags, prefix, metas, full);
        }
        if src.dom().contains(key) {
            lemma_touched(s.tags, prefix, metas, key);
        }
    }
    unnesting_moves_tags_out(used, prefix, step->infix@, metas, s.tags, t.tags, full, rest);
    assert forall|i: int, m: Seq<char>|
        #![trigger step->meta_prefixes@[i], m.len()]
        0 <= i < step->meta_prefixes@.len() && step->meta_prefixes@[i]@ == m + ":"@ && m.len() > 0
            && m.last() != ':' && src.dom().contains(full) && src.dom().contains(
            step->meta_prefixes@[i]@ + full,
        ) implies t.tags.dom().contains(m) && t.tags[m] == src[step->meta_prefixes@[i]@
        + full] by {
        let doc = metas[i] + full;
        assert(metas[i] == step->meta_prefixes@[i]@);
        assert(metas[i].is_prefix_of(doc)) by {
            assert(doc.subrange(0, metas[i].len() as int) =~= metas[i]);
        }
        if parent is None {
            lemma_touched(s.tags, prefix, metas, doc);
        }
        assert(used.dom().contains(doc) && used[doc] == src[doc]);
        assert(used.dom().contains(full));
    }
}

/// An unnesting step under which no tag stands changes nothing and notes nothing; one whose guard
/// does not hold changes nothing either.
pub proof fn unnesting_step_without_tags_does_nothing(
    step: InputTransform,
    s: StateV,
    parent: Option<Map<Seq<char>, Seq<char>>>,
    w: Setting,
    t: StateV,
)
    requires
        step is UnnestTags,
        may_become(step, s, parent, w, t),
        (step->guard is Some && !holds(step->guard->0@, seen(s, parent, w))) || ({
            let src = tags_read(s.tags, parent);
            forall|key: Seq<char>| #[trigger]
                src.dom().contains(key) ==> !stands_under(
                    key,
                    step->UnnestTags_prefix@,
                    step->infix@,
                )
        }),
    ensures
        t == s,
{
    let prefix = step->UnnestTags_prefix@;
    let metas = models(step->meta_prefixes@);
    let src = tags_read(s.tags, parent);
    let used = unnest_source(s.tags, parent, prefix, metas);
    if !(step->guard is Some && !holds(step->guard->0@, seen(s, parent, w))) {
        assert forall|key: Seq<char>| #[trigger] used.dom().contains(key) implies !stands_under(
            key,
            prefix,
            step->infix@,
        ) by {
            assert(src.dom().contains(key)) by {
                if parent is None {
                    assert(used == touched(s.tags, prefix, metas));
                }
            }
        }
        nothing_under_the_prefix_changes_nothing(
            used,
            prefix,
            step->infix@,
            metas,
            s.tags,
            t.tags,
        );
        if has_nested(used, prefix, step->infix@) {
            let k = choose|k: Seq<char>| #[trigger]
                used.dom().contains(k) && behind_prefix(k, prefix, step->infix@) is Some;
            lemma_behind(k, prefix, step->infix@);
        }
        assert(t == s);
    }
}

/// An unnesting step notes its infix exactly where some tag stands under the prefix.
pub proof fn infix_is_noted_where_tags_stand(
    step: InputTransform,
    s: StateV,
    parent: Option<Map<Seq<char>, Seq<char>>>,
    w: Setting,
    t: StateV,
    key: Seq<char>,
)
    requires
        step is UnnestTags,
        may_become(step, s, parent, w, t),
        step->guard is None,
        step->record_infix_as is Some,
        ({
            let src = tags_read(s.tags, parent);
            src.dom().contains(key)
        }),
        stands_under(key, step->UnnestTags_prefix@, step->infix@),
    ensures
        t.annotations == s.annotations.insert(
            step->record_infix_as->0@,
            ValueV::String(step->infix@),
        ),
{
    let prefix = step->UnnestTags_prefix@;
    let metas = models(step->meta_prefixes@);
    let used = unnest_source(s.tags, parent, prefix, metas);
    lemma_behind(key, prefix, step->infix@);
    let full = full_prefix(prefix, step->infix@);
    reveal_strlit(":");
    assert(prefix.is_prefix_of(key)) by {
        assert(key.subrange(0, prefix.len() as int) =~= prefix) by {
            if key != full {
                assert((full + ":"@) =~= key.subrange(0, (full.len() + 1) as int));
                assert forall|i: int| 0 <= i < prefix.len() implies key[i] == prefix[i] by {
                    assert((full + ":"@)[i] == key.subrange(0, (full.len() + 1) as int)[i]);
                }
            }
        }
    }
    assert(used.dom().contains(key));
}

// ── Stripping a prefix ──────────────────────────────────────────────────────────────────────

/// Whether stripping meets no clash: no key has the prefix twice, no stripped key is a marker, and no
/// marker has the prefix.
pub open spec fn strips_cleanly(
    before: Map<Seq<char>, Seq<char>>,
    prefix: Seq<char>,
    stamp_key: Seq<char>,
    nested_under: Seq<Seq<char>>,
) -> bool {
    &&& prefix.len() > 0
    &&& forall|b: Seq<char>| #[trigger]
        before.dom().contains(prefix + b) ==> !prefix.is_prefix_of(b) && !prefix.is_prefix_of(
            marker(b, stamp_key, nested_under),
        )
    &&& forall|b: Seq<char>, d: Seq<char>|
        #[trigger] before.dom().contains(prefix + b) && #[trigger] before.dom().contains(prefix + d)
            ==> marker(b, stamp_key, nested_under) != d
}

/// What is behind a prefix.
pub open spec fn behind(key: Seq<char>, prefix: Seq<char>) -> Seq<char> {
    key.subrange(prefix.len() as int, key.len() as int)
}

proof fn lemma_rejoined(key: Seq<char>, prefix: Seq<char>)
    requires
        prefix.is_prefix_of(key),
    ensures
        prefix + behind(key, prefix) == key,
{
    assert(prefix + behind(key, prefix) =~= key);
}

proof fn lemma_behind_joined(prefix: Seq<char>, b: Seq<char>)
    ensures
        prefix.is_prefix_of(prefix + b),
        behind(prefix + b, prefix) == b,
{
    assert((prefix + b).subrange(0, prefix.len() as int) =~= prefix);
    assert(behind(prefix + b, prefix) =~= b);
}

proof fn lemma_stripped(
    before: Map<Seq<char>, Seq<char>>,
    list: Seq<(Seq<char>, Seq<char>)>,
    prefix: Seq<char>,
    stamp_key: Seq<char>,
    stamp_value: Seq<char>,
    nested_under: Seq<Seq<char>>,
    n: int,
    k: Seq<char>,
)
    requires
        lists(list, before),
        strips_cleanly(before, prefix, stamp_key, nested_under),
        0 <= n <= list.len(),
    ensures
        ({
            let after = stripped_list(
                before,
                list.take(n),
                prefix,
                stamp_key,
                stamp_value,
                nested_under,
            );
            let stripped = exists|i: int|
                0 <= i < n && (#[trigger] list[i]).0 == prefix + k;
            let marked = exists|i: int|
                0 <= i < n && prefix.is_prefix_of((#[trigger] list[i]).0) && marker(
                    behind(list[i].0, prefix),
                    stamp_key,
                    nested_under,
                ) == k;
            let gone = prefix.is_prefix_of(k) && exists|i: int|
                0 <= i < n && (#[trigger] list[i]).0 == k;
            if marked {
                after.dom().contains(k) && after[k] == stamp_value
            } else if stripped {
                after.dom().contains(k) && after[k] == before[prefix + k]
            } else if gone {
                !after.dom().contains(k)
            } else {
                after.dom().contains(k) == before.dom().contains(k) && (before.dom().contains(k)
                    ==> after[k] == before[k])
            }
        }),
    decreases n,
{
    if n > 0 {
        lemma_stripped(
            before,
            list,
            prefix,
            stamp_key,
            stamp_value,
            nested_under,
            n - 1,
            k,
        );
        assert(list.take(n).drop_last() =~= list.take(n - 1));
        assert(list.take(n).last() == list[n - 1]);
        let key = list[n - 1].0;
        assert(before.dom().contains(key));
        let mid = stripped_list(
            before,
            list.take(n - 1),
            prefix,
            stamp_key,
            stamp_value,
            nested_under,
        );
        lemma_behind_joined(prefix, k);
        if prefix.is_prefix_of(key) {
            let b = behind(key, prefix);
            lemma_rejoined(key, prefix);
            lemma_stripped(
                before,
                list,
                prefix,
                stamp_key,
                stamp_value,
                nested_under,
                n - 1,
                key,
            );
            assert(before.dom().contains(prefix + b));
            // The key itself is neither stripped to nor marked before its turn.
            assert(!before.dom().contains(prefix + key)) by {
                if before.dom().contains(prefix + key) {
                    assert(prefix.is_prefix_of(key));
                }
            }
            assert forall|i: int|
                0 <= i < n - 1 && prefix.is_prefix_of((#[trigger] list[i]).0) implies marker(
                behind(list[i].0, prefix),
                stamp_key,
                nested_under,
            ) != key by {
                lemma_rejoined(list[i].0, prefix);
                assert(before.dom().contains(prefix + behind(list[i].0, prefix)));
            }
            assert forall|i: int| 0 <= i < n - 1 implies (#[trigger] list[i]).0 != key by {}
            assert(mid.dom().contains(key) && mid[key] == before[key]);
            if k == b {
                assert(prefix + k == key);
                assert forall|i: int|
                    0 <= i < n && prefix.is_prefix_of((#[trigger] list[i]).0) implies marker(
                    behind(list[i].0, prefix),
                    stamp_key,
                    nested_under,
                ) != k by {
                    lemma_rejoined(list[i].0, prefix);
                    assert(before.dom().contains(prefix + behind(list[i].0, prefix)));
                    assert(before.dom().contains(prefix + b));
                }
            }
        } else {
            if key == prefix + k {
                assert(prefix.is_prefix_of(key));
            }
        }
    } else {
        assert(list.take(0) =~= Seq::<(Seq<char>, Seq<char>)>::empty());
    }
}

/// Stripping moves every tag under the prefix to the key without it, with its value, over what
/// stood there, and takes the key with the prefix away. A marker stands beside it: under the
/// stripped key where that begins with one of the listed texts, else under the marker's own
/// name. Every other tag stays.
pub proof fn stripping_moves_tags_and_marks_them(
    before: Map<Seq<char>, Seq<char>>,
    prefix: Seq<char>,
    stamp_key: Seq<char>,
    stamp_value: Seq<char>,
    nested_under: Seq<Seq<char>>,
    after: Map<Seq<char>, Seq<char>>,
)
    requires
        may_strip(before, prefix, stamp_key, stamp_value, nested_under, after),
        strips_cleanly(before, prefix, stamp_key, nested_under),
    ensures
        forall|b: Seq<char>| #[trigger]
            before.dom().contains(prefix + b) ==> {
                let nested = exists|i: int|
                    0 <= i < nested_under.len() && (#[trigger] nested_under[i]).is_prefix_of(b);
                &&& after.dom().contains(b)
                &&& after[b] == before[prefix + b]
                &&& !after.dom().contains(prefix + b)
                &&& nested ==> after.dom().contains(b + ":"@ + stamp_key) && after[b + ":"@
                    + stamp_key] == stamp_value
                &&& !nested ==> after.dom().contains(stamp_key) && after[stamp_key] == stamp_value
            },
        forall|k: Seq<char>|
            #![trigger after.dom().contains(k)]
            !prefix.is_prefix_of(k) && !before.dom().contains(prefix + k) && (forall|b: Seq<char>|
                #[trigger] before.dom().contains(prefix + b) ==> k != stamp_key && k != b + ":"@
                    + stamp_key) ==> after.dom().contains(k) == before.dom().contains(k) && (
            before.dom().contains(k) ==> after[k] == before[k]),
{
    let list = choose|list: Seq<(Seq<char>, Seq<char>)>| #[trigger]
        lists(list, before) && after == stripped_list(
            before,
            list,
            prefix,
            stamp_key,
            stamp_value,
            nested_under,
        );
    let n = list.len() as int;
    assert(list.take(n) =~= list);
    assert forall|b: Seq<char>| #[trigger] before.dom().contains(prefix + b) implies ({
        let nested = exists|i: int|
            0 <= i < nested_under.len() && (#[trigger] nested_under[i]).is_prefix_of(b);
        &&& after.dom().contains(b)
        &&& after[b] == before[prefix + b]
        &&& !after.dom().contains(prefix + b)
        &&& nested ==> after.dom().contains(b + ":"@ + stamp_key) && after[b + ":"@ + stamp_key]
            == stamp_value
        &&& !nested ==> after.dom().contains(stamp_key) && after[stamp_key] == stamp_value
    }) by {
        let i = choose|i: int| 0 <= i < list.len() && (#[trigger] list[i]).0 == prefix + b;
        let mk = marker(b, stamp_key, nested_under);
        lemma_behind_joined(prefix, b);
        lemma_stripped(before, list, prefix, stamp_key, stamp_value, nested_under, n, b);
        lemma_stripped(before, list, prefix, stamp_key, stamp_value, nested_under, n, mk);
        lemma_stripped(before, list, prefix, stamp_key, stamp_value, nested_under, n, prefix + b);
        assert(list[i].0 == prefix + b);
        assert forall|j: int|
            0 <= j < n && prefix.is_prefix_of((#[trigger] list[j]).0) implies marker(
            behind(list[j].0, prefix),
            stamp_key,
            nested_under,
        ) != b && marker(behind(list[j].0, prefix), stamp_key, nested_under) != prefix + b by {
            lemma_rejoined(list[j].0, prefix);
            assert(before.dom().contains(prefix + behind(list[j].0, prefix)));
        }
        assert forall|j: int| 0 <= j < n implies (#[trigger] list[j]).0 != prefix + (prefix
            + b) by {
            if list[j].0 == prefix + (prefix + b) {
                assert(before.dom().contains(prefix + (prefix + b)));
            }
        }
    }
    assert forall|k: Seq<char>|
        #![trigger after.dom().contains(k)]
        !prefix.is_prefix_of(k) && !before.dom().contains(prefix + k) && (forall|b: Seq<char>|
            #[trigger] before.dom().contains(prefix + b) ==> k != stamp_key && k != b + ":"@
                + stamp_key) implies after.dom().contains(k) == before.dom().contains(k) && (
    before.dom().contains(k) ==> after[k] == before[k]) by {
        lemma_stripped(before, list, prefix, stamp_key, stamp_value, nested_under, n, k);
        assert forall|j: int|
            0 <= j < n && prefix.is_prefix_of((#[trigger] list[j]).0) implies marker(
            behind(list[j].0, prefix),
            stamp_key,
            nested_under,
        ) != k by {
            lemma_rejoined(list[j].0, prefix);
            assert(before.dom().contains(prefix + behind(list[j].0, prefix)));
        }
    }
}

/// A stripping step does so to the object's own tags, whatever its parent has, and notes nothing.
pub proof fn stripping_step_strips_the_own_tags(
    step: InputTransform,
    s: StateV,
    parent: Option<Map<Seq<char>, Seq<char>>>,
    w: Setting,
    t: StateV,
    b: Seq<char>,
)
    requires
        step is StripPrefix,
        may_become(step, s, parent, w, t),
        strips_cleanly(
            s.tags,
            step->StripPrefix_prefix@,
            step->stamp_key@,
            models(step->stamp_nested_under@),
        ),
        s.tags.dom().contains(step->StripPrefix_prefix@ + b),
    ensures
        t.annotations == s.annotations,
        t.tags.dom().contains(b),
        t.tags[b] == s.tags[step->StripPrefix_prefix@ + b],
        !t.tags.dom().contains(step->StripPrefix_prefix@ + b),
        ({
            let under = step->stamp_nested_under@;
            let nested = exists|i: int|
                0 <= i < under.len() && (#[trigger] under[i])@.is_prefix_of(b);
            let key = if nested {
                b + ":"@ + step->stamp_key@
            } else {
                step->stamp_key@
            };
            t.tags.dom().contains(key) && t.tags[key] == step->stamp_value@
        }),
{
    let under = step->stamp_nested_under@;
    let texts = models(under);
    stripping_moves_tags_and_marks_them(
        s.tags,
        step->StripPrefix_prefix@,
        step->stamp_key@,
        step->stamp_value@,
        texts,
        t.tags,
    );
    assert(s.tags.dom().contains(step->StripPrefix_prefix@ + b));
    if exists|i: int| 0 <= i < under.len() && (#[trigger] under[i])@.is_prefix_of(b) {
        let i = choose|i: int| 0 <= i < under.len() && (#[trigger] under[i])@.is_prefix_of(b);
        assert(texts[i] == under[i]@);
    }
    if exists|i: int| 0 <= i < texts.len() && (#[trigger] texts[i]).is_prefix_of(b) {
        let i = choose|i: int| 0 <= i < texts.len() && (#[trigger] texts[i]).is_prefix_of(b);
        assert(texts[i] == under[i]@);
    }
}

// ── Directed reads ──────────────────────────────────────────────────────────────────────────

/// On the left side of a road with right-hand traffic one goes backward, on its right side forward;
/// with left-hand traffic it is the other way round.
pub proof fn sides_have_directions()
    ensures
        direction("left"@, false) == Some(":backward"@),
        direction("right"@, false) == Some(":forward"@),
        direction("left"@, true) == Some(":forward"@),
        direction("right"@, true) == Some(":backward"@),
        direction("self"@, false) is None,
        direction("self"@, true) is None,
{
    reveal_strlit("left");
    reveal_strlit("right");
    reveal_strlit("self");
    assert("left"@[0] == 'l' && "right"@[0] == 'r' && "self"@[0] == 's');
}

/// A directed read of the object writes the value of the key for the direction of its side, unless
/// the key itself is set or there is no such value; nothing else changes.
pub proof fn directed_reads_take_the_own_direction(
    step: InputTransform,
    s: StateV,
    parent: Option<Map<Seq<char>, Seq<char>>>,
    w: Setting,
    t: StateV,
    side: Seq<char>,
    suffix: Seq<char>,
)
    requires
        step is DirectedExtract,
        step->from == DirectedFrom::Obj,
        step->sanitize@.len() == 0,
        may_become(step, s, parent, w, t),
        s.annotations.dom().contains("_side"@),
        s.annotations["_side"@] == ValueV::String(side),
        direction(side, w.left_hand_traffic) == Some(suffix),
    ensures
        t.annotations == s.annotations,
        ({
            let own = s.tags.dom().contains(step->DirectedExtract_key@);
            let key = step->DirectedExtract_key@ + suffix;
            t.tags == (if !own && s.tags.dom().contains(key) {
                s.tags.insert(step->DirectedExtract_output@, s.tags[key])
            } else {
                s.tags
            })
        }),
{
    reveal_with_fuel(first_set, 3);
    let key = step->DirectedExtract_key@ + suffix;
    assert(seq![key].skip(1) =~= Seq::<Seq<char>>::empty());
    assert(models(step->sanitize@) =~= Seq::empty());
}

/// A directed read of the parent takes the parent's value of the key, and only where the parent has
/// none the value for the direction.
pub proof fn directed_reads_prefer_the_plain_key_of_the_parent(
    step: InputTransform,
    s: StateV,
    p: Map<Seq<char>, Seq<char>>,
    w: Setting,
    t: StateV,
    side: Seq<char>,
    suffix: Seq<char>,
)
    requires
        step is DirectedExtract,
        step->from == DirectedFrom::Parent,
        step->sanitize@.len() == 0,
        may_become(step, s, Some(p), w, t),
        s.annotations.dom().contains("_side"@),
        s.annotations["_side"@] == ValueV::String(side),
        direction(side, w.left_hand_traffic) == Some(suffix),
        !s.tags.dom().contains(step->DirectedExtract_key@),
    ensures
        ({
            let plain = step->DirectedExtract_key@;
            let key = plain + suffix;
            t.tags == (if p.dom().contains(plain) {
                s.tags.insert(step->DirectedExtract_output@, p[plain])
            } else if p.dom().contains(key) {
                s.tags.insert(step->DirectedExtract_output@, p[key])
            } else {
                s.tags
            })
        }),
{
    reveal_with_fuel(first_set, 4);
    let plain = step->DirectedExtract_key@;
    let key = plain + suffix;
    assert(seq![plain, key].skip(1) =~= seq![key]);
    assert(seq![key].skip(1) =~= Seq::<Seq<char>>::empty());
    assert(models(step->sanitize@) =~= Seq::empty());
}

// ── Rules and drops ─────────────────────────────────────────────────────────────────────────

/// A tag rule writes the text that its source gives and takes the tag away where it gives null;
/// where it gives nothing the tag stays. No other tag changes.
pub proof fn tag_rules_write_one_tag(
    step: InputTransform,
    s: StateV,
    parent: Option<Map<Seq<char>, Seq<char>>>,
    w: Setting,
    t: StateV,
)
    requires
        step is TagRule,
        may_become(step, s, parent, w, t),
    ensures
        t.annotations == s.annotations,
        forall|k: Seq<char>|
            #![trigger t.tags.dom().contains(k)]
            k != step->TagRule_output@ ==> t.tags.dom().contains(k) == s.tags.dom().contains(k)
                && t.tags[k] == s.tags[k],
        step->source@ matches ProducerV::Const { value, .. } ==> {
            &&& value matches ValueV::String(x) ==> t.tags == s.tags.insert(
                step->TagRule_output@,
                x,
            )
            &&& value is Null ==> t.tags == s.tags.remove(step->TagRule_output@)
        },
        step->source@ matches ProducerV::Extract {
            extract: ExtractV::Value { key, sanitize },
            ..
        } ==> (sanitize.len() == 0 ==> t.tags == (if s.tags.dom().contains(key) {
            s.tags.insert(step->TagRule_output@, s.tags[key])
        } else {
            s.tags
        })),
{
    reveal_with_fuel(first_set, 3);
    if step->source@ is Extract {
        match step->source@->Extract_extract {
            ExtractV::Value { key, sanitize } => {
                assert(seq![key].skip(1) =~= Seq::<Seq<char>>::empty());
            },
            _ => {},
        }
    }
}

/// A drop takes the object out exactly where its condition holds; no other step does. A condition
/// sees the object's current tags and notes, and the parent that it is given.
pub proof fn only_drops_take_objects_out(
    step: InputTransform,
    s: StateV,
    parent: Option<Map<Seq<char>, Seq<char>>>,
    w: Setting,
)
    ensures
        !keeps(step, s, parent, w) <==> step is Drop && holds(step->when@, seen(s, parent, w)),
        seen(s, parent, w).obj == s.tags,
        seen(s, parent, w).parent == parent,
        seen(s, parent, w).annotations == s.annotations,
        step is Drop && step->when@ == FilterV::TagsEmpty(true) ==> (keeps(step, s, parent, w)
            <==> s.tags != Map::<Seq<char>, Seq<char>>::empty()),
        forall|t: StateV| step is Drop && #[trigger] may_become(step, s, parent, w, t) ==> t == s,
{
}

// ── Objects that are split off ──────────────────────────────────────────────────────────────

/// An object that is split off starts without tags and with what is noted of it, and its steps see
/// the current object as its parent. Its id is that of the current object, a slash and the suffix.
/// None is split off where the condition does not hold of the current object.
pub proof fn split_objects_start_empty(
    spec: CloneStep,
    s: StateV,
    id: Seq<char>,
    w: Setting,
    more: Seq<SpawnedV>,
)
    requires
        may_spawn(spec, s, id, w, more),
    ensures
        more.len() <= 1,
        spec.when is Some && !holds(spec.when->0@, seen(s, None, w)) ==> more.len() == 0,
        more.len() == 1 ==> more[0].id == id + "/"@ + spec.id_suffix@,
        more.len() == 1 ==> exists|ms: Seq<StateV>|
            {
                &&& #[trigger] is_build(spec.steps@, ms, Some(s.tags), w)
                &&& ms[0].tags == Map::<Seq<char>, Seq<char>>::empty()
                &&& ms[0].annotations == noted(models(spec.annotate@))
                &&& ms.last() == more[0].state
            },
        (spec.when is None || holds(spec.when->0@, seen(s, None, w))) && spec.steps@.len() == 0
            ==> more.len() == 1 && more[0].state.tags == Map::<Seq<char>, Seq<char>>::empty()
            && more[0].state.annotations == noted(models(spec.annotate@)),
{
    if more.len() == 1 {
        let t = choose|t: StateV| #[trigger]
            may_build(spec.steps@, fresh(spec), Some(s.tags), w, t) && more == seq![
                SpawnedV { state: t, id: id + "/"@ + spec.id_suffix@ },
            ];
        let ms = choose|ms: Seq<StateV>| #[trigger]
            is_build(spec.steps@, ms, Some(s.tags), w) && ms[0] == fresh(spec) && ms.last() == t;
        assert(is_build(spec.steps@, ms, Some(s.tags), w));
    }
}

/// What is noted of a new object is each pair, the later of two with one key counting.
pub proof fn later_notes_count(pairs: Seq<(Seq<char>, Seq<char>)>, i: int)
    requires
        0 <= i < pairs.len(),
        forall|j: int| i < j < pairs.len() ==> (#[trigger] pairs[j]).0 != pairs[i].0,
    ensures
        noted(pairs).dom().contains(pairs[i].0),
        noted(pairs)[pairs[i].0] == ValueV::String(pairs[i].1),
    decreases pairs.len(),
{
    if i < pairs.len() - 1 {
        let rest = pairs.drop_last();
        assert forall|j: int| i < j < rest.len() implies (#[trigger] rest[j]).0 != rest[i].0 by {
            assert(rest[j] == pairs[j]);
        }
        later_notes_count(rest, i);
        assert(pairs[pairs.len() - 1].0 != pairs[i].0);
    }
}

/// An object for a side is not made where the way has no tag for it: where the steps of the new
/// object unnest tags of the way and then drop an object without tags, and no tag of the way stands
/// under any of what they unnest, nothing is split off.
pub proof fn sides_without_tags_are_not_split_off(
    spec: CloneStep,
    s: StateV,
    id: Seq<char>,
    w: Setting,
    more: Seq<SpawnedV>,
    n: int,
)
    requires
        may_spawn(spec, s, id, w, more),
        0 <= n < spec.steps@.len(),
        spec.steps@[n] is Drop,
        spec.steps@[n]->when@ == FilterV::TagsEmpty(true),
        forall|i: int|
            0 <= i < n ==> (#[trigger] spec.steps@[i]) is UnnestTags && forall|key: Seq<char>|
                #[trigger]
                s.tags.dom().contains(key) ==> !stands_under(
                    key,
                    spec.steps@[i]->UnnestTags_prefix@,
                    spec.steps@[i]->infix@,
                ),
    ensures
        more.len() == 0,
{
    split_objects_start_empty(spec, s, id, w, more);
    if more.len() == 1 {
        let ms = choose|ms: Seq<StateV>|
            {
                &&& #[trigger] is_build(spec.steps@, ms, Some(s.tags), w)
                &&& ms[0].tags == Map::<Seq<char>, Seq<char>>::empty()
                &&& ms[0].annotations == noted(models(spec.annotate@))
                &&& ms.last() == more[0].state
            };
        lemma_stays_empty(spec, s, w, ms, n);
        assert(keeps(spec.steps@[n], ms[n], Some(s.tags), w));
        only_drops_take_objects_out(spec.steps@[n], ms[n], Some(s.tags), w);
    }
}

proof fn lemma_stays_empty(spec: CloneStep, s: StateV, w: Setting, ms: Seq<StateV>, n: int)
    requires
        0 <= n < spec.steps@.len(),
        is_build(spec.steps@, ms, Some(s.tags), w),
        ms[0].tags == Map::<Seq<char>, Seq<char>>::empty(),
        forall|i: int|
            0 <= i < n ==> (#[trigger] spec.steps@[i]) is UnnestTags && forall|key: Seq<char>|
                #[trigger]
                s.tags.dom().contains(key) ==> !stands_under(
                    key,
                    spec.steps@[i]->UnnestTags_prefix@,
                    spec.steps@[i]->infix@,
                ),
    ensures
        ms[n].tags == Map::<Seq<char>, Seq<char>>::empty(),
    decreases n,
{
    if n > 0 {
        lemma_stays_empty(spec, s, w, ms, n - 1);
        let step = spec.steps@[n - 1];
        assert(may_become(step, ms[n - 1], Some(s.tags), w, ms[n - 1 + 1]));
        unnesting_step_without_tags_does_nothing(step, ms[n - 1], Some(s.tags), w, ms[n]);
    }
}

/// An object is split off wherever its condition holds and none of its steps is a drop.
pub proof fn objects_that_nothing_drops_are_split_off(
    spec: CloneStep,
    s: StateV,
    id: Seq<char>,
    w: Setting,
    more: Seq<SpawnedV>,
)
    requires
        may_spawn(spec, s, id, w, more),
        spec.when is None || holds(spec.when->0@, seen(s, None, w)),
        forall|i: int| 0 <= i < spec.steps@.len() ==> !((#[trigger] spec.steps@[i]) is Drop),
    ensures
        more.len() == 1,
{
    assert(!may_drop(spec.steps@, fresh(spec), Some(s.tags), w)) by {
        if may_drop(spec.steps@, fresh(spec), Some(s.tags), w) {
            let (k, m) = choose|k: int, m: StateV|
                0 <= k < spec.steps@.len() && #[trigger] may_build(
                    spec.steps@.take(k),
                    fresh(spec),
                    Some(s.tags),
                    w,
                    m,
                ) && !keeps(spec.steps@[k], m, Some(s.tags), w);
            only_drops_take_objects_out(spec.steps@[k], m, Some(s.tags), w);
        }
    }
}

/// A step that splits an object off leaves the current object and those split off before as they
/// are; a step that transforms the current object splits nothing off.
pub proof fn steps_change_one_thing(
    step: TransformStep,
    a: RunV,
    id: Seq<char>,
    w: Setting,
    b: RunV,
)
    requires
        may_step(step, a, id, w, b),
    ensures
        step is Clone ==> b.state == a.state,
        step is Clone ==> a.clones.len() <= b.clones.len() <= a.clones.len() + 1,
        a.clones == b.clones.take(a.clones.len() as int),
        step matches TransformStep::Clone(spec) ==> (b.clones.len() > a.clones.len()
            ==> b.clones.last().id == id + "/"@ + spec.id_suffix@),
        step is Transform ==> b.clones == a.clones,
{
    match step {
        TransformStep::Clone(spec) => {
            let more = choose|more: Seq<SpawnedV>| #[trigger]
                may_spawn(spec, a.state, id, w, more) && b.clones == a.clones + more;
            split_objects_start_empty(spec, a.state, id, w, more);
            assert(a.clones =~= b.clones.take(a.clones.len() as int));
        },
        TransformStep::Transform(_) => {
            assert(a.clones =~= b.clones.take(a.clones.len() as int));
        },
    }
}

/// A run only ends early at a drop whose condition holds of the object as it is then.
pub proof fn only_drops_end_a_run(
    steps: Seq<TransformStep>,
    a: RunV,
    id: Seq<char>,
    w: Setting,
    b: RunV,
)
    requires
        may_stop(steps, a, id, w, b),
    ensures
        exists|k: int|
            {
                &&& 0 <= k < steps.len()
                &&& (#[trigger] steps[k]) matches TransformStep::Transform(
                    InputTransform::Drop { when },
                ) && holds(when@, seen(b.state, None, w))
            },
{
    let k = choose|k: int|
        0 <= k < steps.len() && #[trigger] may_reach(steps.take(k), a, id, w, b)
            && steps[k] is Transform && !keeps(steps[k]->Transform_0, b.state, None, w);
    only_drops_take_objects_out(steps[k]->Transform_0, b.state, None, w);
}

} // verus!

//! Runs of the transform pipeline, and what holds of unnesting whatever the order of the tags.
use vstd::prelude::*;

use crate::categorize::transform::{
    applicable, behind_prefix, keeps, list_writes, may_become, may_unnest, seen, spawned_view,
    state, tag_writes, written, CloneStep, InputTransform, Setting, Spawned, SpawnedV, StateV,
    TransformStep,
};
use crate::lang::context::{parent_map, ExtractCtx};
use crate::lang::filter::{eval, holds};
use crate::model::models;
use crate::tags::{lists, no_tags, tag_map, untagged, RawTags};
use crate::text::concat3;
use crate::value::{Fields, Value, ValueV};

verus! {

/// Whether the objects `ms` are what steps that all keep the object may make, one after the other.
pub open spec fn is_build(
    steps: Seq<InputTransform>,
    ms: Seq<StateV>,
    parent: Option<Map<Seq<char>, Seq<char>>>,
    w: Setting,
) -> bool {
    &&& ms.len() == steps.len() + 1
    &&& forall|i: int|
        0 <= i < steps.len() ==> keeps(#[trigger] steps[i], ms[i], parent, w) && may_become(
            steps[i],
            ms[i],
            parent,
            w,
            ms[i + 1],
        )
}

/// Whether steps that all keep the object may make `t` of the object `s`.
pub open spec fn may_build(
    steps: Seq<InputTransform>,
    s: StateV,
    parent: Option<Map<Seq<char>, Seq<char>>>,
    w: Setting,
    t: StateV,
) -> bool {
    exists|ms: Seq<StateV>| #[trigger]
        is_build(steps, ms, parent, w) && ms[0] == s && ms.last() == t
}

proof fn lemma_build_more(
    steps: Seq<InputTransform>,
    k: int,
    s: StateV,
    parent: Option<Map<Seq<char>, Seq<char>>>,
    w: Setting,
    m: StateV,
    t: StateV,
)
    requires
        0 <= k < steps.len(),
        may_build(steps.take(k), s, parent, w, m),
        keeps(steps[k], m, parent, w),
        may_become(steps[k], m, parent, w, t),
    ensures
        may_build(steps.take(k + 1), s, parent, w, t),
{
    let ms = choose|ms: Seq<StateV>| #[trigger]
        is_build(steps.take(k), ms, parent, w) && ms[0] == s && ms.last() == m;
    let next = ms.push(t);
    assert(is_build(steps.take(k + 1), next, parent, w)) by {
        assert forall|i: int| 0 <= i < k + 1 implies keeps(
            #[trigger] steps.take(k + 1)[i],
            next[i],
            parent,
            w,
        ) && may_become(steps.take(k + 1)[i], next[i], parent, w, next[i + 1]) by {
            if i < k {
                assert(steps.take(k)[i] == steps.take(k + 1)[i]);
            }
        }
    }
    assert(next[0] == s && next.last() == t);
}

/// Whether one of the steps may drop the object.
pub open spec fn may_drop(
    steps: Seq<InputTransform>,
    s: StateV,
    parent: Option<Map<Seq<char>, Seq<char>>>,
    w: Setting,
) -> bool {
    exists|k: int, m: StateV|
        0 <= k < steps.len() && #[trigger] may_build(steps.take(k), s, parent, w, m) && !keeps(
            steps[k],
            m,
            parent,
            w,
        )
}

/// Whether every step can be applied to whatever the steps before it may make.
pub open spec fn all_applicable(
    steps: Seq<InputTransform>,
    s: StateV,
    parent: Option<Map<Seq<char>, Seq<char>>>,
    w: Setting,
) -> bool {
    forall|k: int, m: StateV|
        0 <= k < steps.len() && #[trigger] may_build(steps.take(k), s, parent, w, m) ==> applicable(
            steps[k],
            m,
            parent,
            w,
        )
}

/// What is noted of a new object: pairs, the later of two with one key counting.
pub open spec fn noted(pairs: Seq<(Seq<char>, Seq<char>)>) -> Map<Seq<char>, ValueV>
    decreases pairs.len(),
{
    if pairs.len() == 0 {
        Map::empty()
    } else {
        noted(pairs.drop_last()).insert(pairs.last().0, ValueV::String(pairs.last().1))
    }
}

/// The new object before its steps.
pub open spec fn fresh(spec: CloneStep) -> StateV {
    StateV { tags: untagged(), annotations: noted(models(spec.annotate@)) }
}

/// Whether a further object is tried.
pub open spec fn is_tried(spec: CloneStep, s: StateV, w: Setting) -> bool {
    spec.when is Some ==> holds(spec.when->0@, seen(s, None, w))
}

/// Whether the step may append `more` to the objects made so far: nothing where the further object
/// is not tried or is dropped, else that object.
pub open spec fn may_spawn(
    spec: CloneStep,
    s: StateV,
    id: Seq<char>,
    w: Setting,
    more: Seq<SpawnedV>,
) -> bool {
    if !is_tried(spec, s, w) {
        more.len() == 0
    } else {
        ||| may_drop(spec.steps@, fresh(spec), Some(s.tags), w) && more.len() == 0
        ||| exists|t: StateV| #[trigger]
            may_build(spec.steps@, fresh(spec), Some(s.tags), w, t) && more == seq![
                SpawnedV { state: t, id: id + "/"@ + spec.id_suffix@ },
            ]
    }
}

/// An object between two steps of the pipeline, with the objects made of it so far.
#[verifier::ext_equal]
pub struct RunV {
    pub state: StateV,
    pub clones: Seq<SpawnedV>,
}

/// Whether a step of the pipeline may lead from one to the other, keeping the object.
pub open spec fn may_step(
    step: TransformStep,
    a: RunV,
    id: Seq<char>,
    w: Setting,
    b: RunV,
) -> bool {
    match step {
        TransformStep::Transform(it) => {
            &&& keeps(it, a.state, None, w)
            &&& may_become(it, a.state, None, w, b.state)
            &&& b.clones == a.clones
        },
        TransformStep::Clone(spec) => {
            &&& b.state == a.state
            &&& exists|more: Seq<SpawnedV>| #[trigger]
                may_spawn(spec, a.state, id, w, more) && b.clones == a.clones + more
        },
    }
}

/// Whether a run stands at `ms` before, between and behind the steps, keeping the object.
pub open spec fn is_run(
    steps: Seq<TransformStep>,
    ms: Seq<RunV>,
    id: Seq<char>,
    w: Setting,
) -> bool {
    &&& ms.len() == steps.len() + 1
    &&& forall|i: int|
        0 <= i < steps.len() ==> may_step(#[trigger] steps[i], ms[i], id, w, ms[i + 1])
}

/// Whether the steps may lead from one to the other, keeping the object.
pub open spec fn may_reach(
    steps: Seq<TransformStep>,
    a: RunV,
    id: Seq<char>,
    w: Setting,
    b: RunV,
) -> bool {
    exists|ms: Seq<RunV>| #[trigger]
        is_run(steps, ms, id, w) && ms[0] == a && ms.last() == b
}

proof fn lemma_reach_more(
    steps: Seq<TransformStep>,
    k: int,
    a: RunV,
    id: Seq<char>,
    w: Setting,
    m: RunV,
    b: RunV,
)
    requires
        0 <= k < steps.len(),
        may_reach(steps.take(k), a, id, w, m),
        may_step(steps[k], m, id, w, b),
    ensures
        may_reach(steps.take(k + 1), a, id, w, b),
{
    let ms = choose|ms: Seq<RunV>| #[trigger]
        is_run(steps.take(k), ms, id, w) && ms[0] == a && ms.last() == m;
    let next = ms.push(b);
    assert(is_run(steps.take(k + 1), next, id, w)) by {
        assert forall|i: int| 0 <= i < k + 1 implies may_step(
            #[trigger] steps.take(k + 1)[i],
            next[i],
            id,
            w,
            next[i + 1],
        ) by {
            if i < k {
                assert(steps.take(k)[i] == steps.take(k + 1)[i]);
            }
        }
    }
    assert(next[0] == a && next.last() == b);
}

/// Whether the steps may lead from one to the other, where the object is dropped.
pub open spec fn may_stop(
    steps: Seq<TransformStep>,
    a: RunV,
    id: Seq<char>,
    w: Setting,
    b: RunV,
) -> bool {
    exists|k: int|
        0 <= k < steps.len() && #[trigger] may_reach(steps.take(k), a, id, w, b)
            && steps[k] is Transform && !keeps(steps[k]->Transform_0, b.state, None, w)
}

/// Whether a step of the pipeline can be applied.
pub open spec fn step_applicable(step: TransformStep, s: StateV, w: Setting) -> bool {
    match step {
        TransformStep::Transform(it) => applicable(it, s, None, w),
        TransformStep::Clone(spec) => is_tried(spec, s, w) ==> all_applicable(
            spec.steps@,
            fresh(spec),
            Some(s.tags),
            w,
        ),
    }
}

/// Whether every step can be applied to whatever the steps before it may lead to.
pub open spec fn pipeline_applicable(
    steps: Seq<TransformStep>,
    a: RunV,
    id: Seq<char>,
    w: Setting,
) -> bool {
    forall|k: int, m: RunV|
        0 <= k < steps.len() && #[trigger] may_reach(steps.take(k), a, id, w, m)
            ==> step_applicable(steps[k], m.state, w)
}

fn note_all(pairs: &Vec<(String, String)>) -> (r: Fields)
    ensures
        r@ == noted(models(pairs@)),
{
    let mut out = Fields::new();
    let ghost pv = models(pairs@);
    for i in 0..pairs.len()
        invariant
            pv == models(pairs@),
            out@ == noted(pv.take(i as int)),
    {
        proof {
            assert(pv.take(i + 1).drop_last() =~= pv.take(i as int));
            assert(pv.take(i + 1).last() == pv[i as int]);
        }
        out.insert(pairs[i].0.clone(), Value::String(pairs[i].1.clone()));
    }
    proof {
        assert(pv.take(pv.len() as int) =~= pv);
    }
    out
}

/// Builds the further object of a step, where none of its steps drops it.
fn spawn(
    spec: &CloneStep,
    parent: &RawTags,
    id: &str,
    setting: &Setting,
    Ghost(s): Ghost<StateV>,
) -> (r: Option<Spawned>)
    requires
        s.tags == tag_map(*parent),
        all_applicable(spec.steps@, fresh(*spec), Some(s.tags), *setting),
    ensures
        match r {
            Some(c) => exists|t: StateV| #[trigger]
                may_build(spec.steps@, fresh(*spec), Some(s.tags), *setting, t) && c@ == (SpawnedV {
                    state: t,
                    id: id@ + "/"@ + spec.id_suffix@,
                }),
            None => may_drop(spec.steps@, fresh(*spec), Some(s.tags), *setting),
        },
{
    let mut tags = no_tags();
    let mut annotations = note_all(&spec.annotate);
    let ghost start = fresh(*spec);
    let ghost sv = spec.steps@;
    proof {
        assert(state(tags, annotations) =~= start);
        assert(is_build(sv.take(0), seq![start], Some(s.tags), *setting));
        assert(may_build(sv.take(0), start, Some(s.tags), *setting, start));
    }
    for i in 0..spec.steps.len()
        invariant
            sv == spec.steps@,
            start == fresh(*spec),
            s.tags == tag_map(*parent),
            all_applicable(sv, start, Some(s.tags), *setting),
            may_build(
                sv.take(i as int),
                start,
                Some(s.tags),
                *setting,
                state(tags, annotations),
            ),
    {
        let ghost m = state(tags, annotations);
        proof {
            assert(applicable(sv[i as int], m, Some(s.tags), *setting));
            assert(parent_map(Some(parent)) == Some(s.tags));
        }
        if !spec.steps[i].apply(&mut tags, &mut annotations, Some(parent), setting) {
            proof {
                assert(may_build(sv.take(i as int), start, Some(s.tags), *setting, m));
                assert(!keeps(sv[i as int], m, Some(s.tags), *setting));
            }
            return None;
        }
        proof {
            lemma_build_more(
                sv,
                i as int,
                start,
                Some(s.tags),
                *setting,
                m,
                state(tags, annotations),
            );
        }
    }
    proof {
        assert(sv.take(sv.len() as int) =~= sv);
    }
    let r = Spawned { tags, annotations, id: concat3(id, "/", spec.id_suffix.as_str()) };
    proof {
        assert(may_build(sv, start, Some(s.tags), *setting, r@.state));
    }
    Some(r)
}

/// The object that a run stands at.
pub open spec fn run_state(tags: RawTags, annotations: Fields, clones: Vec<Spawned>) -> RunV {
    RunV { state: state(tags, annotations), clones: spawned_view(clones@) }
}

/// Runs the steps on an object, in place, and appends the objects they make. Whether the object
/// stays: where a step drops it, the run stops there, and nothing of it is to be emitted.
pub fn run_transform_steps(
    tags: &mut RawTags,
    annotations: &mut Fields,
    steps: &Vec<TransformStep>,
    default_id: &str,
    clones: &mut Vec<Spawned>,
    setting: &Setting,
) -> (r: bool)
    requires
        pipeline_applicable(
            steps@,
            run_state(*old(tags), *old(annotations), *old(clones)),
            default_id@,
            *setting,
        ),
    ensures
        r ==> may_reach(
            steps@,
            run_state(*old(tags), *old(annotations), *old(clones)),
            default_id@,
            *setting,
            run_state(*final(tags), *final(annotations), *final(clones)),
        ),
        !r ==> may_stop(
            steps@,
            run_state(*old(tags), *old(annotations), *old(clones)),
            default_id@,
            *setting,
            run_state(*final(tags), *final(annotations), *final(clones)),
        ),
{
    let ghost a = run_state(*tags, *annotations, *clones);
    let ghost id = default_id@;
    let ghost sv = steps@;
    proof {
        assert(is_run(sv.take(0), seq![a], id, *setting));
        assert(may_reach(sv.take(0), a, id, *setting, a));
    }
    for i in 0..steps.len()
        invariant
            sv == steps@,
            id == default_id@,
            a == run_state(*old(tags), *old(annotations), *old(clones)),
            pipeline_applicable(sv, a, id, *setting),
            may_reach(
                sv.take(i as int),
                a,
                id,
                *setting,
                run_state(*tags, *annotations, *clones),
            ),
    {
        let ghost m = run_state(*tags, *annotations, *clones);
        proof {
            assert(step_applicable(sv[i as int], m.state, *setting));
        }
        match &steps[i] {
            TransformStep::Transform(it) => {
                if !it.apply(tags, annotations, None, setting) {
                    proof {
                        assert(run_state(*tags, *annotations, *clones) == m);
                        assert(may_reach(sv.take(i as int), a, id, *setting, m));
                    }
                    return false;
                }
                proof {
                    let next = run_state(*tags, *annotations, *clones);
                    assert(may_step(sv[i as int], m, id, *setting, next));
                    lemma_reach_more(sv, i as int, a, id, *setting, m, next);
                }
            },
            TransformStep::Clone(spec) => {
                let tried = match &spec.when {
                    Some(when) => {
                        let ctx = ExtractCtx {
                            obj_tags: tags,
                            parent_tags: None,
                            id: "",
                            annotations,
                            value_sets: setting.value_sets,
                            readings: setting.readings,
                        };
                        eval(when, &ctx)
                    },
                    None => true,
                };
                let ghost mut more: Seq<SpawnedV> = Seq::empty();
                if tried {
                    match spawn(spec, tags, default_id, setting, Ghost(m.state)) {
                        Some(c) => {
                            proof {
                                more = seq![c@];
                            }
                            clones.push(c);
                        },
                        None => {},
                    }
                }
                proof {
                    assert(may_spawn(*spec, m.state, id, *setting, more));
                    assert(spawned_view(clones@) =~= m.clones + more);
                    let next = run_state(*tags, *annotations, *clones);
                    assert(may_step(sv[i as int], m, id, *setting, next));
                    lemma_reach_more(sv, i as int, a, id, *setting, m, next);
                }
            },
        }
    }
    proof {
        assert(sv.take(sv.len() as int) =~= sv);
    }
    true
}

// ── What holds of unnesting ─────────────────────────────────────────────────────────────────

/// The value that the last of the writes to `k` leaves.
pub open spec fn last_write(ws: Seq<(Seq<char>, Seq<char>)>, k: Seq<char>) -> Option<Seq<char>>
    decreases ws.len(),
{
    if ws.len() == 0 {
        None
    } else if ws.last().0 == k {
        Some(ws.last().1)
    } else {
        last_write(ws.drop_last(), k)
    }
}

proof fn lemma_written(
    m: Map<Seq<char>, Seq<char>>,
    ws: Seq<(Seq<char>, Seq<char>)>,
    k: Seq<char>,
)
    ensures
        last_write(ws, k) is Some ==> written(m, ws).dom().contains(k) && written(m, ws)[k]
            == last_write(ws, k)->0,
        last_write(ws, k) is None ==> written(m, ws).dom().contains(k) == m.dom().contains(k)
            && written(m, ws)[k] == m[k],
    decreases ws.len(),
{
    if ws.len() > 0 {
        lemma_written(m, ws.drop_last(), k);
    }
}

proof fn lemma_last_write(ws: Seq<(Seq<char>, Seq<char>)>, k: Seq<char>)
    ensures
        last_write(ws, k) is Some ==> ws.contains((k, last_write(ws, k)->0)),
        last_write(ws, k) is None ==> forall|v: Seq<char>| !#[trigger] ws.contains((k, v)),
    decreases ws.len(),
{
    if ws.len() > 0 {
        let rest = ws.drop_last();
        lemma_last_write(rest, k);
        if ws.last().0 == k {
            assert(ws[ws.len() - 1] == (k, ws.last().1));
        } else {
            if last_write(rest, k) is Some {
                let p = (k, last_write(rest, k)->0);
                let i = rest.index_of(p);
                assert(ws[i] == p);
            } else {
                assert forall|v: Seq<char>| !#[trigger] ws.contains((k, v)) by {
                    if ws.contains((k, v)) {
                        let i = ws.index_of((k, v));
                        if i < rest.len() {
                            assert(rest[i] == (k, v));
                        }
                        assert(!rest.contains((k, v)));
                    }
                }
            }
        }
    }
}

proof fn lemma_list_writes(
    list: Seq<(Seq<char>, Seq<char>)>,
    prefix: Seq<char>,
    infix: Seq<char>,
    metas: Seq<Seq<char>>,
    src: Map<Seq<char>, Seq<char>>,
    x: (Seq<char>, Seq<char>),
)
    ensures
        list_writes(list, prefix, infix, metas, src).contains(x) <==> exists|i: int|
            0 <= i < list.len() && tag_writes(
                #[trigger] list[i],
                prefix,
                infix,
                metas,
                src,
            ).contains(x),
    decreases list.len(),
{
    if list.len() > 0 {
        let rest = list.drop_last();
        let a = list_writes(rest, prefix, infix, metas, src);
        let b = tag_writes(list.last(), prefix, infix, metas, src);
        lemma_list_writes(rest, prefix, infix, metas, src, x);
        if a.contains(x) {
            assert((a + b)[a.index_of(x)] == x);
            let i = choose|i: int|
                0 <= i < rest.len() && tag_writes(
                    #[trigger] rest[i],
                    prefix,
                    infix,
                    metas,
                    src,
                ).contains(x);
            assert(list[i] == rest[i]);
        }
        if b.contains(x) {
            assert((a + b)[a.len() + b.index_of(x)] == x);
            assert(list[list.len() - 1] == list.last());
        }
        if (a + b).contains(x) {
            let j = (a + b).index_of(x);
            if j < a.len() {
                assert(a[j] == x);
            } else {
                assert(b[j - a.len()] == x);
            }
        }
        if exists|i: int|
            0 <= i < list.len() && tag_writes(
                #[trigger] list[i],
                prefix,
                infix,
                metas,
                src,
            ).contains(x) {
            let i = choose|i: int|
                0 <= i < list.len() && tag_writes(
                    #[trigger] list[i],
                    prefix,
                    infix,
                    metas,
                    src,
                ).contains(x);
            if i < rest.len() {
                assert(rest[i] == list[i]);
            }
        }
    }
}

/// Whether unnesting `src` puts `v` under `k`.
pub open spec fn projects(
    src: Map<Seq<char>, Seq<char>>,
    prefix: Seq<char>,
    infix: Seq<char>,
    metas: Seq<Seq<char>>,
    k: Seq<char>,
    v: Seq<char>,
) -> bool {
    exists|key: Seq<char>| #[trigger]
        src.dom().contains(key) && tag_writes((key, src[key]), prefix, infix, metas, src).contains(
            (k, v),
        )
}

proof fn lemma_projects(
    list: Seq<(Seq<char>, Seq<char>)>,
    prefix: Seq<char>,
    infix: Seq<char>,
    metas: Seq<Seq<char>>,
    src: Map<Seq<char>, Seq<char>>,
    k: Seq<char>,
    v: Seq<char>,
)
    requires
        lists(list, src),
    ensures
        list_writes(list, prefix, infix, metas, src).contains((k, v)) <==> projects(
            src,
            prefix,
            infix,
            metas,
            k,
            v,
        ),
{
    lemma_list_writes(list, prefix, infix, metas, src, (k, v));
    if list_writes(list, prefix, infix, metas, src).contains((k, v)) {
        let i = choose|i: int|
            0 <= i < list.len() && tag_writes(
                #[trigger] list[i],
                prefix,
                infix,
                metas,
                src,
            ).contains((k, v));
        assert(src.dom().contains(list[i].0));
        assert(list[i] == (list[i].0, src[list[i].0]));
    }
    if projects(src, prefix, infix, metas, k, v) {
        let key = choose|key: Seq<char>| #[trigger]
            src.dom().contains(key) && tag_writes(
                (key, src[key]),
                prefix,
                infix,
                metas,
                src,
            ).contains((k, v));
        let i = choose|i: int| 0 <= i < list.len() && (#[trigger] list[i]).0 == key;
        assert(list[i] == (key, src[key]));
    }
}

/// After unnesting, a tag has a value that unnesting put there, or, where it put none there, the
/// value it had.
pub proof fn unnested_tags_come_from_the_source(
    src: Map<Seq<char>, Seq<char>>,
    prefix: Seq<char>,
    infix: Seq<char>,
    metas: Seq<Seq<char>>,
    before: Map<Seq<char>, Seq<char>>,
    after: Map<Seq<char>, Seq<char>>,
    k: Seq<char>,
)
    requires
        may_unnest(src, prefix, infix, metas, before, after),
    ensures
        if exists|v: Seq<char>| #[trigger] projects(src, prefix, infix, metas, k, v) {
            after.dom().contains(k) && projects(src, prefix, infix, metas, k, after[k])
        } else {
            after.dom().contains(k) == before.dom().contains(k) && after[k] == before[k]
        },
{
    let list = choose|list: Seq<(Seq<char>, Seq<char>)>| #[trigger]
        lists(list, src) && after == written(before, list_writes(list, prefix, infix, metas, src));
    let ws = list_writes(list, prefix, infix, metas, src);
    lemma_written(before, ws, k);
    lemma_last_write(ws, k);
    if last_write(ws, k) is Some {
        lemma_projects(list, prefix, infix, metas, src, k, last_write(ws, k)->0);
    } else {
        assert forall|v: Seq<char>| !#[trigger] projects(src, prefix, infix, metas, k, v) by {
            lemma_projects(list, prefix, infix, metas, src, k, v);
            assert(!ws.contains((k, v)));
        }
    }
}

/// Whether unnesting never puts two values under one key.
pub open spec fn unclashing(
    src: Map<Seq<char>, Seq<char>>,
    prefix: Seq<char>,
    infix: Seq<char>,
    metas: Seq<Seq<char>>,
) -> bool {
    forall|k: Seq<char>, v: Seq<char>, x: Seq<char>|
        #[trigger] projects(src, prefix, infix, metas, k, v) && #[trigger] projects(
            src,
            prefix,
            infix,
            metas,
            k,
            x,
        ) ==> v == x
}

/// Where no two values come to stand under one key, the order of the tags does not matter.
pub proof fn unnesting_is_order_free(
    src: Map<Seq<char>, Seq<char>>,
    prefix: Seq<char>,
    infix: Seq<char>,
    metas: Seq<Seq<char>>,
    before: Map<Seq<char>, Seq<char>>,
    a: Map<Seq<char>, Seq<char>>,
    b: Map<Seq<char>, Seq<char>>,
)
    requires
        unclashing(src, prefix, infix, metas),
        may_unnest(src, prefix, infix, metas, before, a),
        may_unnest(src, prefix, infix, metas, before, b),
    ensures
        a == b,
{
    assert forall|k: Seq<char>| a.dom().contains(k) == #[trigger] b.dom().contains(k) by {
        unnested_tags_come_from_the_source(src, prefix, infix, metas, before, a, k);
        unnested_tags_come_from_the_source(src, prefix, infix, metas, before, b, k);
    }
    assert forall|k: Seq<char>| #[trigger] a.dom().contains(k) implies a[k] == b[k] by {
        unnested_tags_come_from_the_source(src, prefix, infix, metas, before, a, k);
        unnested_tags_come_from_the_source(src, prefix, infix, metas, before, b, k);
    }
    assert(a =~= b);
}

/// Where no tag stands under the prefix, nothing is unnested, whatever documents such tags.
pub proof fn orphaned_documentation_stays(
    src: Map<Seq<char>, Seq<char>>,
    prefix: Seq<char>,
    infix: Seq<char>,
    metas: Seq<Seq<char>>,
    before: Map<Seq<char>, Seq<char>>,
    after: Map<Seq<char>, Seq<char>>,
)
    requires
        may_unnest(src, prefix, infix, metas, before, after),
        forall|key: Seq<char>| #[trigger]
            src.dom().contains(key) ==> behind_prefix(key, prefix, infix) is None,
    ensures
        after == before,
{
    assert forall|k: Seq<char>, v: Seq<char>| !#[trigger]
        projects(src, prefix, infix, metas, k, v) by {
        if projects(src, prefix, infix, metas, k, v) {
            let key = choose|key: Seq<char>| #[trigger]
                src.dom().contains(key) && tag_writes(
                    (key, src[key]),
                    prefix,
                    infix,
                    metas,
                    src,
                ).contains((k, v));
            assert(behind_prefix(key, prefix, infix) is None);
        }
    }
    assert forall|k: Seq<char>| #[trigger] after.dom().contains(k) == before.dom().contains(k)
        && after[k] == before[k] by {
        unnested_tags_come_from_the_source(src, prefix, infix, metas, before, after, k);
    }
    assert(after =~= before);
}

/// A run changes nothing of the objects made before it, and makes at most one object for each step.
pub proof fn runs_append_objects(
    steps: Seq<TransformStep>,
    a: RunV,
    id: Seq<char>,
    w: Setting,
    b: RunV,
)
    requires
        may_reach(steps, a, id, w, b),
    ensures
        a.clones.is_prefix_of(b.clones),
        b.clones.len() <= a.clones.len() + steps.len(),
{
    let ms = choose|ms: Seq<RunV>| #[trigger]
        is_run(steps, ms, id, w) && ms[0] == a && ms.last() == b;
    lemma_run_appends(steps, ms, id, w, steps.len() as int);
}

proof fn lemma_run_appends(
    steps: Seq<TransformStep>,
    ms: Seq<RunV>,
    id: Seq<char>,
    w: Setting,
    k: int,
)
    requires
        0 <= k <= steps.len(),
        is_run(steps, ms, id, w),
    ensures
        ms[0].clones.is_prefix_of(ms[k].clones),
        ms[k].clones.len() <= ms[0].clones.len() + k,
    decreases k,
{
    if k > 0 {
        lemma_run_appends(steps, ms, id, w, k - 1);
        let m = ms[k - 1];
        let b = ms[k];
        let n = ms[0].clones.len() as int;
        assert(may_step(steps[k - 1], m, id, w, b));
        match steps[k - 1] {
            TransformStep::Transform(_) => {},
            TransformStep::Clone(spec) => {
                let more = choose|more: Seq<SpawnedV>| #[trigger]
                    may_spawn(spec, m.state, id, w, more) && b.clones == m.clones + more;
                assert(b.clones.subrange(0, n) =~= m.clones.subrange(0, n));
            },
        }
    }
}

} // verus!

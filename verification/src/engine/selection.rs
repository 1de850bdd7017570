//! What is kept of an element, and by which topics.
use vstd::prelude::*;

use crate::engine::runner::TopicRow;
use crate::geom::materialize::MemberRole;
use crate::geom::plan::{has_bit, lemma_no_bits, lemma_set_bit};

verus! {

/// A way of a relation.
#[derive(Debug)]
pub struct MemberRow {
    pub relation_osm_id: i64,
    pub way_osm_id: i64,
}

/// The topics that gave rows, one bit each. A topic is a bit of a mask, so there are at most
/// thirty-two.
pub fn kept_mask(rows: &Vec<Vec<TopicRow>>) -> (r: u32)
    requires
        rows@.len() <= 32,
    ensures
        forall|i: u32|
            i < 32 ==> (#[trigger] has_bit(r, i) <==> i < rows@.len() && rows@[i as int]@.len() > 0),
{
    let mut mask: u32 = 0;
    let mut i: usize = 0;
    proof {
        lemma_no_bits();
    }
    while i < rows.len()
        invariant
            i <= rows@.len() <= 32,
            forall|j: u32|
                j < 32 ==> (#[trigger] has_bit(mask, j) <==> j < i && rows@[j as int]@.len() > 0),
        decreases rows.len() - i,
    {
        let bit: u32 = i as u32;
        proof {
            lemma_set_bit(mask, bit);
        }
        if rows[i].len() > 0 {
            mask = mask | (1u32 << bit);
        }
        i = i + 1;
    }
    mask
}

/// Whether a node cuts the ways that share it: a topic that kept it lets its nodes cut.
pub fn cuts_ways(kept: bool, mask: u32, node_graph_mask: u32) -> (r: bool)
    ensures
        r == (kept && exists|i: u32|
            i < 32 && #[trigger] has_bit(mask, i) && has_bit(node_graph_mask, i)),
{
    let common: u32 = mask & node_graph_mask;
    proof {
        if common != 0 {
            let i = lemma_some_bit(common);
            assert(has_bit(mask & node_graph_mask, i));
            assert((mask & node_graph_mask) & (1u32 << i) != 0 ==> mask & (1u32 << i) != 0
                && node_graph_mask & (1u32 << i) != 0) by (bit_vector);
            assert(has_bit(mask, i) && has_bit(node_graph_mask, i));
        } else {
            assert forall|i: u32| i < 32 && #[trigger] has_bit(mask, i) implies !has_bit(
                node_graph_mask,
                i,
            ) by {
                assert(mask & node_graph_mask == 0 && i < 32 && mask & (1u32 << i) != 0
                    ==> node_graph_mask & (1u32 << i) == 0) by (bit_vector);
            }
        }
    }
    kept && common != 0
}

proof fn lemma_some_bit(m: u32) -> (i: u32)
    requires
        m != 0,
    ensures
        i < 32,
        has_bit(m, i),
{
    lemma_bit_below(m, 32)
}

proof fn lemma_bit_below(m: u32, n: u32) -> (i: u32)
    requires
        n <= 32,
        n < 32 ==> m >> n == 0,
        m != 0,
    ensures
        i < 32,
        has_bit(m, i),
    decreases n,
{
    if n == 0 {
        assert(m >> 0u32 == m) by (bit_vector);
        0
    } else {
        let k = (n - 1) as u32;
        if has_bit(m, k) {
            k
        } else {
            assert(k < 31 && m >> ((k + 1) as u32) == 0 && m & (1u32 << k) == 0 ==> m >> k == 0)
                by (bit_vector);
            assert(k == 31 && m & (1u32 << k) == 0 ==> m >> k == 0) by (bit_vector);
            lemma_bit_below(m, k)
        }
    }
}

/// The links from a kept relation to its ways, in the order they are listed.
pub fn member_links(relation: i64, members: &Vec<(i64, MemberRole)>) -> (r: Vec<MemberRow>)
    ensures
        r@ == members@.map_values(
            |m: (i64, MemberRole)| MemberRow { relation_osm_id: relation, way_osm_id: m.0 },
        ),
{
    let ghost all = members@.map_values(
        |m: (i64, MemberRole)| MemberRow { relation_osm_id: relation, way_osm_id: m.0 },
    );
    let mut out: Vec<MemberRow> = Vec::new();
    let mut i: usize = 0;
    while i < members.len()
        invariant
            i <= members@.len(),
            all == members@.map_values(
                |m: (i64, MemberRole)| MemberRow { relation_osm_id: relation, way_osm_id: m.0 },
            ),
            out@ =~= all.take(i as int),
        decreases members.len() - i,
    {
        out.push(MemberRow { relation_osm_id: relation, way_osm_id: members[i].0 });
        i = i + 1;
    }
    assert(all.take(i as int) =~= all);
    out
}

} // verus!

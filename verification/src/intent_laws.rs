//! What a planned move records, read off the tables: its members and where they are, its fences,
//! and that its operation id is made of everything that it records.

use vstd::prelude::*;
use vstd::utf8::encode_utf8;

use crate::document::{
    AssignmentView, ClusterStateView, IntentView, MemberView, MoveInitialAuthority, NodeId,
    PhaseView, lemma_node_set,
};
use crate::document_laws::{
    is_generation, is_member, is_registered, lemma_nodes, lemma_reads, members_are_the_named, names,
    tables_in_order,
};
use crate::fnv::le_words;
use crate::intent::{
    assignment_words, authority_word, first_unregistered, live_authority_fence, member_words,
    operation_of, planned_intent, predicate_words, replica_words, transition_nodes,
};
use crate::keyed::Keyed;
use crate::text::{lemma_normal_form, normal_form, normalized};

verus! {

/// Two endpoints are one physical slot: they have one normal form.
pub open spec fn one_slot(a: Seq<char>, b: Seq<char>) -> bool {
    exists|identity: Seq<char>| #[trigger] normal_form(a, identity) && normal_form(b, identity)
}

/// Endpoints are one slot exactly where they normalize alike.
pub proof fn lemma_one_slot(a: Seq<char>, b: Seq<char>)
    ensures
        one_slot(a, b) <==> normalized(a) == normalized(b),
{
    if one_slot(a, b) {
        let identity = choose|identity: Seq<char>| #[trigger]
            normal_form(a, identity) && normal_form(b, identity);
        lemma_normal_form(a, identity);
        lemma_normal_form(b, identity);
    }
    if normalized(a) == normalized(b) {
        lemma_normal_form(a, normalized(a));
        lemma_normal_form(b, normalized(a));
    }
}

/// A node has no registered endpoint.
pub open spec fn unregistered(state: ClusterStateView, node: NodeId) -> bool {
    forall|e: Seq<char>| !#[trigger] is_registered(state, node, e)
}

/// The nodes of a transition are those that either assignment names, in strictly increasing
/// order.
pub proof fn lemma_transition_nodes(expected: AssignmentView, desired: AssignmentView)
    ensures
        forall|n: NodeId| #[trigger]
            transition_nodes(expected, desired).contains(n) <==> names(expected, n) || names(
                desired,
                n,
            ),
        forall|i: int, j: int|
            0 <= i < j < transition_nodes(expected, desired).len() ==> (#[trigger] transition_nodes(
                expected,
                desired,
            )[i]).0 < (#[trigger] transition_nodes(expected, desired)[j]).0,
{
    let all = expected.nodes() + desired.nodes();
    let set = transition_nodes(expected, desired);
    lemma_node_set(all);
    lemma_nodes(expected);
    lemma_nodes(desired);
    assert forall|n: NodeId| #[trigger] set.contains(n) <==> names(expected, n) || names(
        desired,
        n,
    ) by {
        let e = expected.nodes();
        let d = desired.nodes();
        if all.contains(n) {
            let i = choose|i: int| 0 <= i < all.len() && all[i] == n;
            if i < e.len() {
                assert(e[i] == n);
                assert(e.contains(n));
            } else {
                assert(d[i - e.len()] == n);
                assert(d.contains(n));
            }
        }
        if e.contains(n) {
            let i = choose|i: int| 0 <= i < e.len() && e[i] == n;
            assert(all[i] == n);
        }
        if d.contains(n) {
            let i = choose|i: int| 0 <= i < d.len() && d[i] == n;
            assert(all[e.len() + i] == n);
        }
        assert(e.contains(n) <==> names(expected, n));
        assert(d.contains(n) <==> names(desired, n));
    }
    assert forall|i: int, j: int| 0 <= i < j < set.len() implies (#[trigger] set[i]).0 < (
    #[trigger] set[j]).0 by {
        assert(NodeId::key_of(set[i]) < NodeId::key_of(set[j]));
    }
}

proof fn lemma_first_unregistered(state: ClusterStateView, nodes: Seq<NodeId>, k: nat)
    requires
        tables_in_order(state),
        k <= nodes.len(),
    ensures
        match first_unregistered(state, nodes, k) {
            None => forall|i: int|
                k <= i < nodes.len() ==> !unregistered(state, #[trigger] nodes[i]),
            Some(node) => exists|m: int|
                k <= m < nodes.len() && #[trigger] nodes[m] == node && unregistered(state, node)
                    && forall|i: int| k <= i < m ==> !unregistered(state, #[trigger] nodes[i]),
        },
    decreases nodes.len() - k,
{
    if k < nodes.len() {
        let node = nodes[k as int];
        lemma_reads(state, 0, node);
        assert(unregistered(state, node) <==> state.endpoint(node) is None) by {
            if state.endpoint(node) is Some {
                assert(is_registered(state, node, state.endpoint(node)->0));
            }
        }
        if state.endpoint(node) is None {
            assert(nodes[k as int] == node);
        } else {
            lemma_first_unregistered(state, nodes, k + 1);
        }
    }
}

/// A transition can be planned exactly where every node that it names is registered; otherwise
/// the least of those that are not is named.
pub proof fn lemma_plannable(
    state: ClusterStateView,
    expected: AssignmentView,
    desired: AssignmentView,
)
    requires
        tables_in_order(state),
    ensures
        match first_unregistered(state, transition_nodes(expected, desired), 0) {
            None => forall|n: NodeId|
                names(expected, n) || names(desired, n) ==> !#[trigger] unregistered(state, n),
            Some(node) => {
                &&& names(expected, node) || names(desired, node)
                &&& unregistered(state, node)
                &&& forall|n: NodeId|
                    (names(expected, n) || names(desired, n)) && #[trigger] unregistered(state, n)
                        ==> node.0 <= n.0
            },
        },
{
    let nodes = transition_nodes(expected, desired);
    lemma_transition_nodes(expected, desired);
    lemma_first_unregistered(state, nodes, 0);
    match first_unregistered(state, nodes, 0) {
        None => {
            assert forall|n: NodeId| names(expected, n) || names(
                desired,
                n,
            ) implies !#[trigger] unregistered(state, n) by {
                assert(nodes.contains(n));
                let i = choose|i: int| 0 <= i < nodes.len() && nodes[i] == n;
                assert(!unregistered(state, nodes[i]));
            }
        },
        Some(node) => {
            let m = choose|m: int|
                0 <= m < nodes.len() && #[trigger] nodes[m] == node && unregistered(state, node)
                    && forall|i: int| 0 <= i < m ==> !unregistered(state, #[trigger] nodes[i]);
            assert(nodes.contains(node));
            assert forall|n: NodeId|
                (names(expected, n) || names(desired, n)) && #[trigger] unregistered(
                    state,
                    n,
                ) implies node.0 <= n.0 by {
                assert(nodes.contains(n));
                let i = choose|i: int| 0 <= i < nodes.len() && nodes[i] == n;
                if i < m {
                    assert(!unregistered(state, nodes[i]));
                } else if m < i {
                    assert(nodes[m].0 < nodes[i].0);
                }
            }
        },
    }
}

/// A planned intent records the transition as it was asked for: both assignments, the generations
/// that the document has, every named node at the normal form of where it is registered, and the
/// fence and the authority that were given. It is preparing, and has an operation id.
#[verifier::spinoff_prover]
pub proof fn lemma_planned(
    state: ClusterStateView,
    expected: AssignmentView,
    desired: AssignmentView,
    live_generation: u64,
    source_fence_generation: u64,
    initial_authority: MoveInitialAuthority,
)
    requires
        tables_in_order(state),
    ensures
        ({
            let intent = planned_intent(
                state,
                expected,
                desired,
                live_generation,
                source_fence_generation,
                initial_authority,
            );
            &&& intent.intent_version == 1
            &&& intent.operation_id != 0
            &&& intent.position == expected.position
            &&& is_generation(state, expected.position, intent.expected_assignment_generation)
            &&& intent.placement_generation == state.placement_generation
            &&& intent.expected == expected
            &&& intent.desired == desired
            &&& members_are_the_named(intent)
            &&& forall|i: int, e: Seq<char>|
                0 <= i < intent.members.len() && #[trigger] is_registered(
                    state,
                    (#[trigger] intent.members[i]).node,
                    e,
                ) ==> normal_form(e, intent.members[i].endpoint)
            &&& intent.live_generation == live_generation
            &&& intent.source_fence_generation == source_fence_generation
            &&& intent.initial_authority == initial_authority
            &&& intent.phase == PhaseView::Preparing
        }),
{
    let intent = planned_intent(
        state,
        expected,
        desired,
        live_generation,
        source_fence_generation,
        initial_authority,
    );
    let nodes = transition_nodes(expected, desired);
    lemma_transition_nodes(expected, desired);
    lemma_reads(state, expected.position, NodeId(0));
    assert(is_generation(state, expected.position, state.moves.generation(expected.position)));
    let members = intent.members;
    assert forall|i: int| 0 <= i < members.len() implies (#[trigger] members[i]).node
        == nodes[i] by {}
    assert forall|i: int, j: int| 0 <= i < j < members.len() implies (
    #[trigger] members[i]).node.0 < (#[trigger] members[j]).node.0 by {
        assert(nodes[i].0 < nodes[j].0);
    }
    assert forall|i: int| 0 <= i < members.len() implies names(
        expected,
        (#[trigger] members[i]).node,
    ) || names(desired, members[i].node) by {
        assert(nodes.contains(nodes[i]));
    }
    assert forall|n: NodeId| names(expected, n) || names(
        desired,
        n,
    ) implies #[trigger] is_member(intent, n) by {
        assert(nodes.contains(n));
        let i = choose|i: int| 0 <= i < nodes.len() && nodes[i] == n;
        assert(members[i].node == n);
    }
    assert forall|i: int, e: Seq<char>|
        0 <= i < members.len() && #[trigger] is_registered(
            state,
            (#[trigger] members[i]).node,
            e,
        ) implies normal_form(e, members[i].endpoint) by {
        lemma_reads(state, 0, members[i].node);
        assert(state.endpoint(members[i].node) == Some(e));
        lemma_normal_form(e, members[i].endpoint);
    }
}

/// A move to an authority that is already live needs no fence where source and authority are one
/// slot; otherwise it needs one, at the live generation, or the first where there was none.
pub proof fn lemma_live_fence(source: Seq<char>, live: Seq<char>, generation: u64)
    ensures
        live_authority_fence(source, live, generation) == 0 <==> one_slot(source, live),
        !one_slot(source, live) && generation > 0 ==> live_authority_fence(source, live, generation)
            == generation,
        !one_slot(source, live) && generation == 0 ==> live_authority_fence(
            source,
            live,
            generation,
        ) == 1,
{
    lemma_one_slot(source, live);
}

// ---- The operation id ----------------------------------------------------------------------

/// The eight bytes of a number tell it from every other one.
pub proof fn lemma_words_tell(a: u64, b: u64)
    ensures
        le_words(a).len() == 8,
        le_words(a) == le_words(b) ==> a == b,
{
    if le_words(a) == le_words(b) {
        let x = le_words(a);
        let y = le_words(b);
        assert((a >> 0u32) & 0xff == (b >> 0u32) & 0xff) by {
            assert(x[0] == y[0]);
        }
        assert((a >> 8u32) & 0xff == (b >> 8u32) & 0xff) by {
            assert(x[1] == y[1]);
        }
        assert((a >> 16u32) & 0xff == (b >> 16u32) & 0xff) by {
            assert(x[2] == y[2]);
        }
        assert((a >> 24u32) & 0xff == (b >> 24u32) & 0xff) by {
            assert(x[3] == y[3]);
        }
        assert((a >> 32u32) & 0xff == (b >> 32u32) & 0xff) by {
            assert(x[4] == y[4]);
        }
        assert((a >> 40u32) & 0xff == (b >> 40u32) & 0xff) by {
            assert(x[5] == y[5]);
        }
        assert((a >> 48u32) & 0xff == (b >> 48u32) & 0xff) by {
            assert(x[6] == y[6]);
        }
        assert((a >> 56u32) & 0xff == (b >> 56u32) & 0xff) by {
            assert(x[7] == y[7]);
        }
        assert(a == b) by (bit_vector)
            requires
                (a >> 0u32) & 0xff == (b >> 0u32) & 0xff,
                (a >> 8u32) & 0xff == (b >> 8u32) & 0xff,
                (a >> 16u32) & 0xff == (b >> 16u32) & 0xff,
                (a >> 24u32) & 0xff == (b >> 24u32) & 0xff,
                (a >> 32u32) & 0xff == (b >> 32u32) & 0xff,
                (a >> 40u32) & 0xff == (b >> 40u32) & 0xff,
                (a >> 48u32) & 0xff == (b >> 48u32) & 0xff,
                (a >> 56u32) & 0xff == (b >> 56u32) & 0xff,
        ;
    }
}

/// Words that start with a number of bytes of one length agree in them, and in the rest.
proof fn lemma_parts(p: Seq<u64>, q: Seq<u64>, x: Seq<u64>, y: Seq<u64>)
    requires
        p.len() == q.len(),
        p + x == q + y,
    ensures
        p == q,
        x == y,
{
    assert(p =~= (p + x).take(p.len() as int));
    assert(q =~= (q + y).take(p.len() as int));
    assert(x =~= (p + x).skip(p.len() as int));
    assert(y =~= (q + y).skip(p.len() as int));
}

proof fn lemma_replica_words(a: Seq<NodeId>, b: Seq<NodeId>)
    ensures
        replica_words(a).len() == 8 * a.len(),
        replica_words(a) == replica_words(b) ==> a == b,
    decreases a.len(),
{
    lemma_replica_len(a);
    lemma_replica_len(b);
    if replica_words(a) == replica_words(b) {
        assert(a.len() == b.len());
        if a.len() > 0 {
            let x = replica_words(a.drop_last());
            let y = replica_words(b.drop_last());
            lemma_replica_len(a.drop_last());
            lemma_replica_len(b.drop_last());
            lemma_parts(x, y, le_words(a.last().0), le_words(b.last().0));
            lemma_replica_words(a.drop_last(), b.drop_last());
            lemma_words_tell(a.last().0, b.last().0);
            assert(a =~= a.drop_last().push(a.last()));
            assert(b =~= b.drop_last().push(b.last()));
        } else {
            assert(a =~= b);
        }
    }
}

proof fn lemma_replica_len(a: Seq<NodeId>)
    ensures
        replica_words(a).len() == 8 * a.len(),
    decreases a.len(),
{
    if a.len() > 0 {
        lemma_replica_len(a.drop_last());
        lemma_words_tell(a.last().0, 0);
    }
}

/// Words that start with those of an assignment agree in it, and in the rest.
proof fn lemma_assignment_words(
    a: AssignmentView,
    b: AssignmentView,
    x: Seq<u64>,
    y: Seq<u64>,
)
    requires
        assignment_words(a) + x == assignment_words(b) + y,
        a.replicas.len() <= u64::MAX,
        b.replicas.len() <= u64::MAX,
    ensures
        a == b,
        x == y,
{
    let (a0, a1, a2, a3) = (
        le_words(a.position as u64),
        le_words(a.primary.0),
        le_words(a.replicas.len() as u64),
        replica_words(a.replicas),
    );
    let (b0, b1, b2, b3) = (
        le_words(b.position as u64),
        le_words(b.primary.0),
        le_words(b.replicas.len() as u64),
        replica_words(b.replicas),
    );
    assert(assignment_words(a) + x =~= a0 + (a1 + (a2 + (a3 + x))));
    assert(assignment_words(b) + y =~= b0 + (b1 + (b2 + (b3 + y))));
    lemma_words_tell(a.position as u64, b.position as u64);
    lemma_words_tell(b.position as u64, a.position as u64);
    lemma_parts(a0, b0, a1 + (a2 + (a3 + x)), b1 + (b2 + (b3 + y)));
    lemma_words_tell(a.primary.0, b.primary.0);
    lemma_words_tell(b.primary.0, a.primary.0);
    lemma_parts(a1, b1, a2 + (a3 + x), b2 + (b3 + y));
    lemma_words_tell(a.replicas.len() as u64, b.replicas.len() as u64);
    lemma_words_tell(b.replicas.len() as u64, a.replicas.len() as u64);
    lemma_parts(a2, b2, a3 + x, b3 + y);
    lemma_replica_len(a.replicas);
    lemma_replica_len(b.replicas);
    lemma_parts(a3, b3, x, y);
    lemma_replica_words(a.replicas, b.replicas);
}

proof fn lemma_head(a: u64, b: u64, x: Seq<u64>, y: Seq<u64>)
    requires
        le_words(a) + x == le_words(b) + y,
    ensures
        a == b,
        x == y,
{
    lemma_words_tell(a, b);
    lemma_words_tell(b, a);
    lemma_parts(le_words(a), le_words(b), x, y);
}

proof fn lemma_assoc(p: Seq<u64>, q: Seq<u64>, r: Seq<u64>)
    ensures
        (p + q) + r == p + (q + r),
{
    assert((p + q) + r =~= p + (q + r));
}

/// The bytes of both assignments and of the members.
spec fn behind_authority(intent: IntentView) -> Seq<u64> {
    assignment_words(intent.expected) + (assignment_words(intent.desired) + member_words(
        intent.members,
    ))
}

proof fn lemma_predicate_shape(i: IntentView)
    ensures
        predicate_words(i) == le_words(i.intent_version as u64) + (le_words(i.position as u64) + (
        le_words(i.expected_assignment_generation) + (le_words(i.placement_generation) + (le_words(
            i.live_generation,
        ) + (le_words(i.source_fence_generation) + (le_words(authority_word(i.initial_authority))
            + behind_authority(i))))))),
{
    let w0 = le_words(i.intent_version as u64);
    let w1 = le_words(i.position as u64);
    let w2 = le_words(i.expected_assignment_generation);
    let w3 = le_words(i.placement_generation);
    let w4 = le_words(i.live_generation);
    let w5 = le_words(i.source_fence_generation);
    let w6 = le_words(authority_word(i.initial_authority));
    let e = assignment_words(i.expected);
    let d = assignment_words(i.desired);
    let m = member_words(i.members);
    let p1 = w0 + w1;
    let p2 = p1 + w2;
    let p3 = p2 + w3;
    let p4 = p3 + w4;
    let p5 = p4 + w5;
    let p6 = p5 + w6;
    let p7 = p6 + e;
    lemma_assoc(p7, d, m);
    lemma_assoc(p6, e, d + m);
    let r7 = e + (d + m);
    lemma_assoc(p5, w6, r7);
    lemma_assoc(p4, w5, w6 + r7);
    lemma_assoc(p3, w4, w5 + (w6 + r7));
    lemma_assoc(p2, w3, w4 + (w5 + (w6 + r7)));
    lemma_assoc(p1, w2, w3 + (w4 + (w5 + (w6 + r7))));
    lemma_assoc(w0, w1, w2 + (w3 + (w4 + (w5 + (w6 + r7)))));
}

/// The operation id is made of everything that a transition records: where the bytes that are
/// hashed agree, so do the version, the position, all generations, the fence, the authority and
/// both assignments, and the bytes of the members. How far the move has come, and the id itself,
/// do not enter.
#[verifier::spinoff_prover]
pub proof fn lemma_operation_of_everything(a: IntentView, b: IntentView)
    requires
        a.expected.replicas.len() <= u64::MAX,
        a.desired.replicas.len() <= u64::MAX,
        b.expected.replicas.len() <= u64::MAX,
        b.desired.replicas.len() <= u64::MAX,
    ensures
        predicate_words(a) == predicate_words(b) <==> {
            &&& a.intent_version == b.intent_version
            &&& a.position == b.position
            &&& a.expected_assignment_generation == b.expected_assignment_generation
            &&& a.placement_generation == b.placement_generation
            &&& a.live_generation == b.live_generation
            &&& a.source_fence_generation == b.source_fence_generation
            &&& a.initial_authority == b.initial_authority
            &&& a.expected == b.expected
            &&& a.desired == b.desired
            &&& member_words(a.members) == member_words(b.members)
        },
        predicate_words(a) == predicate_words(b) ==> operation_of(a) == operation_of(b),
        operation_of(a) != 0,
{
    lemma_predicate_shape(a);
    lemma_predicate_shape(b);
    if predicate_words(a) == predicate_words(b) {
        let (a7, b7) = (behind_authority(a), behind_authority(b));
        let (a6, b6) = (
            le_words(authority_word(a.initial_authority)) + a7,
            le_words(authority_word(b.initial_authority)) + b7,
        );
        let (a5, b5) = (
            le_words(a.source_fence_generation) + a6,
            le_words(b.source_fence_generation) + b6,
        );
        let (a4, b4) = (le_words(a.live_generation) + a5, le_words(b.live_generation) + b5);
        let (a3, b3) = (
            le_words(a.placement_generation) + a4,
            le_words(b.placement_generation) + b4,
        );
        let (a2, b2) = (
            le_words(a.expected_assignment_generation) + a3,
            le_words(b.expected_assignment_generation) + b3,
        );
        let (a1, b1) = (le_words(a.position as u64) + a2, le_words(b.position as u64) + b2);
        lemma_head(a.intent_version as u64, b.intent_version as u64, a1, b1);
        lemma_head(a.position as u64, b.position as u64, a2, b2);
        lemma_head(a.expected_assignment_generation, b.expected_assignment_generation, a3, b3);
        lemma_head(a.placement_generation, b.placement_generation, a4, b4);
        lemma_head(a.live_generation, b.live_generation, a5, b5);
        lemma_head(a.source_fence_generation, b.source_fence_generation, a6, b6);
        lemma_head(
            authority_word(a.initial_authority),
            authority_word(b.initial_authority),
            a7,
            b7,
        );
        let (am, bm) = (member_words(a.members), member_words(b.members));
        lemma_assignment_words(
            a.expected,
            b.expected,
            assignment_words(a.desired) + am,
            assignment_words(b.desired) + bm,
        );
        lemma_assignment_words(a.desired, b.desired, am, bm);
    }
}

/// The members' bytes tell the nodes and the endpoints apart, where the endpoints are of known
/// lengths.
pub proof fn lemma_members_tell(a: Seq<MemberView>, b: Seq<MemberView>)
    requires
        a.len() == b.len(),
        forall|i: int|
            0 <= i < a.len() ==> encode_utf8((#[trigger] a[i]).endpoint).len() == encode_utf8(
                b[i].endpoint,
            ).len(),
        member_words(a) == member_words(b),
    ensures
        forall|i: int|
            0 <= i < a.len() ==> (#[trigger] a[i]).node == b[i].node && encode_utf8(a[i].endpoint)
                == encode_utf8(b[i].endpoint),
    decreases a.len(),
{
    if a.len() > 0 {
        let (x, y) = (a.drop_last(), b.drop_last());
        let (m, n) = (a.last(), b.last());
        let p = encode_utf8(m.endpoint).map_values(|b: u8| b as u64);
        let q = encode_utf8(n.endpoint).map_values(|b: u8| b as u64);
        assert(encode_utf8(a[a.len() - 1].endpoint).len() == encode_utf8(
            b[a.len() - 1].endpoint,
        ).len());
        lemma_words_tell(m.node.0, n.node.0);
        lemma_words_tell(n.node.0, m.node.0);
        let left = member_words(x) + le_words(m.node.0);
        let right = member_words(y) + le_words(n.node.0);
        assert((left + p).len() == (right + q).len());
        lemma_parts(left, right, p, q);
        lemma_parts(member_words(x), member_words(y), le_words(m.node.0), le_words(n.node.0));
        assert forall|i: int| 0 <= i < x.len() implies encode_utf8((#[trigger] x[i]).endpoint).len()
            == encode_utf8(y[i].endpoint).len() by {
            assert(a[i] == x[i]);
        }
        lemma_members_tell(x, y);
        assert(encode_utf8(m.endpoint) =~= encode_utf8(n.endpoint)) by {
            assert forall|i: int| 0 <= i < encode_utf8(m.endpoint).len() implies #[trigger]
                encode_utf8(m.endpoint)[i] == encode_utf8(n.endpoint)[i] by {
                assert(p[i] == q[i]);
            }
        }
        assert forall|i: int| 0 <= i < a.len() implies (#[trigger] a[i]).node == b[i].node
            && encode_utf8(a[i].endpoint) == encode_utf8(b[i].endpoint) by {
            if i < x.len() {
                assert(x[i] == a[i]);
            }
        }
    }
}

} // verus!

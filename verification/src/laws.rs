use vstd::prelude::*;
use crate::model::TaskView;
use crate::model::sorts_before;
use crate::model::first_with_id;
use crate::model::first_holding;
use crate::model::lemma_first_with_id_spec;
use crate::model::lemma_first_with_id_is;
use crate::model::lemma_first_holding_spec;
use crate::model::lemma_first_holding_is;
use crate::model::seq_has_id;
use crate::model::ids_distinct;
use crate::model::forest_nodes;
use crate::model::spec_add_all;
use crate::model::sorted_by_priority;
use crate::status::TaskStatus;

verus! {

/// For any two nodes with different ids, exactly one of "A sorts before B"
/// and "B sorts before A" holds.
pub proof fn law_order_trichotomy(a: TaskView, b: TaskView)
    requires
        a.id != b.id,
    ensures
        sorts_before(a, b) <==> !sorts_before(b, a),
{
}

/// The strict order is transitive across nodes with pairwise different ids,
/// so a sorted listing is consistent from end to end.
pub proof fn law_order_transitive(a: TaskView, b: TaskView, c: TaskView)
    requires
        sorts_before(a, b),
        sorts_before(b, c),
        a.id != c.id,
    ensures
        sorts_before(a, c),
{
}

/// A node never sorts before itself, and the order is asymmetric.
pub proof fn law_order_irreflexive(a: TaskView, b: TaskView)
    ensures
        !sorts_before(a, a),
        sorts_before(a, b) ==> !sorts_before(b, a),
{
}

/// Status dominates: an open task sorts before a done one regardless of
/// importance, urgency or complexity.
pub proof fn law_status_dominates(a: TaskView, b: TaskView)
    requires
        a.id != b.id,
        a.status == TaskStatus::Open,
        b.status == TaskStatus::Done,
    ensures
        sorts_before(a, b),
{
}

/// Complexity breaks status ties: with equal status, the lighter subtree
/// sorts first regardless of distance.
pub proof fn law_complexity_tie_break(a: TaskView, b: TaskView)
    requires
        a.id != b.id,
        a.status == b.status,
        a.complexity() < b.complexity(),
    ensures
        sorts_before(a, b),
{
}

/// Distance breaks status and complexity ties: with equal status and
/// complexity, the larger signed distance sorts first.
pub proof fn law_distance_tie_break(a: TaskView, b: TaskView)
    requires
        a.id != b.id,
        a.status == b.status,
        a.complexity() == b.complexity(),
        a.distance() > b.distance(),
    ensures
        sorts_before(a, b),
{
}

/// Replacing a stored node twice with the same task is the same as
/// replacing it once: the second pass finds the task exactly where the
/// first one left it.
proof fn lemma_replace_idempotent(t: TaskView, st: TaskView)
    requires
        t.holds(st.id),
    ensures
        t.spec_replace(st).spec_replace(st) == t.spec_replace(st),
    decreases t,
{
    let t1 = t.spec_replace(st);
    if t.has_child(st.id) {
        lemma_first_with_id_spec(t.subtasks, st.id);
        let j = first_with_id(t.subtasks, st.id);
        assert(t1.subtasks[j].id == st.id);
        assert(t1.has_child(st.id));
        lemma_first_with_id_is(t1.subtasks, st.id, j);
        assert(t1.subtasks.update(j, st) =~= t1.subtasks);
        assert(t1.spec_replace(st) =~= t1);
    } else {
        lemma_first_holding_spec(t.subtasks, st.id);
        let j = first_holding(t.subtasks, st.id);
        assert(0 <= j < t.subtasks.len());
        let c = t.subtasks[j];
        let c1 = c.spec_replace(st);
        c.lemma_replace_shape(st);
        c.lemma_replace_holds(st);
        assert(forall|k: int|
            0 <= k < t1.subtasks.len() ==> (#[trigger] t1.subtasks[k]).id == t.subtasks[k].id);
        assert(!t1.has_child(st.id));
        lemma_first_holding_is(t1.subtasks, st.id, j);
        lemma_replace_idempotent(c, st);
        assert(t1.spec_replace(st).subtasks == t1.subtasks.update(j, c1.spec_replace(st)));
        assert(t1.subtasks.update(j, c1) =~= t1.subtasks);
        assert(t1.spec_replace(st) =~= t1);
    }
}

/// The replace algorithm keeps the updated node exactly where the old id
/// lived: same holder, same depth, and nothing new at any other position.
proof fn lemma_replace_position(t: TaskView, st: TaskView)
    requires
        t.holds(st.id),
    ensures
        t.spec_replace(st).holds(st.id),
        t.spec_replace(st).holder(st.id).id == t.holder(st.id).id,
        t.spec_replace(st).holder_depth(st.id) == t.holder_depth(st.id),
        seq_has_id(t.spec_replace(st).holder(st.id).subtasks, st.id),
        t.spec_replace(st).holder(st.id).subtasks[first_with_id(
            t.spec_replace(st).holder(st.id).subtasks,
            st.id,
        )] == st,
    decreases t,
{
    let t1 = t.spec_replace(st);
    t.lemma_replace_holds(st);
    if t.has_child(st.id) {
        lemma_first_with_id_spec(t.subtasks, st.id);
        let j = first_with_id(t.subtasks, st.id);
        assert(t1.subtasks[j].id == st.id);
        assert(t1.has_child(st.id));
        assert(t1.holder(st.id) == t1);
        lemma_first_with_id_is(t1.subtasks, st.id, j);
    } else {
        lemma_first_holding_spec(t.subtasks, st.id);
        let j = first_holding(t.subtasks, st.id);
        assert(0 <= j < t.subtasks.len());
        let c = t.subtasks[j];
        let c1 = c.spec_replace(st);
        c.lemma_replace_shape(st);
        c.lemma_replace_holds(st);
        assert(forall|k: int|
            0 <= k < t1.subtasks.len() ==> (#[trigger] t1.subtasks[k]).id == t.subtasks[k].id);
        assert(!t1.has_child(st.id));
        lemma_first_holding_is(t1.subtasks, st.id, j);
        lemma_replace_position(c, st);
        assert(t1.holder(st.id) == c1.holder(st.id));
        assert(t.holder(st.id) == c.holder(st.id));
    }
}

/// Position preservation on update: when a task's id already lives anywhere
/// in the tree, re-inserting it — through any ancestor's insert — stores the
/// new task under the same holder, at the same depth, and never promotes it
/// to a new top-level child: every direct child keeps its id, and none is
/// added.
pub proof fn law_position_preserved(t: TaskView, st: TaskView)
    requires
        t.holds(st.id),
    ensures
        t.spec_add(st).holds(st.id),
        t.spec_add(st).holder(st.id).id == t.holder(st.id).id,
        t.spec_add(st).holder_depth(st.id) == t.holder_depth(st.id),
        t.spec_add(st).subtasks.len() == t.subtasks.len(),
        forall|k: int|
            0 <= k < t.subtasks.len() ==> (#[trigger] t.spec_add(st).subtasks[k]).id
                == t.subtasks[k].id,
        seq_has_id(t.spec_add(st).holder(st.id).subtasks, st.id),
        t.spec_add(st).holder(st.id).subtasks[first_with_id(
            t.spec_add(st).holder(st.id).subtasks,
            st.id,
        )] == st,
{
    t.lemma_replace_shape(st);
    lemma_replace_position(t, st);
}

/// Idempotent upsert: inserting the same task twice leaves the tree exactly
/// as inserting it once does.
pub proof fn law_upsert_idempotent(t: TaskView, st: TaskView)
    ensures
        t.spec_add(st).spec_add(st) == t.spec_add(st),
{
    let t1 = t.spec_add(st);
    if t.holds(st.id) {
        t.lemma_replace_holds(st);
        lemma_replace_idempotent(t, st);
    } else {
        let n = t.subtasks.len() as int;
        assert(t1.subtasks[n] == st);
        assert(t1.has_child(st.id));
        assert(t1.holds(st.id));
        assert(!t.has_child(st.id));
        lemma_first_with_id_is(t1.subtasks, st.id, n);
        assert(t1.spec_add(st) == t1.spec_replace(st));
        assert(t1.subtasks.update(n, st) =~= t1.subtasks);
        assert(t1.spec_replace(st) =~= t1);
    }
}

/// Inserting a run of tasks whose subtree ids are pairwise distinct, none
/// of them already held by the tree, appends them in order as new
/// top-level children.
proof fn lemma_load_appends(base: TaskView, s: Seq<TaskView>)
    requires
        ids_distinct(forest_nodes(s)),
        forall|i: int| 0 <= i < s.len() ==> !base.holds((#[trigger] s[i]).id),
    ensures
        spec_add_all(base, s).subtasks == base.subtasks + s,
    decreases s.len(),
{
    if s.len() == 0 {
        assert(base.subtasks + s =~= base.subtasks);
    } else {
        let x = s[0];
        let rest = s.drop_first();
        assert(!base.holds(x.id));
        let base1 = base.spec_add(x);
        assert(base1.subtasks == base.subtasks.push(x));
        assert(forest_nodes(s) == x.nodes() + forest_nodes(rest));
        let head_len = x.nodes().len() as int;
        crate::model::lemma_forest_nodes_len(s);

        assert forall|p: int, q: int| 0 <= p < q < forest_nodes(rest).len() implies forest_nodes(
            rest,
        )[p].id != forest_nodes(rest)[q].id by {
            assert(forest_nodes(s)[head_len + p] == forest_nodes(rest)[p]);
            assert(forest_nodes(s)[head_len + q] == forest_nodes(rest)[q]);
        }

        assert forall|i: int| 0 <= i < rest.len() implies !base1.holds(
            (#[trigger] rest[i]).id,
        ) by {
            let rid = rest[i].id;
            assert(rest[i] == s[i + 1]);
            crate::model::lemma_holds_iff_descendant(base1, rid);
            crate::model::lemma_holds_iff_descendant(base, rid);
            crate::model::lemma_forest_nodes_push(base.subtasks, x);
            assert(forest_nodes(base1.subtasks) == forest_nodes(base.subtasks) + x.nodes());
            crate::model::lemma_top_is_node(rest, i);
            let pos = forest_nodes(rest.take(i)).len() as int;
            assert(forest_nodes(rest)[pos] == rest[i]);
            assert(forest_nodes(s)[head_len + pos].id == rid);
            if base1.holds(rid) {
                let w = choose|w: int|
                    0 <= w < forest_nodes(base1.subtasks).len() && forest_nodes(
                        base1.subtasks,
                    )[w].id == rid;
                if w < forest_nodes(base.subtasks).len() {
                    assert(forest_nodes(base.subtasks)[w].id == rid);
                    assert(seq_has_id(forest_nodes(base.subtasks), rid));
                    assert(base.holds(rid));
                } else {
                    let m = w - forest_nodes(base.subtasks).len();
                    assert(x.nodes()[m].id == rid);
                    assert(forest_nodes(s)[m].id == rid);
                    assert(m < head_len + pos);
                }
            }
        }

        lemma_load_appends(base1, rest);
        assert(spec_add_all(base, s) == spec_add_all(base1, rest));
        assert(base1.subtasks + rest =~= base.subtasks + s);
    }
}

/// Round trip: loading into an empty registry the top-level tasks that a
/// save handed out — in the order the collaborator returns them, each still
/// carrying its nested subtasks — reproduces exactly those trees as the
/// top-level tasks, nesting included, provided ids are unique across the
/// whole forest.
pub proof fn law_save_load_round_trip(fresh: TaskView, s: Seq<TaskView>)
    requires
        fresh.subtasks == Seq::<TaskView>::empty(),
        ids_distinct(forest_nodes(s)),
    ensures
        spec_add_all(fresh, s).subtasks == s,
{
    assert forall|i: int| 0 <= i < s.len() implies !fresh.holds((#[trigger] s[i]).id) by {
        assert(!fresh.has_child(s[i].id));
    }
    lemma_load_appends(fresh, s);
    assert(fresh.subtasks + s =~= s);
}

/// The comparator pins every listing completely: two priority-sorted
/// sequences of the same tasks are identical whenever no two tasks share an
/// id. Together with the listing contracts, the sorted output of the
/// listing operations is therefore unique.
pub proof fn law_sorted_listing_unique(s1: Seq<TaskView>, s2: Seq<TaskView>)
    requires
        sorted_by_priority(s1),
        sorted_by_priority(s2),
        ids_distinct(s1),
        s1.to_multiset() == s2.to_multiset(),
    ensures
        s1 == s2,
    decreases s1.len(),
{
    broadcast use vstd::seq_lib::group_to_multiset_ensures;

    vstd::seq_lib::to_multiset_len(s1);
    vstd::seq_lib::to_multiset_len(s2);
    if s1.len() == 0 {
        assert(s1 =~= s2);
    } else {
        assert(s1.len() == s2.len());

        // the two heads are the same task
        vstd::seq_lib::to_multiset_contains(s1, s2[0]);
        vstd::seq_lib::to_multiset_contains(s2, s1[0]);
        assert(s2.contains(s2[0]));
        assert(s2.to_multiset().count(s2[0]) > 0);
        assert(s1.to_multiset().count(s2[0]) > 0);
        assert(s1.contains(s2[0]));
        let k = choose|k: int| 0 <= k < s1.len() && s1[k] == s2[0];
        if k != 0 {
            assert(s1.contains(s1[0]));
            assert(s1.to_multiset().count(s1[0]) > 0);
            assert(s2.to_multiset().count(s1[0]) > 0);
            assert(s2.contains(s1[0]));
            let m = choose|m: int| 0 <= m < s2.len() && s2[m] == s1[0];
            assert(s1[0].id != s1[k].id);
            if m == 0 {
                assert(s1[0] == s2[0]);
                assert(s1[0].id == s1[k].id);
            } else {
                assert(!sorts_before(s1[k], s1[0]));
                assert(!sorts_before(s2[m], s2[0]));
                assert(sorts_before(s1[0], s1[k]) || sorts_before(s1[k], s1[0]));
            }
        }
        assert(s1[0] == s2[0]);

        // and the tails sort the same remainder
        let r1 = s1.drop_first();
        let r2 = s2.drop_first();
        assert(r1 =~= s1.remove(0));
        assert(r2 =~= s2.remove(0));
        vstd::seq_lib::to_multiset_remove(s1, 0);
        vstd::seq_lib::to_multiset_remove(s2, 0);
        assert(r1.to_multiset() == s1.to_multiset().remove(s1[0]));
        assert(r2.to_multiset() == s2.to_multiset().remove(s2[0]));
        assert(forall|i: int| 0 <= i < r1.len() ==> #[trigger] r1[i] == s1[i + 1]);
        assert(forall|i: int| 0 <= i < r2.len() ==> #[trigger] r2[i] == s2[i + 1]);
        law_sorted_listing_unique(r1, r2);
        assert forall|i: int| 0 <= i < s1.len() implies s1[i] == s2[i] by {
            if i > 0 {
                assert(r1[i - 1] == s1[i]);
                assert(r2[i - 1] == s2[i]);
            }
        }
        assert(s1 =~= s2);
    }
}

} // verus!

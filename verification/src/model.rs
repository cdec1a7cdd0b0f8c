use vstd::prelude::*;
use crate::status::TaskStatus;

verus! {

/// The mathematical shape of one task: every observable attribute of the
/// node, with its children as a sequence of shapes. Contracts throughout the
/// crate speak about tasks through this view.
#[verifier::ext_equal]
pub struct TaskView {
    pub id: u32,
    pub importance: int,
    pub urgency: int,
    pub status: TaskStatus,
    pub desc: Seq<char>,
    pub subtasks: Seq<TaskView>,
}

/// The view of a freshly constructed task that carries only an id.
pub open spec fn blank_view(id: u32) -> TaskView {
    TaskView {
        id,
        importance: 0,
        urgency: 0,
        status: TaskStatus::Open,
        desc: Seq::empty(),
        subtasks: Seq::empty(),
    }
}

/// A sign-preserving square: negative inputs actively reduce priority
/// instead of counting by magnitude alone.
pub open spec fn signed_square(x: int) -> int {
    if x >= 0 {
        x * x
    } else {
        -(x * x)
    }
}

/// Multiplying a value by its absolute value is the sign-preserving square,
/// and for inputs of 64-bit magnitude the product keeps well clear of the
/// 128-bit limits: two such products always fit in an `i128` sum.
pub proof fn lemma_signed_square_shape(x: int, a: int)
    requires
        a == (if x < 0 { -x } else { x }),
        -0x8000_0000_0000_0000 <= x < 0x8000_0000_0000_0000,
    ensures
        x * a == signed_square(x),
        -0x4000_0000_0000_0000_0000_0000_0000_0000 <= x * a
            <= 0x3FFF_FFFF_FFFF_FFFF_0000_0000_0000_0001,
{
    assert(x * a == signed_square(x) && -0x4000_0000_0000_0000_0000_0000_0000_0000 <= x * a
        <= 0x3FFF_FFFF_FFFF_FFFF_0000_0000_0000_0001) by (nonlinear_arith)
        requires
            a == (if x < 0 { -x } else { x }),
            -0x8000_0000_0000_0000 <= x < 0x8000_0000_0000_0000,
    ;
}

/// Whether some direct entry of `s` carries the id.
pub open spec fn seq_has_id(s: Seq<TaskView>, id: u32) -> bool {
    exists|i: int| 0 <= i < s.len() && s[i].id == id
}

impl TaskView {
    /// The signed priority scalar derived from importance and urgency; a
    /// larger distance sorts first among otherwise equal tasks, and it is
    /// also the node's placement coordinate in a 2-D arrangement.
    pub open spec fn distance(self) -> int {
        signed_square(self.importance) + signed_square(self.urgency)
    }

    /// Total node count of the subtree rooted here, including the node
    /// itself; a leaf has complexity 1.
    pub open spec fn complexity(self) -> nat
        decreases self,
    {
        1 + forest_complexity(self.subtasks)
    }

    /// Whether a direct child of this node carries the id.
    pub open spec fn has_child(self, id: u32) -> bool {
        seq_has_id(self.subtasks, id)
    }

    /// Whether some node of this subtree (the node itself included) has a
    /// direct child carrying the id — that is, whether an insert or delete
    /// of the id would land somewhere below this node.
    pub open spec fn holds(self, id: u32) -> bool
        decreases self,
    {
        self.has_child(id) || exists|i: int|
            0 <= i < self.subtasks.len() && self.subtasks[i].holds(id)
    }

    /// Every node of the subtree rooted here, the root first, each child's
    /// subtree in child order after it.
    pub open spec fn nodes(self) -> Seq<TaskView>
        decreases self,
    {
        seq![self] + forest_nodes(self.subtasks)
    }

    /// The node in this subtree whose direct children carry the id: the
    /// node itself when a direct child matches, otherwise the holder inside
    /// the first child subtree that holds the id. Meaningful only when
    /// `holds(id)`.
    pub open spec fn holder(self, id: u32) -> TaskView
        decreases self,
    {
        if self.has_child(id) {
            self
        } else {
            let j = first_holding(self.subtasks, id);
            if 0 <= j < self.subtasks.len() {
                self.subtasks[j].holder(id)
            } else {
                self
            }
        }
    }

    /// How many levels below this node the holder of the id lives; 0 when a
    /// direct child matches. Meaningful only when `holds(id)`.
    pub open spec fn holder_depth(self, id: u32) -> nat
        decreases self,
    {
        if self.has_child(id) {
            0
        } else {
            let j = first_holding(self.subtasks, id);
            if 0 <= j < self.subtasks.len() {
                1 + self.subtasks[j].holder_depth(id)
            } else {
                0
            }
        }
    }

    /// The tree after the stored node with id `st.id` is replaced by `st`,
    /// wholesale, in place: the first holder keeps `st` exactly where the
    /// old id lived. Leaves the tree unchanged when nothing holds the id.
    pub open spec fn spec_replace(self, st: TaskView) -> TaskView
        decreases self,
    {
        if self.has_child(st.id) {
            TaskView { subtasks: self.subtasks.update(first_with_id(self.subtasks, st.id), st), ..self }
        } else {
            let j = first_holding(self.subtasks, st.id);
            if 0 <= j < self.subtasks.len() {
                TaskView {
                    subtasks: self.subtasks.update(j, self.subtasks[j].spec_replace(st)),
                    ..self
                }
            } else {
                self
            }
        }
    }

    /// The tree after inserting `st`: if the id already lives anywhere in
    /// the subtree, `st` replaces the stored node there; otherwise `st`
    /// becomes a new direct child of this node.
    pub open spec fn spec_add(self, st: TaskView) -> TaskView {
        if self.holds(st.id) {
            self.spec_replace(st)
        } else {
            TaskView { subtasks: self.subtasks.push(st), ..self }
        }
    }

    /// The tree after deleting the id from whichever children mapping holds
    /// it; unchanged when the id is absent (a silent no-op, not an error).
    pub open spec fn spec_delete(self, id: u32) -> TaskView
        decreases self,
    {
        if self.has_child(id) {
            TaskView { subtasks: self.subtasks.remove(first_with_id(self.subtasks, id)), ..self }
        } else {
            let j = first_holding(self.subtasks, id);
            if 0 <= j < self.subtasks.len() {
                TaskView { subtasks: self.subtasks.update(j, self.subtasks[j].spec_delete(id)), ..self }
            } else {
                self
            }
        }
    }
}

/// Node count of a whole forest.
pub open spec fn forest_complexity(s: Seq<TaskView>) -> nat
    decreases s,
{
    if s.len() == 0 {
        0
    } else {
        s[0].complexity() + forest_complexity(s.drop_first())
    }
}

/// Every node of every subtree of the forest, in order.
pub open spec fn forest_nodes(s: Seq<TaskView>) -> Seq<TaskView>
    decreases s,
{
    if s.len() == 0 {
        Seq::empty()
    } else {
        s[0].nodes() + forest_nodes(s.drop_first())
    }
}

/// Index of the first entry of `s` whose id is `id`; `s.len()` when absent.
pub open spec fn first_with_id(s: Seq<TaskView>, id: u32) -> int
    decreases s.len(),
{
    if s.len() == 0 {
        0
    } else if s[0].id == id {
        0
    } else {
        1 + first_with_id(s.drop_first(), id)
    }
}

/// Index of the first entry of `s` whose subtree holds `id`; `s.len()` when
/// no subtree does.
pub open spec fn first_holding(s: Seq<TaskView>, id: u32) -> int
    decreases s,
{
    if s.len() == 0 {
        0
    } else if s[0].holds(id) {
        0
    } else {
        1 + first_holding(s.drop_first(), id)
    }
}

/// The tree after inserting every task of `s` in order, each through the
/// ordinary insert algorithm.
pub open spec fn spec_add_all(t: TaskView, s: Seq<TaskView>) -> TaskView
    decreases s.len(),
{
    if s.len() == 0 {
        t
    } else {
        spec_add_all(t.spec_add(s[0]), s.drop_first())
    }
}

/// Appending a task to a forest adds that task's complexity.
pub proof fn lemma_forest_complexity_push(s: Seq<TaskView>, t: TaskView)
    ensures
        forest_complexity(s.push(t)) == forest_complexity(s) + t.complexity(),
    decreases s.len(),
{
    if s.len() == 0 {
        assert(s.push(t)[0] == t);
        assert(s.push(t).drop_first() =~= Seq::<TaskView>::empty());
        assert(forest_complexity(s) == 0);
        assert(forest_complexity(s.push(t).drop_first()) == 0);
        assert(forest_complexity(s.push(t)) == t.complexity() + forest_complexity(s.push(t).drop_first()));
    } else {
        assert(s.push(t)[0] == s[0]);
        assert(s.push(t).drop_first() =~= s.drop_first().push(t));
        lemma_forest_complexity_push(s.drop_first(), t);
        assert(forest_complexity(s.push(t).drop_first()) == forest_complexity(s.drop_first()) + t.complexity());
        assert(forest_complexity(s.push(t)) == s[0].complexity() + forest_complexity(s.push(t).drop_first()));
        assert(forest_complexity(s) == s[0].complexity() + forest_complexity(s.drop_first()));
    }
}

/// One more entry of the prefix adds exactly that entry's complexity.
pub proof fn lemma_forest_complexity_take_step(s: Seq<TaskView>, i: int)
    requires
        0 <= i < s.len(),
    ensures
        forest_complexity(s.take(i + 1)) == forest_complexity(s.take(i)) + s[i].complexity(),
{
    assert(s.take(i + 1) =~= s.take(i).push(s[i]));
    lemma_forest_complexity_push(s.take(i), s[i]);
}

/// A forest's complexity splits over any cut into prefix and suffix.
pub proof fn lemma_forest_complexity_split(s: Seq<TaskView>, i: int)
    requires
        0 <= i <= s.len(),
    ensures
        forest_complexity(s) == forest_complexity(s.take(i)) + forest_complexity(s.skip(i)),
    decreases i,
{
    if i == 0 {
        assert(s.take(0) =~= Seq::<TaskView>::empty());
        assert(s.skip(0) =~= s);
    } else {
        lemma_forest_complexity_split(s, i - 1);
        lemma_forest_complexity_take_step(s, i - 1);
        assert(s.skip(i - 1).drop_first() =~= s.skip(i));
        assert(s.skip(i - 1)[0] == s[i - 1]);
    }
}

/// No member of a forest is more complex than the whole forest.
pub proof fn lemma_forest_complexity_member(s: Seq<TaskView>, i: int)
    requires
        0 <= i < s.len(),
    ensures
        s[i].complexity() <= forest_complexity(s),
    decreases s.len(),
{
    if i > 0 {
        lemma_forest_complexity_member(s.drop_first(), i - 1);
    }
}

/// The scan for the first entry with an id lands on any index that matches
/// while everything earlier does not.
pub proof fn lemma_first_with_id_is(s: Seq<TaskView>, id: u32, j: int)
    requires
        0 <= j < s.len(),
        s[j].id == id,
        forall|k: int| 0 <= k < j ==> (#[trigger] s[k]).id != id,
    ensures
        first_with_id(s, id) == j,
    decreases j,
{
    if j > 0 {
        assert(forall|k: int| 0 <= k < j - 1 ==> #[trigger] s.drop_first()[k] == s[k + 1]);
        lemma_first_with_id_is(s.drop_first(), id, j - 1);
    }
}

/// The scan for the first subtree that holds an id lands on any index that
/// holds it while everything earlier does not.
pub proof fn lemma_first_holding_is(s: Seq<TaskView>, id: u32, j: int)
    requires
        0 <= j < s.len(),
        s[j].holds(id),
        forall|k: int| 0 <= k < j ==> !(#[trigger] s[k]).holds(id),
    ensures
        first_holding(s, id) == j,
    decreases j,
{
    if j > 0 {
        assert(forall|k: int| 0 <= k < j - 1 ==> #[trigger] s.drop_first()[k] == s[k + 1]);
        lemma_first_holding_is(s.drop_first(), id, j - 1);
    }
}

/// When no subtree holds the id, the scan runs off the end.
pub proof fn lemma_first_holding_none(s: Seq<TaskView>, id: u32)
    requires
        forall|k: int| 0 <= k < s.len() ==> !(#[trigger] s[k]).holds(id),
    ensures
        first_holding(s, id) == s.len(),
    decreases s.len(),
{
    if s.len() > 0 {
        lemma_first_holding_none(s.drop_first(), id);
    }
}

/// Strict priority order between two tasks: status ascending, then
/// complexity ascending, then distance descending, then id ascending;
/// two tasks sharing an id never order strictly.
pub open spec fn sorts_before(a: TaskView, b: TaskView) -> bool {
    &&& a.id != b.id
    &&& if a.status.code() != b.status.code() {
        a.status.code() < b.status.code()
    } else if a.complexity() != b.complexity() {
        a.complexity() < b.complexity()
    } else if a.distance() != b.distance() {
        a.distance() > b.distance()
    } else {
        a.id < b.id
    }
}

/// A sequence is sorted when no later entry sorts strictly before an
/// earlier one.
pub open spec fn sorted_by_priority(s: Seq<TaskView>) -> bool {
    forall|i: int, j: int| 0 <= i < j < s.len() ==> !sorts_before(s[j], s[i])
}

/// The non-strict key order under the comparator: the same precedence as
/// `sorts_before`, with ascending id closing every remaining tie. Unlike
/// `sorts_before` it also relates two tasks that share an id, so it is a
/// total preorder.
pub open spec fn key_le(a: TaskView, b: TaskView) -> bool {
    if a.status.code() != b.status.code() {
        a.status.code() < b.status.code()
    } else if a.complexity() != b.complexity() {
        a.complexity() < b.complexity()
    } else if a.distance() != b.distance() {
        a.distance() > b.distance()
    } else {
        a.id <= b.id
    }
}

/// The key order is total.
pub proof fn lemma_key_le_total(a: TaskView, b: TaskView)
    ensures
        key_le(a, b) || key_le(b, a),
{
}

/// The key order is transitive.
pub proof fn lemma_key_le_trans(a: TaskView, b: TaskView, c: TaskView)
    requires
        key_le(a, b),
        key_le(b, c),
    ensures
        key_le(a, c),
{
}

/// Whatever respects the key order never violates the strict priority
/// order: a key-sorted sequence is priority-sorted.
pub proof fn lemma_key_sorted_is_priority_sorted(s: Seq<TaskView>)
    requires
        forall|i: int, j: int| 0 <= i < j < s.len() ==> key_le(#[trigger] s[i], #[trigger] s[j]),
    ensures
        sorted_by_priority(s),
{
    assert forall|i: int, j: int| 0 <= i < j < s.len() implies !sorts_before(s[j], s[i]) by {
        assert(key_le(s[i], s[j]));
    }
}

/// Appending a task to a forest appends that task's subtree nodes.
pub proof fn lemma_forest_nodes_push(s: Seq<TaskView>, t: TaskView)
    ensures
        forest_nodes(s.push(t)) == forest_nodes(s) + t.nodes(),
    decreases s.len(),
{
    if s.len() == 0 {
        assert(s.push(t)[0] == t);
        assert(s.push(t).drop_first() =~= Seq::<TaskView>::empty());
        assert(forest_nodes(s.push(t)) == t.nodes() + forest_nodes(
            Seq::<TaskView>::empty(),
        ));
        assert(forest_nodes(Seq::<TaskView>::empty()) =~= Seq::<TaskView>::empty());
        assert(forest_nodes(s) == Seq::<TaskView>::empty());
        assert(t.nodes() + Seq::<TaskView>::empty() =~= Seq::<TaskView>::empty() + t.nodes());
    } else {
        assert(s.push(t)[0] == s[0]);
        assert(s.push(t).drop_first() =~= s.drop_first().push(t));
        lemma_forest_nodes_push(s.drop_first(), t);
        assert(forest_nodes(s.push(t)) == s[0].nodes() + (forest_nodes(s.drop_first())
            + t.nodes()));
        assert(s[0].nodes() + (forest_nodes(s.drop_first()) + t.nodes()) =~= (s[0].nodes()
            + forest_nodes(s.drop_first())) + t.nodes());
    }
}

/// A subtree lists exactly as many nodes as its complexity counts.
pub proof fn lemma_nodes_len(t: TaskView)
    ensures
        t.nodes().len() == t.complexity(),
    decreases t,
{
    lemma_forest_nodes_len(t.subtasks);
}

/// A forest lists exactly as many nodes as its complexity counts.
pub proof fn lemma_forest_nodes_len(s: Seq<TaskView>)
    ensures
        forest_nodes(s).len() == forest_complexity(s),
    decreases s,
{
    if s.len() > 0 {
        lemma_nodes_len(s[0]);
        lemma_forest_nodes_len(s.drop_first());
    }
}

/// No node of a subtree is more complex than the subtree's root.
pub proof fn lemma_nodes_complexity_bound(t: TaskView)
    ensures
        forall|k: int|
            0 <= k < t.nodes().len() ==> (#[trigger] t.nodes()[k]).complexity() <= t.complexity(),
    decreases t,
{
    lemma_forest_nodes_complexity_bound(t.subtasks);
    lemma_forest_nodes_len(t.subtasks);
    assert forall|k: int| 0 <= k < t.nodes().len() implies (#[trigger] t.nodes()[k]).complexity()
        <= t.complexity() by {
        if k > 0 {
            assert(t.nodes()[k] == forest_nodes(t.subtasks)[k - 1]);
        }
    }
}

/// No node of a forest is more complex than the whole forest.
pub proof fn lemma_forest_nodes_complexity_bound(s: Seq<TaskView>)
    ensures
        forall|k: int|
            0 <= k < forest_nodes(s).len() ==> (#[trigger] forest_nodes(s)[k]).complexity()
                <= forest_complexity(s),
    decreases s,
{
    if s.len() > 0 {
        lemma_nodes_complexity_bound(s[0]);
        lemma_forest_nodes_complexity_bound(s.drop_first());
        lemma_nodes_len(s[0]);
        assert forall|k: int| 0 <= k < forest_nodes(s).len() implies (#[trigger] forest_nodes(
            s,
        )[k]).complexity() <= forest_complexity(s) by {
            if k < s[0].nodes().len() {
                assert(forest_nodes(s)[k] == s[0].nodes()[k]);
            } else {
                assert(forest_nodes(s)[k] == forest_nodes(s.drop_first())[k
                    - s[0].nodes().len()]);
            }
        }
    }
}

/// No two entries share an id.
pub open spec fn ids_distinct(s: Seq<TaskView>) -> bool {
    forall|p: int, q: int| 0 <= p < q < s.len() ==> s[p].id != s[q].id
}

/// Where the scan for the first entry with an id lands: within bounds, on a
/// match, with no earlier match — and it finds a match exactly when one
/// exists.
pub proof fn lemma_first_with_id_spec(s: Seq<TaskView>, id: u32)
    ensures
        0 <= first_with_id(s, id) <= s.len(),
        first_with_id(s, id) < s.len() ==> s[first_with_id(s, id)].id == id,
        forall|k: int| 0 <= k < first_with_id(s, id) ==> (#[trigger] s[k]).id != id,
        (first_with_id(s, id) < s.len()) <==> seq_has_id(s, id),
    decreases s.len(),
{
    if s.len() > 0 && s[0].id != id {
        lemma_first_with_id_spec(s.drop_first(), id);
        assert(forall|k: int| 0 <= k < s.len() - 1 ==> #[trigger] s.drop_first()[k] == s[k + 1]);
        assert forall|k: int| 0 <= k < first_with_id(s, id) implies (#[trigger] s[k]).id
            != id by {
            if k > 0 {
                assert(s[k] == s.drop_first()[k - 1]);
            }
        }
        if seq_has_id(s, id) {
            let w = choose|w: int| 0 <= w < s.len() && s[w].id == id;
            assert(s.drop_first()[w - 1].id == id);
            assert(seq_has_id(s.drop_first(), id));
        }
        if seq_has_id(s.drop_first(), id) {
            let w = choose|w: int| 0 <= w < s.drop_first().len() && s.drop_first()[w].id == id;
            assert(s[w + 1].id == id);
        }
    }
}

/// Where the scan for the first holding subtree lands: within bounds, on a
/// holder, with no earlier holder — and it finds one exactly when one
/// exists.
pub proof fn lemma_first_holding_spec(s: Seq<TaskView>, id: u32)
    ensures
        0 <= first_holding(s, id) <= s.len(),
        first_holding(s, id) < s.len() ==> s[first_holding(s, id)].holds(id),
        forall|k: int| 0 <= k < first_holding(s, id) ==> !(#[trigger] s[k]).holds(id),
        (first_holding(s, id) < s.len()) <==> (exists|k: int|
            0 <= k < s.len() && s[k].holds(id)),
    decreases s,
{
    if s.len() > 0 && !s[0].holds(id) {
        lemma_first_holding_spec(s.drop_first(), id);
        assert(forall|k: int| 0 <= k < s.len() - 1 ==> #[trigger] s.drop_first()[k] == s[k + 1]);
        assert forall|k: int| 0 <= k < first_holding(s, id) implies !(#[trigger] s[k]).holds(
            id,
        ) by {
            if k > 0 {
                assert(s[k] == s.drop_first()[k - 1]);
            }
        }
        if exists|k: int| 0 <= k < s.len() && s[k].holds(id) {
            let w = choose|w: int| 0 <= w < s.len() && s[w].holds(id);
            assert(s.drop_first()[w - 1].holds(id));
        }
        if exists|k: int| 0 <= k < s.drop_first().len() && s.drop_first()[k].holds(id) {
            let w = choose|w: int|
                0 <= w < s.drop_first().len() && s.drop_first()[w].holds(id);
            assert(s[w + 1].holds(id));
        }
    }
}

impl TaskView {
    /// Replacing a stored node keeps the surrounding tree's shape: every
    /// scalar of this node, the number of children, and each child's id stay
    /// as they were.
    pub proof fn lemma_replace_shape(self, st: TaskView)
        ensures
            self.spec_replace(st).id == self.id,
            self.spec_replace(st).importance == self.importance,
            self.spec_replace(st).urgency == self.urgency,
            self.spec_replace(st).status == self.status,
            self.spec_replace(st).desc == self.desc,
            self.spec_replace(st).subtasks.len() == self.subtasks.len(),
            forall|k: int|
                0 <= k < self.subtasks.len() ==> (#[trigger] self.spec_replace(
                    st,
                ).subtasks[k]).id == self.subtasks[k].id,
        decreases self,
    {
        if self.has_child(st.id) {
            lemma_first_with_id_spec(self.subtasks, st.id);
        } else {
            let j = first_holding(self.subtasks, st.id);
            if 0 <= j < self.subtasks.len() {
                self.subtasks[j].lemma_replace_shape(st);
            }
        }
    }

    /// After a replace, the id still lives in the tree.
    pub proof fn lemma_replace_holds(self, st: TaskView)
        requires
            self.holds(st.id),
        ensures
            self.spec_replace(st).holds(st.id),
        decreases self,
    {
        if self.has_child(st.id) {
            lemma_first_with_id_spec(self.subtasks, st.id);
            let j = first_with_id(self.subtasks, st.id);
            assert(self.spec_replace(st).subtasks[j].id == st.id);
            assert(self.spec_replace(st).has_child(st.id));
        } else {
            lemma_first_holding_spec(self.subtasks, st.id);
            let j = first_holding(self.subtasks, st.id);
            assert(0 <= j < self.subtasks.len());
            self.subtasks[j].lemma_replace_holds(st);
            assert(self.spec_replace(st).subtasks[j].holds(st.id));
        }
    }
}

/// The nodes of a forest split over any cut into prefix and suffix.
pub proof fn lemma_forest_nodes_split(s: Seq<TaskView>, i: int)
    requires
        0 <= i <= s.len(),
    ensures
        forest_nodes(s) == forest_nodes(s.take(i)) + forest_nodes(s.skip(i)),
    decreases i,
{
    if i == 0 {
        assert(s.take(0) =~= Seq::<TaskView>::empty());
        assert(s.skip(0) =~= s);
        assert(forest_nodes(s.take(0)) =~= Seq::<TaskView>::empty());
        assert(forest_nodes(s) =~= forest_nodes(s.take(0)) + forest_nodes(s.skip(0)));
    } else {
        lemma_forest_nodes_split(s, i - 1);
        assert(s.take(i) =~= s.take(i - 1).push(s[i - 1]));
        lemma_forest_nodes_push(s.take(i - 1), s[i - 1]);
        assert(s.skip(i - 1)[0] == s[i - 1]);
        assert(s.skip(i - 1).drop_first() =~= s.skip(i));
        assert(forest_nodes(s.skip(i - 1)) == s[i - 1].nodes() + forest_nodes(s.skip(i)));
        assert(forest_nodes(s.take(i - 1)) + (s[i - 1].nodes() + forest_nodes(s.skip(i))) =~= (
        forest_nodes(s.take(i - 1)) + s[i - 1].nodes()) + forest_nodes(s.skip(i)));
    }
}

/// Every top-level task of a forest appears among the forest's nodes, right
/// after the nodes of the subtrees before it.
pub proof fn lemma_top_is_node(s: Seq<TaskView>, i: int)
    requires
        0 <= i < s.len(),
    ensures
        forest_nodes(s.take(i)).len() < forest_nodes(s).len(),
        forest_nodes(s)[forest_nodes(s.take(i)).len() as int] == s[i],
{
    lemma_forest_nodes_split(s, i);
    assert(s.skip(i)[0] == s[i]);
    assert(forest_nodes(s.skip(i)) == s[i].nodes() + forest_nodes(s.skip(i).drop_first()));
    assert(s[i].nodes()[0] == s[i]);
    assert(forest_nodes(s.skip(i))[0] == s[i]);
}

/// An id lives somewhere below a node exactly when one of the nodes beneath
/// it carries the id: holding and descendant ids are two views of the same
/// fact.
pub proof fn lemma_holds_iff_descendant(t: TaskView, id: u32)
    ensures
        t.holds(id) <==> seq_has_id(forest_nodes(t.subtasks), id),
    decreases t,
{
    lemma_forest_holds_iff_node_id(t.subtasks, id);
}

/// A forest's nodes carry an id exactly when a top-level task carries it or
/// some subtree holds it.
pub proof fn lemma_forest_holds_iff_node_id(s: Seq<TaskView>, id: u32)
    ensures
        seq_has_id(forest_nodes(s), id) <==> (seq_has_id(s, id) || exists|i: int|
            0 <= i < s.len() && (#[trigger] s[i]).holds(id)),
    decreases s,
{
    if s.len() > 0 {
        lemma_forest_holds_iff_node_id(s.drop_first(), id);
        lemma_forest_holds_iff_node_id(s[0].subtasks, id);
        let head = s[0].nodes();
        let rest = forest_nodes(s.drop_first());
        assert(forest_nodes(s) == head + rest);
        assert(head[0] == s[0]);
        assert(forall|k: int| 0 <= k < s.len() - 1 ==> #[trigger] s.drop_first()[k] == s[k + 1]);

        if seq_has_id(forest_nodes(s), id) {
            let w = choose|w: int|
                0 <= w < forest_nodes(s).len() && forest_nodes(s)[w].id == id;
            if w == 0 {
                assert(s[0].id == id);
            } else if w < head.len() {
                assert(head[w] == s[0].nodes()[w]);
                assert(s[0].nodes()[w] == forest_nodes(s[0].subtasks)[w - 1]);
                assert(seq_has_id(forest_nodes(s[0].subtasks), id));
                assert(s[0].holds(id));
            } else {
                assert(rest[w - head.len()].id == id);
                assert(seq_has_id(rest, id));
            }
        }
        if seq_has_id(s, id) {
            let w = choose|w: int| 0 <= w < s.len() && s[w].id == id;
            if w == 0 {
                assert(forest_nodes(s)[0].id == id);
            } else {
                assert(s.drop_first()[w - 1].id == id);
                assert(seq_has_id(s.drop_first(), id));
                let u = choose|u: int| 0 <= u < rest.len() && rest[u].id == id;
                assert(forest_nodes(s)[head.len() + u].id == id);
            }
        }
        if exists|i: int| 0 <= i < s.len() && (#[trigger] s[i]).holds(id) {
            let w = choose|w: int| 0 <= w < s.len() && s[w].holds(id);
            if w == 0 {
                assert(seq_has_id(forest_nodes(s[0].subtasks), id));
                let u = choose|u: int|
                    0 <= u < forest_nodes(s[0].subtasks).len() && forest_nodes(
                        s[0].subtasks,
                    )[u].id == id;
                assert(s[0].nodes()[u + 1].id == id);
                assert(forest_nodes(s)[u + 1].id == id);
            } else {
                assert(s.drop_first()[w - 1].holds(id));
                let u = choose|u: int| 0 <= u < rest.len() && rest[u].id == id;
                assert(forest_nodes(s)[head.len() + u].id == id);
            }
        }
    }
}

impl TaskView {
    /// Well-formedness of a tree: at every node, no two direct children
    /// share an id — the children form a mapping keyed by id. Constructors
    /// establish this and every engine operation preserves it.
    pub open spec fn wf(self) -> bool
        decreases self,
    {
        ids_distinct(self.subtasks) && forall|i: int|
            0 <= i < self.subtasks.len() ==> (#[trigger] self.subtasks[i]).wf()
    }

    /// Replacing a stored node with a well-formed task keeps the tree
    /// well-formed.
    pub proof fn lemma_replace_preserves_wf(self, st: TaskView)
        requires
            self.wf(),
            st.wf(),
        ensures
            self.spec_replace(st).wf(),
        decreases self,
    {
        let t1 = self.spec_replace(st);
        self.lemma_replace_shape(st);
        if self.has_child(st.id) {
            lemma_first_with_id_spec(self.subtasks, st.id);
        } else {
            let j = first_holding(self.subtasks, st.id);
            if 0 <= j < self.subtasks.len() {
                self.subtasks[j].lemma_replace_preserves_wf(st);
                assert(forall|k: int|
                    0 <= k < t1.subtasks.len() ==> (#[trigger] t1.subtasks[k]).id
                        == self.subtasks[k].id);
            }
        }
    }

    /// Inserting a well-formed task keeps the tree well-formed.
    pub proof fn lemma_add_preserves_wf(self, st: TaskView)
        requires
            self.wf(),
            st.wf(),
        ensures
            self.spec_add(st).wf(),
    {
        if self.holds(st.id) {
            self.lemma_replace_preserves_wf(st);
        } else {
            let t1 = self.spec_add(st);
            assert(!self.has_child(st.id));
            assert(forall|k: int| 0 <= k < self.subtasks.len() ==> t1.subtasks[k] == #[trigger] self.subtasks[k]);
            assert(t1.subtasks[self.subtasks.len() as int] == st);
        }
    }

    /// Deleting an id keeps the tree well-formed.
    pub proof fn lemma_delete_preserves_wf(self, id: u32)
        requires
            self.wf(),
        ensures
            self.spec_delete(id).wf(),
        decreases self,
    {
        let t1 = self.spec_delete(id);
        if self.has_child(id) {
            lemma_first_with_id_spec(self.subtasks, id);
            let j = first_with_id(self.subtasks, id);
            assert(forall|k: int|
                0 <= k < j ==> #[trigger] t1.subtasks[k] == self.subtasks[k]);
            assert(forall|k: int|
                j <= k < t1.subtasks.len() ==> #[trigger] t1.subtasks[k] == self.subtasks[k
                    + 1]);
        } else {
            let j = first_holding(self.subtasks, id);
            if 0 <= j < self.subtasks.len() {
                self.subtasks[j].lemma_delete_preserves_wf(id);
                self.subtasks[j].lemma_delete_shape(id);
                assert(forall|k: int|
                    0 <= k < t1.subtasks.len() ==> (#[trigger] t1.subtasks[k]).id
                        == self.subtasks[k].id);
            }
        }
    }

    /// Deleting never changes this node's own scalar fields.
    pub proof fn lemma_delete_shape(self, id: u32)
        ensures
            self.spec_delete(id).id == self.id,
            self.spec_delete(id).status == self.status,
            self.spec_delete(id).importance == self.importance,
            self.spec_delete(id).urgency == self.urgency,
            self.spec_delete(id).desc == self.desc,
        decreases self,
    {
    }
}

/// A bulk insert of well-formed tasks keeps the tree well-formed.
pub proof fn lemma_add_all_preserves_wf(t: TaskView, s: Seq<TaskView>)
    requires
        t.wf(),
        forall|i: int| 0 <= i < s.len() ==> (#[trigger] s[i]).wf(),
    ensures
        spec_add_all(t, s).wf(),
    decreases s.len(),
{
    if s.len() > 0 {
        t.lemma_add_preserves_wf(s[0]);
        assert(forall|i: int|
            0 <= i < s.len() - 1 ==> #[trigger] s.drop_first()[i] == s[i + 1]);
        lemma_add_all_preserves_wf(t.spec_add(s[0]), s.drop_first());
    }
}

} // verus!

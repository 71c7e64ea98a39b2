//! The decomposition tree and its breadth-first builder.
//!
//! The tree is an arena of nodes keyed by minted ids (`node_0`, `node_1`,
//! ...); children are id lists, leaves are nodes without children.  The
//! builder holds the queue of one breadth-first level; the chat edge asks
//! the model to decompose every queued query and hands the parsed answers
//! back to [`TreeBuilder::apply_level`], which runs the serial
//! post-join section: mint ids, add nodes, link parents, and enqueue the
//! next level within the depth and leaf caps.

use vstd::prelude::*;
use vstd::math::min;

use crate::config::DecompositionConfig;
use crate::text::{chars_to_string, decimal_chars, decimal_spec, str_eq, str_to_chars};
use crate::types::{SubQuery, SubQueryView};

verus! {

/// Mathematical value of a [`SearchDimension`].
#[verifier::ext_equal]
pub enum SearchDimensionView {
    Core,
    Why,
    How,
    Case,
    Note,
    Unknown(Seq<char>),
}

/// The five facets a sub-question can be labelled with, and a catch-all
/// for anything else the model answers.
#[derive(Debug)]
pub enum SearchDimension {
    Core,
    Why,
    How,
    Case,
    Note,
    Unknown(String),
}

impl View for SearchDimension {
    type V = SearchDimensionView;

    open spec fn view(&self) -> SearchDimensionView {
        match self {
            SearchDimension::Core => SearchDimensionView::Core,
            SearchDimension::Why => SearchDimensionView::Why,
            SearchDimension::How => SearchDimensionView::How,
            SearchDimension::Case => SearchDimensionView::Case,
            SearchDimension::Note => SearchDimensionView::Note,
            SearchDimension::Unknown(s) => SearchDimensionView::Unknown(s@),
        }
    }
}

impl Clone for SearchDimension {
    fn clone(&self) -> (r: Self)
        ensures
            r@ == self@,
    {
        match self {
            SearchDimension::Core => SearchDimension::Core,
            SearchDimension::Why => SearchDimension::Why,
            SearchDimension::How => SearchDimension::How,
            SearchDimension::Case => SearchDimension::Case,
            SearchDimension::Note => SearchDimension::Note,
            SearchDimension::Unknown(s) => SearchDimension::Unknown(s.clone()),
        }
    }
}

/// Which facet a label names; anything but the five known names maps to
/// `Unknown` with the label kept.
pub open spec fn dimension_spec(s: Seq<char>) -> SearchDimensionView {
    if s == "core"@ {
        SearchDimensionView::Core
    } else if s == "why"@ {
        SearchDimensionView::Why
    } else if s == "how"@ {
        SearchDimensionView::How
    } else if s == "case"@ {
        SearchDimensionView::Case
    } else if s == "note"@ {
        SearchDimensionView::Note
    } else {
        SearchDimensionView::Unknown(s)
    }
}

/// The label of a facet.
pub open spec fn dimension_name(d: SearchDimensionView) -> Seq<char> {
    match d {
        SearchDimensionView::Core => "core"@,
        SearchDimensionView::Why => "why"@,
        SearchDimensionView::How => "how"@,
        SearchDimensionView::Case => "case"@,
        SearchDimensionView::Note => "note"@,
        SearchDimensionView::Unknown(s) => s,
    }
}

impl SearchDimension {
    /// Read a facet label.
    pub fn from_str(s: &str) -> (r: Self)
        ensures
            r@ == dimension_spec(s@),
    {
        if str_eq(s, "core") {
            SearchDimension::Core
        } else if str_eq(s, "why") {
            SearchDimension::Why
        } else if str_eq(s, "how") {
            SearchDimension::How
        } else if str_eq(s, "case") {
            SearchDimension::Case
        } else if str_eq(s, "note") {
            SearchDimension::Note
        } else {
            let v = str_to_chars(s);
            SearchDimension::Unknown(chars_to_string(&v))
        }
    }

    /// The facet's label.
    pub fn as_str(&self) -> (r: &str)
        ensures
            r@ == dimension_name(self@),
    {
        match self {
            SearchDimension::Core => "core",
            SearchDimension::Why => "why",
            SearchDimension::How => "how",
            SearchDimension::Case => "case",
            SearchDimension::Note => "note",
            SearchDimension::Unknown(s) => s.as_str(),
        }
    }
}

/// Mathematical value of a [`TreeNode`].
#[verifier::ext_equal]
pub struct TreeNodeView {
    pub id: Seq<char>,
    pub dimension: SearchDimensionView,
    pub query: Seq<char>,
    pub children: Seq<Seq<char>>,
}

impl TreeNodeView {
    /// A node is a leaf when it has no children.
    pub open spec fn is_leaf(self) -> bool {
        self.children.len() == 0
    }
}

/// One node of the decomposition tree.
#[derive(Debug)]
pub struct TreeNode {
    pub id: String,
    pub dimension: SearchDimension,
    pub query: String,
    pub children: Vec<String>,
}

impl View for TreeNode {
    type V = TreeNodeView;

    open spec fn view(&self) -> TreeNodeView {
        TreeNodeView {
            id: self.id@,
            dimension: self.dimension@,
            query: self.query@,
            children: self.children@.map_values(|c: String| c@),
        }
    }
}

impl Clone for TreeNode {
    fn clone(&self) -> (r: Self)
        ensures
            r@ == self@,
    {
        let children = self.children.clone();
        proof {
            assert(children@ =~= self.children@);
        }
        let r = TreeNode {
            id: self.id.clone(),
            dimension: self.dimension.clone(),
            query: self.query.clone(),
            children,
        };
        proof {
            assert(r@ =~= self@);
        }
        r
    }
}

/// The node views of a tree, in insertion order.
pub open spec fn node_views(nodes: Seq<TreeNode>) -> Seq<TreeNodeView> {
    nodes.map_values(|n: TreeNode| n@)
}

/// Number of leaves among the nodes.
pub open spec fn leaf_count_spec(nodes: Seq<TreeNodeView>) -> int
    decreases nodes.len(),
{
    if nodes.len() == 0 {
        0
    } else {
        leaf_count_spec(nodes.drop_last()) + (if nodes.last().is_leaf() {
            1int
        } else {
            0int
        })
    }
}

/// The leaves among the nodes, in insertion order.
pub open spec fn leaves_spec(nodes: Seq<TreeNodeView>) -> Seq<TreeNodeView>
    decreases nodes.len(),
{
    if nodes.len() == 0 {
        Seq::empty()
    } else {
        leaves_spec(nodes.drop_last()) + (if nodes.last().is_leaf() {
            seq![nodes.last()]
        } else {
            Seq::<TreeNodeView>::empty()
        })
    }
}

/// The leaf count is the length of the leaf list.
pub proof fn lemma_leaf_count_is_leaves_len(nodes: Seq<TreeNodeView>)
    ensures
        leaf_count_spec(nodes) == leaves_spec(nodes).len(),
    decreases nodes.len(),
{
    if nodes.len() > 0 {
        lemma_leaf_count_is_leaves_len(nodes.drop_last());
    }
}

/// The decomposition tree: an id-keyed arena of nodes and the counter the
/// ids are minted from.
#[derive(Debug)]
pub struct DecompositionTree {
    pub nodes: Vec<TreeNode>,
    pub id_counter: u64,
}

/// The prefix of every minted node id.
pub open spec fn node_id_prefix() -> Seq<char> {
    seq!['n', 'o', 'd', 'e', '_']
}

/// The id minted for counter value `k`.
pub open spec fn minted_id(k: int) -> Seq<char> {
    node_id_prefix() + decimal_spec(k)
}

/// Minted ids are distinct for distinct counters.
pub proof fn lemma_minted_ids_distinct(a: int, b: int)
    requires
        0 <= a,
        0 <= b,
        a != b,
    ensures
        minted_id(a) != minted_id(b),
{
    crate::text::lemma_decimal_chars_injective(a, b);
    if minted_id(a) == minted_id(b) {
        assert(decimal_spec(a) =~= minted_id(a).skip(5)) by {
            assert(decimal_spec(a).len() >= 0);
        }
        assert(decimal_spec(b) =~= minted_id(b).skip(5));
    }
}

impl DecompositionTree {
    /// All node ids were minted below the counter, one node per counter
    /// value at most.
    pub open spec fn wf(self) -> bool {
        &&& forall|i: int|
            0 <= i < self.nodes@.len() ==> exists|k: int|
                0 <= k < self.id_counter && (#[trigger] self.nodes@[i])@.id == minted_id(k)
        &&& forall|i: int, j: int|
            0 <= i < j < self.nodes@.len() ==> (#[trigger] self.nodes@[i])@.id != (
            #[trigger] self.nodes@[j])@.id
    }

    /// An empty tree.
    pub fn new() -> (r: Self)
        ensures
            r.wf(),
            r.nodes@.len() == 0,
            r.id_counter == 0,
    {
        DecompositionTree { nodes: Vec::new(), id_counter: 0 }
    }

    /// Mint a fresh node id.
    pub fn alloc_id(&mut self) -> (r: String)
        requires
            old(self).id_counter < 0xffff_ffff_ffff_ffff,
        ensures
            r@ == minted_id(old(self).id_counter as int),
            final(self).id_counter == old(self).id_counter + 1,
            final(self).nodes@ == old(self).nodes@,
            old(self).wf() ==> final(self).wf(),
    {
        let digits = decimal_chars(self.id_counter);
        let mut id_chars = str_to_chars("node_");
        let mut i: usize = 0;
        let n = digits.len();
        proof {
            reveal_strlit("node_");
            assert(id_chars@ =~= node_id_prefix());
        }
        while i < n
            invariant
                n == digits@.len(),
                i <= n,
                id_chars@ == node_id_prefix() + digits@.subrange(0, i as int),
            decreases n - i,
        {
            id_chars.push(digits[i]);
            proof {
                assert(id_chars@ =~= node_id_prefix() + digits@.subrange(0, i + 1));
            }
            i = i + 1;
        }
        proof {
            assert(digits@.subrange(0, n as int) =~= digits@);
        }
        self.id_counter = self.id_counter + 1;
        proof {
            if old(self).wf() {
                assert forall|ii: int| 0 <= ii < self.nodes@.len() implies exists|k: int|
                    0 <= k < self.id_counter && (#[trigger] self.nodes@[ii])@.id == minted_id(
                        k,
                    ) by {
                    let k = choose|k: int|
                        0 <= k < old(self).id_counter && (old(self).nodes@[ii])@.id == minted_id(k);
                    assert(0 <= k < self.id_counter && self.nodes@[ii]@.id == minted_id(k));
                }
            }
        }
        chars_to_string(&id_chars)
    }

    /// Append a node to the arena.
    pub fn add_node(&mut self, node: TreeNode)
        ensures
            final(self).nodes@ == old(self).nodes@.push(node),
            final(self).id_counter == old(self).id_counter,
    {
        self.nodes.push(node);
    }

    /// The leaves of the tree, in insertion order.
    pub fn get_leaves(&self) -> (r: Vec<TreeNode>)
        ensures
            node_views(r@) == leaves_spec(node_views(self.nodes@)),
    {
        let ghost all = node_views(self.nodes@);
        let n = self.nodes.len();
        let mut r: Vec<TreeNode> = Vec::new();
        let mut i: usize = 0;
        proof {
            assert(all.take(0) =~= Seq::<TreeNodeView>::empty());
            assert(node_views(r@) =~= leaves_spec(all.take(0)));
        }
        while i < n
            invariant
                n == self.nodes@.len(),
                all == node_views(self.nodes@),
                all.len() == n,
                i <= n,
                node_views(r@) == leaves_spec(all.take(i as int)),
            decreases n - i,
        {
            let ghost pre = all.take(i as int);
            let ghost pre1 = all.take(i + 1);
            proof {
                assert(pre1.drop_last() =~= pre);
                assert(pre1.last() == all[i as int]);
                assert(all[i as int] == self.nodes@[i as int]@);
            }
            let ghost r0 = node_views(r@);
            if self.nodes[i].children.len() == 0 {
                r.push(self.nodes[i].clone());
                proof {
                    assert(node_views(r@) =~= r0.push(self.nodes@[i as int]@));
                    assert(node_views(r@) =~= leaves_spec(pre1));
                }
            } else {
                proof {
                    assert(!all[i as int].is_leaf());
                    assert(node_views(r@) =~= leaves_spec(pre1));
                }
            }
            i = i + 1;
        }
        proof {
            assert(all.take(n as int) =~= all);
        }
        r
    }

    /// Number of nodes in the tree.
    pub fn node_count(&self) -> (r: usize)
        ensures
            r == self.nodes@.len(),
    {
        self.nodes.len()
    }

    /// Number of leaves in the tree.
    pub fn leaf_count(&self) -> (r: usize)
        ensures
            r as int == leaf_count_spec(node_views(self.nodes@)),
    {
        let ghost all = node_views(self.nodes@);
        let n = self.nodes.len();
        let mut count: usize = 0;
        let mut i: usize = 0;
        proof {
            assert(all.take(0) =~= Seq::<TreeNodeView>::empty());
        }
        while i < n
            invariant
                n == self.nodes@.len(),
                all == node_views(self.nodes@),
                all.len() == n,
                i <= n,
                count <= i,
                count as int == leaf_count_spec(all.take(i as int)),
            decreases n - i,
        {
            let ghost pre = all.take(i as int);
            let ghost pre1 = all.take(i + 1);
            proof {
                assert(pre1.drop_last() =~= pre);
                assert(pre1.last() == all[i as int]);
                assert(all[i as int] == self.nodes@[i as int]@);
            }
            if self.nodes[i].children.len() == 0 {
                count = count + 1;
            }
            i = i + 1;
        }
        proof {
            assert(all.take(n as int) =~= all);
        }
        count
    }

    /// Find a node's position by id.
    fn find_node(&self, id: &str) -> (r: Option<usize>)
        ensures
            match r {
                Some(i) => {
                    &&& i < self.nodes@.len()
                    &&& self.nodes@[i as int]@.id == id@
                    &&& find_index(node_views(self.nodes@), id@, 0) == Some(i as int)
                },
                None => {
                    &&& forall|i: int|
                        0 <= i < self.nodes@.len() ==> (#[trigger] self.nodes@[i])@.id != id@
                    &&& find_index(node_views(self.nodes@), id@, 0) is None
                },
            },
    {
        let ghost nv = node_views(self.nodes@);
        let n = self.nodes.len();
        let mut i: usize = 0;
        while i < n
            invariant
                n == self.nodes@.len(),
                nv == node_views(self.nodes@),
                nv.len() == n,
                i <= n,
                forall|j: int| 0 <= j < i ==> (#[trigger] self.nodes@[j])@.id != id@,
                find_index(nv, id@, 0) == find_index(nv, id@, i as int),
            decreases n - i,
        {
            proof {
                assert(nv[i as int] == self.nodes@[i as int]@);
            }
            if str_eq(self.nodes[i].id.as_str(), id) {
                proof {
                    assert(find_index(nv, id@, i as int) == Some(i as int));
                }
                return Some(i);
            }
            proof {
                assert(find_index(nv, id@, i as int) == find_index(nv, id@, i + 1));
            }
            i = i + 1;
        }
        proof {
            assert(find_index(nv, id@, i as int) is None);
        }
        None
    }
}

/// Truncate one decomposition's sub-questions to the branching cap.
pub fn limit_children(subqueries: Vec<SubQuery>, max_children: usize) -> (r: Vec<SubQuery>)
    ensures
        r@ == subqueries@.take(min(max_children as int, subqueries@.len() as int)),
{
    let ghost orig = subqueries@;
    let mut r = subqueries;
    r.truncate(max_children);
    proof {
        if max_children as int <= orig.len() {
            assert(r@ =~= orig.take(min(max_children as int, orig.len() as int)));
        } else {
            assert(r@ =~= orig.take(min(max_children as int, orig.len() as int)));
        }
    }
    r
}

/// Updating one node and pushing another moves the leaf count by the
/// leafness lost and gained.
proof fn lemma_leaf_count_update(nodes: Seq<TreeNodeView>, p: int, x: TreeNodeView)
    requires
        0 <= p < nodes.len(),
    ensures
        leaf_count_spec(nodes.update(p, x)) == leaf_count_spec(nodes) - (if nodes[p].is_leaf() {
            1int
        } else {
            0int
        }) + (if x.is_leaf() {
            1int
        } else {
            0int
        }),
    decreases nodes.len(),
{
    if nodes.len() > 0 {
        if p == nodes.len() - 1 {
            assert(nodes.update(p, x).drop_last() =~= nodes.drop_last());
            assert(nodes.update(p, x).last() == x);
        } else {
            assert(nodes.update(p, x).drop_last() =~= nodes.drop_last().update(p, x));
            assert(nodes.update(p, x).last() == nodes.last());
            lemma_leaf_count_update(nodes.drop_last(), p, x);
        }
    }
}

/// Copy an optional node id.
fn clone_opt_id(o: &Option<String>) -> (r: Option<String>)
    ensures
        match r {
            Some(s) => o matches Some(t) && s@ == t@,
            None => o is None,
        },
{
    match o {
        Some(s) => Some(s.clone()),
        None => None,
    }
}

/// Position of the first node with this id at or after `k`.
pub open spec fn find_index(nodes: Seq<TreeNodeView>, id: Seq<char>, k: int) -> Option<int>
    decreases nodes.len() - k + 1,
{
    if k < 0 || k >= nodes.len() {
        None
    } else if nodes[k].id == id {
        Some(k)
    } else {
        find_index(nodes, id, k + 1)
    }
}

/// The view of an optional node id.
pub open spec fn opt_id_view(o: Option<String>) -> Option<Seq<char>> {
    match o {
        Some(s) => Some(s@),
        None => None,
    }
}

/// The views of a sub-question list.
pub open spec fn sub_views(s: Seq<SubQuery>) -> Seq<SubQueryView> {
    s.map_values(|q: SubQuery| q@)
}

/// A level whose every decomposition call failed changes nothing: no
/// node is added and nothing is queued, so each queued node stays a
/// leaf, and a failed root decomposition leaves the tree empty.
pub proof fn lemma_failed_level_changes_nothing(
    nodes: Seq<TreeNodeView>,
    counter: int,
    cap: int,
    max_children: int,
    max_level: int,
    level: int,
    queue: Seq<QueueEntryView>,
    responses: Seq<Option<Seq<SubQueryView>>>,
    i: int,
)
    requires
        forall|k: int| 0 <= k < responses.len() ==> (#[trigger] responses[k]) is None,
    ensures
        level_applied(nodes, counter, cap, max_children, max_level, level, queue, responses, i)
            == (LevelOutcome { nodes, counter, enqueued: Seq::empty() }),
    decreases queue.len() - i,
{
    if 0 <= i < queue.len() && queue.len() == responses.len() {
        lemma_failed_level_changes_nothing(
            nodes,
            counter,
            cap,
            max_children,
            max_level,
            level,
            queue,
            responses,
            i + 1,
        );
        assert(Seq::<QueueEntryView>::empty() + Seq::<QueueEntryView>::empty()
            =~= Seq::<QueueEntryView>::empty());
    }
}

/// One entry of the breadth-first queue: the query to decompose and the
/// node it came from (none for the original query).
#[derive(Debug)]
pub struct PendingQuery {
    pub parent_id: Option<String>,
    pub query: String,
}

/// Mathematical value of a [`PendingQuery`].
#[verifier::ext_equal]
pub struct QueueEntryView {
    pub parent_id: Option<Seq<char>>,
    pub query: Seq<char>,
}

impl View for PendingQuery {
    type V = QueueEntryView;

    open spec fn view(&self) -> QueueEntryView {
        QueueEntryView { parent_id: opt_id_view(self.parent_id), query: self.query@ }
    }
}

/// The views of a queue.
pub open spec fn queue_views(q: Seq<PendingQuery>) -> Seq<QueueEntryView> {
    q.map_values(|p: PendingQuery| p@)
}

/// The views of a level's decomposition answers.
pub open spec fn response_views(rs: Seq<Option<Vec<SubQuery>>>) -> Seq<Option<Seq<SubQueryView>>> {
    rs.map_values(
        |r: Option<Vec<SubQuery>>|
            match r {
                Some(v) => Some(sub_views(v@)),
                None => None,
            },
    )
}

/// What adding one sub-question leaves behind.
#[verifier::ext_equal]
pub struct ChildOutcome {
    pub nodes: Seq<TreeNodeView>,
    pub counter: int,
    pub added: Option<Seq<char>>,
}

/// One sub-question added under `parent_id`, within the leaf cap: the
/// child takes the next minted id and hangs off its parent; an addition
/// that would push the leaf count past `cap` is dropped, while the first
/// child of an existing leaf (which keeps the count) always goes in.
pub open spec fn child_added(
    nodes: Seq<TreeNodeView>,
    counter: int,
    cap: int,
    parent_id: Option<Seq<char>>,
    sq: SubQueryView,
) -> ChildOutcome {
    let parent_idx = match parent_id {
        Some(pid) => find_index(nodes, pid, 0),
        None => None,
    };
    let increases = match parent_idx {
        Some(p) => nodes[p].children.len() > 0,
        None => true,
    };
    if increases && leaf_count_spec(nodes) >= cap {
        ChildOutcome { nodes, counter, added: None }
    } else {
        let id = minted_id(counter);
        let child = TreeNodeView {
            id,
            dimension: dimension_spec(sq.dimension),
            query: sq.query,
            children: Seq::empty(),
        };
        let pushed = nodes.push(child);
        let linked = match parent_idx {
            Some(p) => pushed.update(
                p,
                TreeNodeView { children: pushed[p].children.push(id), ..pushed[p] },
            ),
            None => pushed,
        };
        ChildOutcome { nodes: linked, counter: counter + 1, added: Some(id) }
    }
}

/// What one breadth-first level leaves behind.
#[verifier::ext_equal]
pub struct LevelOutcome {
    pub nodes: Seq<TreeNodeView>,
    pub counter: int,
    pub enqueued: Seq<QueueEntryView>,
}

/// One queue entry's sub-questions applied from position `j` on: each is
/// added under the entry's parent, and an added sub-question flagged for
/// expansion is queued for the next level while depth and leaf capacity
/// remain.
pub open spec fn entry_applied(
    nodes: Seq<TreeNodeView>,
    counter: int,
    cap: int,
    max_level: int,
    level: int,
    parent_id: Option<Seq<char>>,
    subs: Seq<SubQueryView>,
    j: int,
) -> LevelOutcome
    decreases subs.len() - j,
{
    if j < 0 || j >= subs.len() {
        LevelOutcome { nodes, counter, enqueued: Seq::empty() }
    } else {
        let c = child_added(nodes, counter, cap, parent_id, subs[j]);
        let enq: Seq<QueueEntryView> = match c.added {
            Some(id) => if subs[j].need_expand && level + 1 < max_level && leaf_count_spec(c.nodes)
                < cap {
                seq![QueueEntryView { parent_id: Some(id), query: subs[j].query }]
            } else {
                Seq::empty()
            },
            None => Seq::empty(),
        };
        let rest = entry_applied(c.nodes, c.counter, cap, max_level, level, parent_id, subs, j + 1);
        LevelOutcome { nodes: rest.nodes, counter: rest.counter, enqueued: enq + rest.enqueued }
    }
}

/// A whole level applied from entry `i` on: each queued query's answer,
/// truncated to `max_children` sub-questions, is folded into the tree in
/// entry order; a failed answer (`None`) changes nothing for its entry.
pub open spec fn level_applied(
    nodes: Seq<TreeNodeView>,
    counter: int,
    cap: int,
    max_children: int,
    max_level: int,
    level: int,
    queue: Seq<QueueEntryView>,
    responses: Seq<Option<Seq<SubQueryView>>>,
    i: int,
) -> LevelOutcome
    decreases queue.len() - i,
{
    if i < 0 || i >= queue.len() || queue.len() != responses.len() {
        LevelOutcome { nodes, counter, enqueued: Seq::empty() }
    } else {
        let step = match responses[i] {
            None => LevelOutcome { nodes, counter, enqueued: Seq::empty() },
            Some(subs) => entry_applied(
                nodes,
                counter,
                cap,
                max_level,
                level,
                queue[i].parent_id,
                subs.take(min(max_children, subs.len() as int)),
                0,
            ),
        };
        let rest = level_applied(
            step.nodes,
            step.counter,
            cap,
            max_children,
            max_level,
            level,
            queue,
            responses,
            i + 1,
        );
        LevelOutcome {
            nodes: rest.nodes,
            counter: rest.counter,
            enqueued: step.enqueued + rest.enqueued,
        }
    }
}

/// The breadth-first decomposition in flight.  The chat edge asks the
/// model to decompose every query of [`TreeBuilder::pending_queries`]
/// and hands the parsed answers (or `None` for a failed call) back to
/// [`TreeBuilder::apply_level`].
pub struct TreeBuilder {
    pub tree: DecompositionTree,
    pub queue: Vec<PendingQuery>,
    pub level: usize,
    pub config: DecompositionConfig,
}

impl TreeBuilder {
    /// The builder's invariant: the tree is well formed, ids mirror the
    /// node count, and the leaf cap holds.
    pub open spec fn wf(self) -> bool {
        &&& self.tree.wf()
        &&& self.tree.id_counter as int == self.tree.nodes@.len()
        &&& leaf_count_spec(node_views(self.tree.nodes@)) <= self.config.max_total_leaves as int
    }

    /// Begin a decomposition of one user query.
    pub fn start(original_query: String, config: DecompositionConfig) -> (r: TreeBuilder)
        ensures
            r.wf(),
            r.tree.nodes@.len() == 0,
            r.level == 0,
            r.config == config,
            r.queue@.len() == 1,
            r.queue@[0].parent_id is None,
            r.queue@[0].query@ == original_query@,
    {
        let mut queue: Vec<PendingQuery> = Vec::new();
        queue.push(PendingQuery { parent_id: None, query: original_query });
        TreeBuilder { tree: DecompositionTree::new(), queue, level: 0, config }
    }

    /// Whether another breadth-first level should run: queries queued,
    /// depth left, and the leaf cap not yet reached.
    pub fn active(&self) -> (r: bool)
        ensures
            r == (self.queue@.len() > 0 && self.level < self.config.max_level && leaf_count_spec(
                node_views(self.tree.nodes@),
            ) < self.config.max_total_leaves as int),
    {
        self.queue.len() > 0 && self.level < self.config.max_level && self.tree.leaf_count()
            < self.config.max_total_leaves
    }

    /// The queries of the current level, one chat call each.
    pub fn pending_queries(&self) -> (r: Vec<String>)
        ensures
            r@.map_values(|q: String| q@) == self.queue@.map_values(
                |p: PendingQuery| p.query@,
            ),
    {
        let n = self.queue.len();
        let mut r: Vec<String> = Vec::new();
        let mut i: usize = 0;
        while i < n
            invariant
                n == self.queue@.len(),
                i <= n,
                r@.len() == i,
                forall|j: int| 0 <= j < i ==> (#[trigger] r@[j])@ == self.queue@[j].query@,
            decreases n - i,
        {
            r.push(self.queue[i].query.clone());
            i = i + 1;
        }
        proof {
            assert(r@.map_values(|q: String| q@) =~= self.queue@.map_values(
                |p: PendingQuery| p.query@,
            ));
        }
        r
    }

    /// Add one accepted sub-question under `parent_id`, within the leaf
    /// cap: an addition that would push the leaf count past the cap is
    /// dropped, while the first child of an existing leaf (which keeps
    /// the count) is always allowed.  The answer is the minted node id
    /// when the node was added.
    fn add_child(&mut self, parent_id: &Option<String>, sq: &SubQuery) -> (r: Option<String>)
        requires
            old(self).wf(),
            old(self).tree.id_counter < 0xffff_ffff_ffff_fffe,
        ensures
            final(self).wf(),
            final(self).config == old(self).config,
            final(self).level == old(self).level,
            final(self).queue@ == old(self).queue@,
            final(self).tree.nodes@.len() <= old(self).tree.nodes@.len() + 1,
            r is Some ==> final(self).tree.nodes@.len() == old(self).tree.nodes@.len() + 1,
            r is None ==> *final(self) == *old(self),
            ({
                let o = child_added(
                    node_views(old(self).tree.nodes@),
                    old(self).tree.id_counter as int,
                    old(self).config.max_total_leaves as int,
                    opt_id_view(*parent_id),
                    sq@,
                );
                &&& node_views(final(self).tree.nodes@) == o.nodes
                &&& final(self).tree.id_counter as int == o.counter
                &&& (match r {
                    Some(s) => o.added == Some(s@),
                    None => o.added is None,
                })
            }),
    {
        let ghost o = child_added(
            node_views(old(self).tree.nodes@),
            old(self).tree.id_counter as int,
            old(self).config.max_total_leaves as int,
            opt_id_view(*parent_id),
            sq@,
        );
        let parent_idx = match parent_id {
            Some(pid) => self.tree.find_node(pid.as_str()),
            None => None,
        };
        proof {
            assert(match parent_idx {
                Some(p) => find_index(
                    node_views(old(self).tree.nodes@),
                    opt_id_view(*parent_id).unwrap(),
                    0,
                ) == Some(p as int),
                None => (match opt_id_view(*parent_id) {
                    Some(pid) => find_index(node_views(old(self).tree.nodes@), pid, 0) is None,
                    None => true,
                }),
            });
        }
        let increases = match parent_idx {
            Some(p) => self.tree.nodes[p].children.len() > 0,
            None => true,
        };
        proof {
            if let Some(p) = parent_idx {
                assert(node_views(self.tree.nodes@)[p as int] == self.tree.nodes@[p as int]@);
            }
        }
        let cur_leaves = self.tree.leaf_count();
        if increases && cur_leaves >= self.config.max_total_leaves {
            proof {
                assert(o.added is None);
                assert(o.nodes == node_views(self.tree.nodes@));
                assert(o.counter == self.tree.id_counter as int);
            }
            return None;
        }
        let ghost nodes0 = node_views(self.tree.nodes@);
        let id = self.tree.alloc_id();
        let node = TreeNode {
            id: chars_to_string(&str_to_chars(id.as_str())),
            dimension: SearchDimension::from_str(sq.dimension.as_str()),
            query: chars_to_string(&str_to_chars(sq.query.as_str())),
            children: Vec::new(),
        };
        proof {
            assert(node@.id == minted_id(old(self).tree.id_counter as int));
            assert(node@.is_leaf());
            assert(node@ =~= (TreeNodeView {
                id: minted_id(old(self).tree.id_counter as int),
                dimension: dimension_spec(sq@.dimension),
                query: sq@.query,
                children: Seq::empty(),
            }));
        }
        self.tree.add_node(node);
        let ghost nodes1 = node_views(self.tree.nodes@);
        proof {
            assert(nodes1 =~= nodes0.push(self.tree.nodes@.last()@));
            assert(nodes1.drop_last() =~= nodes0);
            assert(leaf_count_spec(nodes1) == leaf_count_spec(nodes0) + 1);
            assert(self.tree.wf()) by {
                let c = old(self).tree.id_counter as int;
                assert forall|i: int, j: int|
                    0 <= i < j < self.tree.nodes@.len() implies (
                #[trigger] self.tree.nodes@[i])@.id != (#[trigger] self.tree.nodes@[j])@.id by {
                    if j == self.tree.nodes@.len() - 1 {
                        let k = choose|k: int|
                            0 <= k < c && (old(self).tree.nodes@[i])@.id == minted_id(k);
                        lemma_minted_ids_distinct(k, c);
                    }
                }
                assert forall|i: int| 0 <= i < self.tree.nodes@.len() implies exists|k: int|
                    0 <= k < self.tree.id_counter && (#[trigger] self.tree.nodes@[i])@.id
                        == minted_id(k) by {
                    if i < self.tree.nodes@.len() - 1 {
                        let k = choose|k: int|
                            0 <= k < c && (old(self).tree.nodes@[i])@.id == minted_id(k);
                        assert(0 <= k < self.tree.id_counter && self.tree.nodes@[i]@.id
                            == minted_id(k));
                    } else {
                        assert(self.tree.nodes@[i]@.id == minted_id(c));
                    }
                }
            }
        }
        if let Some(p) = parent_idx {
            let ghost before = node_views(self.tree.nodes@);
            let mut parent = self.tree.nodes[p].clone();
            let ghost was_leaf = parent@.is_leaf();
            parent.children.push(chars_to_string(&str_to_chars(id.as_str())));
            proof {
                assert(parent@.children =~= before[p as int].children.push(id@));
                assert(!parent@.is_leaf());
                assert(parent@.id == before[p as int].id);
            }
            self.tree.nodes.set(p, parent);
            proof {
                let after = node_views(self.tree.nodes@);
                assert(after =~= before.update(p as int, self.tree.nodes@[p as int]@));
                assert(self.tree.nodes@[p as int]@ =~= (TreeNodeView {
                    children: before[p as int].children.push(id@),
                    ..before[p as int]
                }));
                lemma_leaf_count_update(before, p as int, self.tree.nodes@[p as int]@);
                assert(leaf_count_spec(after) == leaf_count_spec(before) - (if was_leaf {
                    1int
                } else {
                    0int
                }));
                assert(self.tree.wf()) by {
                    assert forall|i: int, j: int|
                        0 <= i < j < self.tree.nodes@.len() implies (
                    #[trigger] self.tree.nodes@[i])@.id != (#[trigger] self.tree.nodes@[j])@.id by {
                        assert(self.tree.nodes@[i]@.id == before[i].id);
                        assert(self.tree.nodes@[j]@.id == before[j].id);
                    }
                    assert forall|i: int| 0 <= i < self.tree.nodes@.len() implies exists|k: int|
                        0 <= k < self.tree.id_counter && (#[trigger] self.tree.nodes@[i])@.id
                            == minted_id(k) by {
                        assert(self.tree.nodes@[i]@.id == before[i].id);
                        let k = choose|k: int|
                            0 <= k < self.tree.id_counter && before[i].id == minted_id(k);
                        assert(self.tree.nodes@[i]@.id == minted_id(k));
                    }
                }
            }
        }
        proof {
            assert(node_views(self.tree.nodes@) =~= o.nodes);
            assert(self.tree.id_counter as int == o.counter);
            assert(o.added == Some(id@));
        }
        Some(id)
    }

    /// Fold one queued query's accepted sub-questions into the tree and
    /// answer the queue entries it contributes to the next level; the
    /// whole effect is [`entry_applied`] of the old state.
    fn apply_entry(&mut self, parent_id: &Option<String>, limited: Vec<SubQuery>) -> (nq: Vec<
        PendingQuery,
    >)
        requires
            old(self).wf(),
            old(self).level < usize::MAX,
            old(self).tree.id_counter + limited@.len() < 0xffff_ffff_ffff_fffe,
        ensures
            final(self).wf(),
            final(self).config == old(self).config,
            final(self).level == old(self).level,
            final(self).queue@ == old(self).queue@,
            final(self).tree.nodes@.len() <= old(self).tree.nodes@.len() + limited@.len(),
            old(self).level as int + 1 >= old(self).config.max_level as int ==> nq@.len() == 0,
            ({
                let o = entry_applied(
                    node_views(old(self).tree.nodes@),
                    old(self).tree.id_counter as int,
                    old(self).config.max_total_leaves as int,
                    old(self).config.max_level as int,
                    old(self).level as int,
                    opt_id_view(*parent_id),
                    sub_views(limited@),
                    0,
                );
                &&& node_views(final(self).tree.nodes@) == o.nodes
                &&& final(self).tree.id_counter as int == o.counter
                &&& queue_views(nq@) == o.enqueued
            }),
    {
        let ghost base_nodes = node_views(self.tree.nodes@);
        let ghost base_counter = self.tree.id_counter as int;
        let ghost cap = self.config.max_total_leaves as int;
        let ghost ml = self.config.max_level as int;
        let ghost lvl = self.level as int;
        let ghost pv = opt_id_view(*parent_id);
        let ghost subs0 = limited@;
        let ghost subs_v = sub_views(subs0);
        let m = limited.len();
        let mut pending_subs = limited;
        let mut nq: Vec<PendingQuery> = Vec::new();
        let mut j: usize = 0;
        proof {
            assert(queue_views(nq@) =~= Seq::<QueueEntryView>::empty());
        }
        while j < m
            invariant
                m == subs0.len(),
                subs_v == sub_views(subs0),
                subs_v.len() == m,
                j <= m,
                pending_subs@ == subs0.skip(j as int),
                self.wf(),
                self.config == old(self).config,
                self.level == old(self).level,
                self.queue@ == old(self).queue@,
                cap == self.config.max_total_leaves as int,
                ml == self.config.max_level as int,
                lvl == self.level as int,
                lvl < usize::MAX,
                pv == opt_id_view(*parent_id),
                base_counter + m < 0xffff_ffff_ffff_fffe,
                self.tree.nodes@.len() <= old(self).tree.nodes@.len() + j,
                base_counter == old(self).tree.id_counter as int,
                base_counter == old(self).tree.nodes@.len(),
                lvl + 1 >= ml ==> nq@.len() == 0,
                ({
                    let target = entry_applied(
                        base_nodes,
                        base_counter,
                        cap,
                        ml,
                        lvl,
                        pv,
                        subs_v,
                        0,
                    );
                    let rest = entry_applied(
                        node_views(self.tree.nodes@),
                        self.tree.id_counter as int,
                        cap,
                        ml,
                        lvl,
                        pv,
                        subs_v,
                        j as int,
                    );
                    &&& target.nodes == rest.nodes
                    &&& target.counter == rest.counter
                    &&& target.enqueued == queue_views(nq@) + rest.enqueued
                }),
            decreases m - j,
        {
            let ghost pend0 = pending_subs@;
            let sq = pending_subs.remove(0);
            proof {
                assert(sq == subs0[j as int]) by {
                    assert(pend0[0] == subs0.skip(j as int)[0]);
                    assert(subs0.skip(j as int) =~= subs0.subrange(j as int, subs0.len() as int));
                }
                assert(pending_subs@ =~= subs0.skip(j + 1)) by {
                    assert(forall|w: int|
                        0 <= w < pending_subs@.len() ==> pending_subs@[w] == pend0[w + 1]);
                    assert(subs0.skip(j as int) =~= subs0.subrange(j as int, subs0.len() as int));
                    assert(subs0.skip(j + 1) =~= subs0.subrange(j + 1, subs0.len() as int));
                }
                assert(sq@ == subs_v[j as int]);
                assert(self.tree.id_counter < 0xffff_ffff_ffff_fffe) by {
                    assert(self.tree.id_counter as int == self.tree.nodes@.len());
                }
            }
            let ghost pre_nodes = node_views(self.tree.nodes@);
            let ghost pre_counter = self.tree.id_counter as int;
            let ghost c = child_added(pre_nodes, pre_counter, cap, pv, sq@);
            let ghost nq0 = queue_views(nq@);
            let added = self.add_child(parent_id, &sq);
            if let Some(id) = added {
                if sq.need_expand && self.level + 1 < self.config.max_level
                    && self.tree.leaf_count() < self.config.max_total_leaves {
                    let entry = PendingQuery { parent_id: Some(id), query: sq.query };
                    proof {
                        assert(entry@ =~= (QueueEntryView {
                            parent_id: c.added,
                            query: subs_v[j as int].query,
                        }));
                    }
                    nq.push(entry);
                    proof {
                        assert(queue_views(nq@) =~= nq0.push(nq@.last()@));
                    }
                } else {
                    proof {
                        assert(queue_views(nq@) =~= nq0);
                    }
                }
            } else {
                proof {
                    assert(queue_views(nq@) =~= nq0);
                }
            }
            proof {
                let step_enq_actual: Seq<QueueEntryView> = match c.added {
                    Some(cid) => if subs_v[j as int].need_expand && lvl + 1 < ml
                        && leaf_count_spec(c.nodes) < cap {
                        seq![QueueEntryView { parent_id: Some(cid), query: subs_v[j as int].query }]
                    } else {
                        Seq::empty()
                    },
                    None => Seq::empty(),
                };
                assert(queue_views(nq@) =~= nq0 + step_enq_actual);
                assert(entry_applied(pre_nodes, pre_counter, cap, ml, lvl, pv, subs_v, j as int)
                    == (LevelOutcome {
                    nodes: entry_applied(
                        c.nodes,
                        c.counter,
                        cap,
                        ml,
                        lvl,
                        pv,
                        subs_v,
                        j + 1,
                    ).nodes,
                    counter: entry_applied(
                        c.nodes,
                        c.counter,
                        cap,
                        ml,
                        lvl,
                        pv,
                        subs_v,
                        j + 1,
                    ).counter,
                    enqueued: step_enq_actual + entry_applied(
                        c.nodes,
                        c.counter,
                        cap,
                        ml,
                        lvl,
                        pv,
                        subs_v,
                        j + 1,
                    ).enqueued,
                }));
                assert(entry_applied(base_nodes, base_counter, cap, ml, lvl, pv, subs_v, 0).enqueued
                    =~= queue_views(nq@) + entry_applied(
                    node_views(self.tree.nodes@),
                    self.tree.id_counter as int,
                    cap,
                    ml,
                    lvl,
                    pv,
                    subs_v,
                    j + 1,
                ).enqueued);
            }
            j = j + 1;
        }
        proof {
            assert(entry_applied(
                node_views(self.tree.nodes@),
                self.tree.id_counter as int,
                cap,
                ml,
                lvl,
                pv,
                subs_v,
                m as int,
            ).enqueued =~= Seq::<QueueEntryView>::empty());
            assert(entry_applied(base_nodes, base_counter, cap, ml, lvl, pv, subs_v, 0).enqueued
                =~= queue_views(nq@));
        }
        nq
    }

    /// Run the serial post-join section of one breadth-first level: for
    /// each queued query, truncate its decomposition to the branching
    /// cap, add the accepted sub-questions as nodes under their parents
    /// within the leaf cap, and queue for the next level those flagged
    /// for expansion while depth and leaf capacity remain.  The whole
    /// effect on the tree, the id counter and the next queue is
    /// [`level_applied`] of the old state and the answers; a failed
    /// decomposition (`None`) leaves its node a leaf.
    pub fn apply_level(&mut self, responses: Vec<Option<Vec<SubQuery>>>)
        requires
            old(self).wf(),
            responses@.len() == old(self).queue@.len(),
            old(self).level < usize::MAX,
            old(self).tree.nodes@.len() + old(self).queue@.len() * old(self).config.max_children
                < 0xffff_ffff_ffff_fffe,
        ensures
            final(self).wf(),
            final(self).config == old(self).config,
            final(self).level == old(self).level + 1,
            final(self).tree.nodes@.len() <= old(self).tree.nodes@.len() + old(self).queue@.len()
                * old(self).config.max_children,
            old(self).level + 1 >= old(self).config.max_level ==> final(self).queue@.len() == 0,
            ({
                let o = level_applied(
                    node_views(old(self).tree.nodes@),
                    old(self).tree.id_counter as int,
                    old(self).config.max_total_leaves as int,
                    old(self).config.max_children as int,
                    old(self).config.max_level as int,
                    old(self).level as int,
                    queue_views(old(self).queue@),
                    response_views(responses@),
                    0,
                );
                &&& node_views(final(self).tree.nodes@) == o.nodes
                &&& final(self).tree.id_counter as int == o.counter
                &&& queue_views(final(self).queue@) == o.enqueued
            }),
    {
        let ghost base_nodes = node_views(self.tree.nodes@);
        let ghost base_counter = self.tree.id_counter as int;
        let ghost cap = self.config.max_total_leaves as int;
        let ghost mcc = self.config.max_children as int;
        let ghost ml = self.config.max_level as int;
        let ghost lvl = self.level as int;
        let ghost q0 = self.queue@;
        let ghost qv = queue_views(q0);
        let ghost resp0 = responses@;
        let ghost rv = response_views(resp0);
        let n = self.queue.len();
        let mut next_queue: Vec<PendingQuery> = Vec::new();
        let mut pending_responses = responses;
        let mut i: usize = 0;
        proof {
            assert(qv.len() == n && rv.len() == n);
            assert(queue_views(next_queue@) =~= Seq::<QueueEntryView>::empty());
        }
        while i < n
            invariant
                n == q0.len(),
                n == old(self).queue@.len(),
                qv == queue_views(q0),
                rv == response_views(resp0),
                qv.len() == n,
                rv.len() == n,
                resp0.len() == n,
                i <= n,
                pending_responses@ == resp0.skip(i as int),
                self.wf(),
                self.config == old(self).config,
                self.level == old(self).level,
                self.queue@ == q0,
                cap == self.config.max_total_leaves as int,
                mcc == self.config.max_children as int,
                ml == self.config.max_level as int,
                lvl == self.level as int,
                lvl < usize::MAX,
                base_nodes == node_views(old(self).tree.nodes@),
                base_counter == old(self).tree.id_counter as int,
                self.tree.nodes@.len() <= old(self).tree.nodes@.len() + i
                    * old(self).config.max_children,
                old(self).tree.nodes@.len() + old(self).queue@.len()
                    * old(self).config.max_children < 0xffff_ffff_ffff_fffe,
                old(self).level + 1 >= old(self).config.max_level ==> next_queue@.len() == 0,
                ({
                    let target = level_applied(
                        base_nodes,
                        base_counter,
                        cap,
                        mcc,
                        ml,
                        lvl,
                        qv,
                        rv,
                        0,
                    );
                    let rest = level_applied(
                        node_views(self.tree.nodes@),
                        self.tree.id_counter as int,
                        cap,
                        mcc,
                        ml,
                        lvl,
                        qv,
                        rv,
                        i as int,
                    );
                    &&& target.nodes == rest.nodes
                    &&& target.counter == rest.counter
                    &&& target.enqueued == queue_views(next_queue@) + rest.enqueued
                }),
            decreases n - i,
        {
            let parent_id = clone_opt_id(&self.queue[i].parent_id);
            proof {
                assert(qv[i as int] == q0[i as int]@);
                assert(opt_id_view(parent_id) == qv[i as int].parent_id);
            }
            let ghost resp_pre = pending_responses@;
            let resp = pending_responses.remove(0);
            proof {
                assert(resp == resp0[i as int]) by {
                    assert(resp_pre[0] == resp0.skip(i as int)[0]);
                    assert(resp0.skip(i as int) =~= resp0.subrange(i as int, resp0.len() as int));
                }
                assert(pending_responses@ =~= resp0.skip(i + 1)) by {
                    assert(forall|w: int|
                        0 <= w < pending_responses@.len() ==> pending_responses@[w] == resp_pre[w
                            + 1]);
                    assert(resp0.skip(i as int) =~= resp0.subrange(i as int, resp0.len() as int));
                    assert(resp0.skip(i + 1) =~= resp0.subrange(i + 1, resp0.len() as int));
                }
                assert(rv[i as int] == (match resp0[i as int] {
                    Some(v) => Some(sub_views(v@)),
                    None => None,
                }));
            }
            let ghost pre_nodes = node_views(self.tree.nodes@);
            let ghost pre_counter = self.tree.id_counter as int;
            let ghost nqv0 = queue_views(next_queue@);
            let ghost tree_before = self.tree.nodes@.len();
            match resp {
                None => {
                    proof {
                        assert(rv[i as int] is None);
                        assert(level_applied(pre_nodes, pre_counter, cap, mcc, ml, lvl, qv, rv, i as int)
                            == (LevelOutcome {
                            nodes: level_applied(
                                pre_nodes,
                                pre_counter,
                                cap,
                                mcc,
                                ml,
                                lvl,
                                qv,
                                rv,
                                i + 1,
                            ).nodes,
                            counter: level_applied(
                                pre_nodes,
                                pre_counter,
                                cap,
                                mcc,
                                ml,
                                lvl,
                                qv,
                                rv,
                                i + 1,
                            ).counter,
                            enqueued: level_applied(
                                pre_nodes,
                                pre_counter,
                                cap,
                                mcc,
                                ml,
                                lvl,
                                qv,
                                rv,
                                i + 1,
                            ).enqueued,
                        }));
                    }
                },
                Some(subs) => {
                    let ghost subs_raw = subs@;
                    let limited = limit_children(subs, self.config.max_children);
                    proof {
                        let base = old(self).tree.nodes@.len() as int;
                        let mc = old(self).config.max_children as int;
                        let ii = i as int;
                        let nn = n as int;
                        assert((ii + 1) * mc <= nn * mc) by (nonlinear_arith)
                            requires
                                0 <= mc,
                                ii + 1 <= nn,
                        ;
                        assert(ii * mc + mc == (ii + 1) * mc) by (nonlinear_arith);
                        assert(tree_before as int <= base + ii * mc);
                        assert(base + nn * mc < 0xffff_ffff_ffff_fffe);
                        assert(tree_before + mc < 0xffff_ffff_ffff_fffe);
                        assert(self.tree.id_counter as int == self.tree.nodes@.len());
                        assert(limited@.len() <= mc);
                        assert(sub_views(limited@) =~= sub_views(subs_raw).take(
                            min(mcc, sub_views(subs_raw).len() as int),
                        )) by {
                            assert(limited@ =~= subs_raw.take(
                                min(mcc, subs_raw.len() as int),
                            ));
                            assert(forall|w: int|
                                0 <= w < limited@.len() ==> sub_views(limited@)[w] == (
                                #[trigger] limited@[w])@);
                            assert(forall|w: int|
                                0 <= w < subs_raw.len() ==> sub_views(subs_raw)[w] == (
                                #[trigger] subs_raw[w])@);
                        }
                    }
                    let mut nq_part = self.apply_entry(&parent_id, limited);
                    let ghost part_v = queue_views(nq_part@);
                    next_queue.append(&mut nq_part);
                    proof {
                        assert(queue_views(next_queue@) =~= nqv0 + part_v) by {
                            assert(forall|w: int|
                                0 <= w < next_queue@.len() ==> queue_views(next_queue@)[w] == (
                                #[trigger] next_queue@[w])@);
                        }
                        assert(rv[i as int] == Some(sub_views(subs_raw)));
                        assert(level_applied(pre_nodes, pre_counter, cap, mcc, ml, lvl, qv, rv, i as int)
                            == (LevelOutcome {
                            nodes: level_applied(
                                node_views(self.tree.nodes@),
                                self.tree.id_counter as int,
                                cap,
                                mcc,
                                ml,
                                lvl,
                                qv,
                                rv,
                                i + 1,
                            ).nodes,
                            counter: level_applied(
                                node_views(self.tree.nodes@),
                                self.tree.id_counter as int,
                                cap,
                                mcc,
                                ml,
                                lvl,
                                qv,
                                rv,
                                i + 1,
                            ).counter,
                            enqueued: part_v + level_applied(
                                node_views(self.tree.nodes@),
                                self.tree.id_counter as int,
                                cap,
                                mcc,
                                ml,
                                lvl,
                                qv,
                                rv,
                                i + 1,
                            ).enqueued,
                        }));
                        assert(level_applied(base_nodes, base_counter, cap, mcc, ml, lvl, qv, rv, 0).enqueued
                            =~= queue_views(next_queue@) + level_applied(
                            node_views(self.tree.nodes@),
                            self.tree.id_counter as int,
                            cap,
                            mcc,
                            ml,
                            lvl,
                            qv,
                            rv,
                            i + 1,
                        ).enqueued);
                    }
                },
            }
            proof {
                let mc = old(self).config.max_children as int;
                let ii = i as int;
                assert((ii + 1) * mc >= ii * mc) by (nonlinear_arith)
                    requires
                        0 <= mc,
                        0 <= ii,
                ;
            }
            i = i + 1;
        }
        self.queue = next_queue;
        self.level = self.level + 1;
        proof {
            assert(old(self).queue@.len() * old(self).config.max_children == n as int
                * old(self).config.max_children);
            assert(level_applied(
                node_views(self.tree.nodes@),
                self.tree.id_counter as int,
                cap,
                mcc,
                ml,
                lvl,
                qv,
                rv,
                n as int,
            ).enqueued =~= Seq::<QueueEntryView>::empty());
            assert(level_applied(base_nodes, base_counter, cap, mcc, ml, lvl, qv, rv, 0).enqueued
                =~= queue_views(self.queue@));
        }
    }

    /// Hand the finished tree over.
    pub fn finish(self) -> (r: DecompositionTree)
        ensures
            r == self.tree,
    {
        self.tree
    }
}

} // verus!

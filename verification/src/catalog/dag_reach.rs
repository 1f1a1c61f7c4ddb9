//! Which nodes a set of roots keeps alive.
use vstd::prelude::*;

use crate::bytes::same_id;
use crate::catalog::dag::{node_refs, Dag};
use crate::catalog::graph::{node_sound, ref_problem, refs_of, sound, Graph};
use crate::catalog::ids::NodeId;
use crate::first::lemma_first_none;
use crate::table::Table;

verus! {

/// Whether `from` is there and refers to `to`.
pub open spec fn edge(graph: Graph, from: NodeId, to: NodeId) -> bool {
    graph.dom().contains(from) && exists|i: int|
        0 <= i < refs_of(graph[from]).len() && (#[trigger] refs_of(graph[from])[i]).0 == to
}

/// Each node of the path refers to the next.
pub open spec fn is_path(graph: Graph, path: Seq<NodeId>) -> bool {
    path.len() > 0 && forall|i: int, j: int|
        #![trigger path[i], path[j]]
        0 <= i && j == i + 1 && j < path.len() ==> edge(graph, path[i], path[j])
}

/// Whether a path leads from `from` to `to`; every identifier reaches itself.
pub open spec fn reaches(graph: Graph, from: NodeId, to: NodeId) -> bool {
    exists|path: Seq<NodeId>| #[trigger]
        is_path(graph, path) && path[0] == from && path.last() == to
}

/// Whether the target is reached from the roots, taken from the last to the first:
/// yes as soon as one reaches it, unknown if a root that does not is missing.
pub open spec fn closure_answer(graph: Graph, roots: Seq<NodeId>, target: NodeId) -> Option<bool>
    decreases roots.len(),
{
    if roots.len() == 0 {
        Some(false)
    } else if reaches(graph, roots.last(), target) {
        Some(true)
    } else if !graph.dom().contains(roots.last()) {
        None
    } else {
        closure_answer(graph, roots.drop_last(), target)
    }
}

/// Where every root is there, the answer says whether some root reaches the target.
pub proof fn law_closure_answer_is_reachability(
    graph: Graph,
    roots: Seq<NodeId>,
    target: NodeId,
)
    requires
        forall|i: int| 0 <= i < roots.len() ==> graph.dom().contains(#[trigger] roots[i]),
    ensures
        closure_answer(graph, roots, target) == Some(
            exists|i: int| 0 <= i < roots.len() && reaches(graph, #[trigger] roots[i], target),
        ),
    decreases roots.len(),
{
    if roots.len() > 0 {
        let rest = roots.drop_last();
        assert forall|i: int| 0 <= i < rest.len() implies graph.dom().contains(
            #[trigger] rest[i],
        ) by {
            assert(rest[i] == roots[i]);
        }
        law_closure_answer_is_reachability(graph, rest, target);
        assert(graph.dom().contains(roots[roots.len() - 1]));
        if reaches(graph, roots.last(), target) {
            assert(reaches(graph, roots[roots.len() - 1], target));
        } else {
            if exists|i: int| 0 <= i < roots.len() && reaches(graph, #[trigger] roots[i], target) {
                let i = choose|i: int|
                    0 <= i < roots.len() && reaches(graph, #[trigger] roots[i], target);
                assert(rest[i] == roots[i]);
            }
            if exists|i: int| 0 <= i < rest.len() && reaches(graph, #[trigger] rest[i], target) {
                let i = choose|i: int|
                    0 <= i < rest.len() && reaches(graph, #[trigger] rest[i], target);
                assert(rest[i] == roots[i]);
            }
        }
    }
}

/// A target that is not reached is told apart from an incomplete walk: a negative
/// answer means that every root is there and none reaches the target.
pub proof fn law_negative_answer_is_complete(
    graph: Graph,
    roots: Seq<NodeId>,
    target: NodeId,
    i: int,
)
    requires
        closure_answer(graph, roots, target) == Some(false),
        0 <= i < roots.len(),
    ensures
        graph.dom().contains(roots[i]),
        !reaches(graph, roots[i], target),
    decreases roots.len(),
{
    if i < roots.len() - 1 {
        law_negative_answer_is_complete(graph, roots.drop_last(), target, i);
    }
}

proof fn lemma_self_reach(graph: Graph, id: NodeId)
    ensures
        reaches(graph, id, id),
{
    assert(is_path(graph, seq![id]));
}

proof fn lemma_reach_step(graph: Graph, from: NodeId, middle: NodeId, to: NodeId)
    requires
        reaches(graph, from, middle),
        edge(graph, middle, to),
    ensures
        reaches(graph, from, to),
{
    let path = choose|path: Seq<NodeId>| #[trigger]
        is_path(graph, path) && path[0] == from && path.last() == middle;
    let longer = path.push(to);
    assert(is_path(graph, longer)) by {
        assert forall|i: int, j: int|
            #![trigger longer[i], longer[j]]
            0 <= i && j == i + 1 && j < longer.len() implies edge(
            graph,
            longer[i],
            longer[j],
        ) by {
            if j < path.len() {
                assert(longer[i] == path[i] && longer[j] == path[j]);
            } else {
                assert(longer[i] == path.last());
            }
        }
    }
    assert(longer[0] == from && longer.last() == to);
}

/// What is closed under references and lacks the target does not reach it.
proof fn lemma_closed_lacks(
    graph: Graph,
    closed: Set<NodeId>,
    path: Seq<NodeId>,
)
    requires
        is_path(graph, path),
        closed.contains(path[0]),
        forall|a: NodeId, b: NodeId|
            closed.contains(a) && #[trigger] edge(graph, a, b) ==> closed.contains(b),
    ensures
        closed.contains(path.last()),
    decreases path.len(),
{
    if path.len() > 1 {
        assert(edge(graph, path[0], path[1]));
        let rest = path.drop_first();
        assert(is_path(graph, rest)) by {
            assert forall|i: int, j: int|
                #![trigger rest[i], rest[j]]
                0 <= i && j == i + 1 && j < rest.len() implies edge(graph, rest[i], rest[j]) by {
                assert(rest[i] == path[i + 1] && rest[j] == path[j + 1]);
            }
        }
        lemma_closed_lacks(graph, closed, rest);
    }
}

proof fn lemma_missing_reaches_itself_only(graph: Graph, from: NodeId, to: NodeId)
    requires
        !graph.dom().contains(from),
        reaches(graph, from, to),
    ensures
        from == to,
{
    let path = choose|path: Seq<NodeId>| #[trigger]
        is_path(graph, path) && path[0] == from && path.last() == to;
    if path.len() > 1 {
        assert(edge(graph, path[0], path[1]));
    }
}

proof fn lemma_refs_present(graph: Graph, id: NodeId, i: int)
    requires
        sound(graph),
        graph.dom().contains(id),
        0 <= i < refs_of(graph[id]).len(),
    ensures
        graph.dom().contains(refs_of(graph[id])[i].0),
{
    assert(node_sound(graph, id));
    let refs = refs_of(graph[id]);
    let direct = |i: int| ref_problem(graph, refs[i]);
    lemma_first_none(direct, 0, refs.len() as int, i);
    assert(direct(i) is None);
}

/// What the walk knows between two steps. The first `below` entries of the stack
/// are roots not yet looked at; those above come from the root just below them.
pub open spec fn walk_inv(
    graph: Graph,
    roots: Seq<NodeId>,
    target: NodeId,
    stack: Seq<NodeId>,
    visited: Set<NodeId>,
    below: int,
) -> bool {
    &&& 0 <= below <= roots.len()
    &&& below <= stack.len()
    &&& stack.take(below) == roots.take(below)
    &&& below == roots.len() ==> stack.len() == below
    &&& !visited.contains(target)
    &&& forall|v: NodeId| #[trigger] visited.contains(v) ==> graph.dom().contains(v)
    &&& forall|i: int| below <= i < roots.len() ==> visited.contains(#[trigger] roots[i])
    &&& forall|i: int|
        below <= i < stack.len() ==> graph.dom().contains(#[trigger] stack[i]) && reaches(
            graph,
            roots[below],
            stack[i],
        )
    &&& forall|a: NodeId, b: NodeId|
        visited.contains(a) && #[trigger] edge(graph, a, b) ==> visited.contains(b) || exists|
            i: int,
        |
            below <= i < stack.len() && #[trigger] stack[i] == b
    &&& closure_answer(graph, roots, target) == if below == roots.len() {
        closure_answer(graph, roots, target)
    } else {
        closure_answer(graph, roots.take(below + 1), target)
    }
}

/// When nothing is left above the roots, the last root looked at is done with.
proof fn lemma_root_done(
    graph: Graph,
    roots: Seq<NodeId>,
    target: NodeId,
    stack: Seq<NodeId>,
    visited: Set<NodeId>,
    below: int,
)
    requires
        walk_inv(graph, roots, target, stack, visited, below),
        stack.len() == below,
    ensures
        closure_answer(graph, roots, target) == closure_answer(
            graph,
            roots.take(below),
            target,
        ),
        forall|a: NodeId, b: NodeId|
            visited.contains(a) && #[trigger] edge(graph, a, b) ==> visited.contains(b),
{
    if below < roots.len() {
        let done = roots.take(below + 1);
        assert(done.last() == roots[below]);
        assert(done.drop_last() =~= roots.take(below));
        assert(visited.contains(roots[below]));
        if reaches(graph, roots[below], target) {
            let path = choose|path: Seq<NodeId>| #[trigger]
                is_path(graph, path) && path[0] == roots[below] && path.last() == target;
            lemma_closed_lacks(graph, visited, path);
        }
    } else {
        assert(roots.take(below) =~= roots);
    }
}

impl Dag {
    /// Whether the target is reachable from the roots through the whole closure of
    /// references. `None` means that a root was missing, so that the caller has to
    /// retain rather than reclaim on the strength of an incomplete walk.
    pub fn root_closure_contains(&self, roots: &Vec<NodeId>, target: NodeId) -> (answer: Option<
        bool,
    >)
        requires
            self.wf(),
        ensures
            answer == closure_answer(self.graph(), roots@, target),
    {
        let ghost graph = self.graph();
        let mut pending: Vec<NodeId> = Vec::new();
        let mut i: usize = 0;
        while i < roots.len()
            invariant
                i <= roots@.len(),
                pending@ == roots@.take(i as int),
            decreases roots@.len() - i,
        {
            pending.push(roots[i]);
            i = i + 1;
            proof {
                assert(pending@ =~= roots@.take(i as int));
            }
        }
        let mut visited: Table<NodeId, bool> = Table::new();
        let total: usize = self.nodes.len();
        let ghost mut below: int = roots@.len() as int;
        proof {
            assert(roots@.take(below) =~= roots@);
            assert(visited@.dom() =~= Set::<NodeId>::empty());
            assert(graph.dom() =~= self.nodes@.dom());
        }
        while pending.len() > 0
            invariant
                graph == self.graph(),
                self.wf(),
                graph.dom() == self.nodes@.dom(),
                total == graph.dom().len(),
                graph.dom().finite(),
                visited@.dom().finite(),
                visited@.dom().len() <= total,
                walk_inv(graph, roots@, target, pending@, visited@.dom(), below),
            ensures
                pending@.len() == 0,
            decreases total - visited@.dom().len(), pending@.len(),
        {
            let ghost stack = pending@;
            let ghost seen = visited@.dom();
            let ghost was = below;
            let popped = pending.pop();
            if let Some(id) = popped {
                proof {
                    if stack.len() == below {
                        lemma_root_done(graph, roots@, target, stack, seen, below);
                        below = below - 1;
                        assert(stack.take(was)[below] == roots@.take(was)[below]);
                        lemma_self_reach(graph, id);
                    }
                    assert(id == stack.last());
                    assert(pending@ =~= stack.drop_last());
                }
                let ghost root = roots@[below];
                if visited.contains_key(&id) {
                    proof {
                        lemma_skip(graph, roots@, target, stack, seen, was, below, id);
                    }
                } else {
                    if same_id(&id, &target) {
                        proof {
                            assert(reaches(graph, root, target));
                            let done = roots@.take(below + 1);
                            assert(done.last() == root);
                            if was != below {
                                assert(roots@.take(was) =~= done);
                            }
                        }
                        return Some(true);
                    }
                    let node = match self.nodes.get(&id) {
                        Some(node) => node,
                        None => {
                            proof {
                                assert(was != below);
                                let done = roots@.take(was);
                                assert(done.last() == id);
                                if reaches(graph, id, target) {
                                    lemma_missing_reaches_itself_only(graph, id, target);
                                }
                            }
                            return None;
                        },
                    };
                    let refs = node_refs(node);
                    let ghost short = pending@;
                    let mut j: usize = 0;
                    while j < refs.len()
                        invariant
                            j <= refs@.len(),
                            refs@ == refs_of(graph[id]),
                            pending@ == short + Seq::new(
                                j as nat,
                                |k: int| refs_of(graph[id])[k].0,
                            ),
                        decreases refs@.len() - j,
                    {
                        pending.push(refs[j].0);
                        j = j + 1;
                        proof {
                            assert(pending@ =~= short + Seq::new(
                                j as nat,
                                |k: int| refs_of(graph[id])[k].0,
                            ));
                        }
                    }
                    visited.insert(id, true);
                    proof {
                        assert(visited@.dom() =~= seen.insert(id));
                        lemma_visit(
                            graph,
                            roots@,
                            target,
                            stack,
                            seen,
                            was,
                            below,
                            id,
                            pending@,
                        );
                        vstd::set_lib::lemma_len_subset(visited@.dom(), graph.dom());
                    }
                }
            }
        }
        proof {
            lemma_root_done(graph, roots@, target, pending@, visited@.dom(), below);
            assert(roots@.take(below) =~= Seq::empty());
        }
        Some(false)
    }
}

proof fn lemma_skip(
    graph: Graph,
    roots: Seq<NodeId>,
    target: NodeId,
    stack: Seq<NodeId>,
    visited: Set<NodeId>,
    was: int,
    below: int,
    id: NodeId,
)
    requires
        walk_inv(graph, roots, target, stack, visited, was),
        stack.len() > 0,
        id == stack.last(),
        visited.contains(id),
        below == if stack.len() == was {
            was - 1
        } else {
            was
        },
    ensures
        walk_inv(graph, roots, target, stack.drop_last(), visited, below),
{
    let rest = stack.drop_last();
    if stack.len() == was {
        lemma_root_done(graph, roots, target, stack, visited, was);
        assert(rest.take(below) =~= stack.take(was).take(below));
        assert(roots.take(below) =~= roots.take(was).take(below));
        assert(stack.take(was)[below] == roots.take(was)[below]);
        assert(roots.take(below + 1) =~= roots.take(was));
    } else {
        assert(rest.take(below) =~= stack.take(was));
        assert forall|a: NodeId, b: NodeId|
            visited.contains(a) && #[trigger] edge(graph, a, b) implies visited.contains(b)
            || exists|i: int| below <= i < rest.len() && #[trigger] rest[i] == b by {
            if !visited.contains(b) {
                let i = choose|i: int| was <= i < stack.len() && #[trigger] stack[i] == b;
                assert(rest[i] == b);
            }
        }
    }
}

proof fn lemma_visit(
    graph: Graph,
    roots: Seq<NodeId>,
    target: NodeId,
    stack: Seq<NodeId>,
    visited: Set<NodeId>,
    was: int,
    below: int,
    id: NodeId,
    next: Seq<NodeId>,
)
    requires
        sound(graph),
        walk_inv(graph, roots, target, stack, visited, was),
        stack.len() > 0,
        id == stack.last(),
        !visited.contains(id),
        id != target,
        graph.dom().contains(id),
        below == if stack.len() == was {
            was - 1
        } else {
            was
        },
        next == stack.drop_last() + Seq::new(
            refs_of(graph[id]).len(),
            |k: int| refs_of(graph[id])[k].0,
        ),
    ensures
        walk_inv(graph, roots, target, next, visited.insert(id), below),
{
    let rest = stack.drop_last();
    let refs = refs_of(graph[id]);
    let now = visited.insert(id);
    if stack.len() == was {
        lemma_root_done(graph, roots, target, stack, visited, was);
        assert(stack.take(was)[below] == roots.take(was)[below]);
        assert(roots.take(below + 1) =~= roots.take(was));
        assert(roots[below] == id);
        lemma_self_reach(graph, id);
        assert(next.take(below) =~= stack.take(was).take(below));
        assert(roots.take(below) =~= roots.take(was).take(below));
    } else {
        assert(next.take(below) =~= stack.take(was));
    }
    assert(reaches(graph, roots[below], id)) by {
        if stack.len() != was {
            assert(stack[stack.len() - 1] == id);
        }
    }
    assert forall|i: int| below <= i < next.len() implies graph.dom().contains(
        #[trigger] next[i],
    ) && reaches(graph, roots[below], next[i]) by {
        if i < rest.len() {
            assert(next[i] == stack[i]);
        } else {
            let k = i - rest.len();
            assert(next[i] == refs[k].0);
            lemma_refs_present(graph, id, k);
            assert(edge(graph, id, next[i]));
            lemma_reach_step(graph, roots[below], id, next[i]);
        }
    }
    assert forall|a: NodeId, b: NodeId|
        now.contains(a) && #[trigger] edge(graph, a, b) implies now.contains(b) || exists|i: int|
        below <= i < next.len() && #[trigger] next[i] == b by {
        if a == id {
            let k = choose|k: int|
                0 <= k < refs_of(graph[a]).len() && (#[trigger] refs_of(graph[a])[k]).0 == b;
            assert(next[rest.len() + k] == b);
        } else if !visited.contains(b) && b != id {
            if stack.len() != was {
                let i = choose|i: int| was <= i < stack.len() && #[trigger] stack[i] == b;
                assert(next[i] == b);
            }
        }
    }
    assert forall|i: int| below <= i < roots.len() implies now.contains(#[trigger] roots[i]) by {}
}

} // verus!

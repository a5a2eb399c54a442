//! Which packages a package needs when it runs.
use crate::model::{Node, NodeView};
use crate::order::{keys_of, lemma_ascending_distinct, map_of, OrderedMap, OrderedSet};
use std::collections::VecDeque;
use vstd::prelude::*;

verus! {

/// `a` needs `b` directly: it has a normal dependency on `b`.
pub open spec fn needs(graph: Map<Seq<char>, NodeView>, a: Seq<char>, b: Seq<char>) -> bool {
    graph.contains_key(a) && exists|i: int|
        0 <= i < graph[a].deps.len() && #[trigger] graph[a].deps[i].pkg == b
            && graph[a].deps[i].has_normal()
}

/// Each package of the chain needs the next one directly.
pub open spec fn is_chain(graph: Map<Seq<char>, NodeView>, chain: Seq<Seq<char>>) -> bool {
    forall|i: int| 0 <= i < chain.len() - 1 ==> needs(graph, #[trigger] chain[i], chain[i + 1])
}

/// A chain of direct needs leads from `root` to `id`.
pub open spec fn reachable(
    graph: Map<Seq<char>, NodeView>,
    root: Seq<char>,
    id: Seq<char>,
) -> bool {
    exists|chain: Seq<Seq<char>>|
        #![trigger is_chain(graph, chain)]
        chain.len() > 0 && chain[0] == root && chain.last() == id && is_chain(graph, chain)
}

/// Whatever `root` leads to is in a set that has `root` and lacks nothing that its members need.
pub proof fn lemma_closed_set_has_reachable(
    graph: Map<Seq<char>, NodeView>,
    root: Seq<char>,
    ids: Seq<Seq<char>>,
    id: Seq<char>,
)
    requires
        ids.contains(root),
        forall|a: Seq<char>, b: Seq<char>|
            ids.contains(a) && #[trigger] needs(graph, a, b) ==> ids.contains(b),
        reachable(graph, root, id),
    ensures
        ids.contains(id),
{
    let chain = choose|chain: Seq<Seq<char>>|
        #![trigger is_chain(graph, chain)]
        chain.len() > 0 && chain[0] == root && chain.last() == id && is_chain(graph, chain);
    lemma_chain_stays(graph, ids, chain, chain.len() - 1);
}

proof fn lemma_chain_stays(
    graph: Map<Seq<char>, NodeView>,
    ids: Seq<Seq<char>>,
    chain: Seq<Seq<char>>,
    i: int,
)
    requires
        0 <= i < chain.len(),
        ids.contains(chain[0]),
        is_chain(graph, chain),
        forall|a: Seq<char>, b: Seq<char>|
            ids.contains(a) && #[trigger] needs(graph, a, b) ==> ids.contains(b),
    ensures
        ids.contains(chain[i]),
    decreases i,
{
    if i > 0 {
        lemma_chain_stays(graph, ids, chain, i - 1);
        assert(needs(graph, chain[i - 1], chain[i - 1 + 1]));
    }
}

/// A package leads to itself.
pub proof fn lemma_reaches_itself(graph: Map<Seq<char>, NodeView>, root: Seq<char>)
    ensures
        reachable(graph, root, root),
{
    let chain = seq![root];
    assert(is_chain(graph, chain));
}

/// What a reachable package needs directly is reachable.
pub proof fn lemma_reaches_needs(
    graph: Map<Seq<char>, NodeView>,
    root: Seq<char>,
    a: Seq<char>,
    b: Seq<char>,
)
    requires
        reachable(graph, root, a),
        needs(graph, a, b),
    ensures
        reachable(graph, root, b),
{
    let chain = choose|chain: Seq<Seq<char>>|
        #![trigger is_chain(graph, chain)]
        chain.len() > 0 && chain[0] == root && chain.last() == a && is_chain(graph, chain);
    let longer = chain.push(b);
    assert forall|i: int| 0 <= i < longer.len() - 1 implies needs(
        graph,
        #[trigger] longer[i],
        longer[i + 1],
    ) by {
        if i < chain.len() - 1 {
            assert(needs(graph, chain[i], chain[i + 1]));
        }
    }
    assert(is_chain(graph, longer));
}

/// The packages that some nodes depend on, normally or not.
spec fn targets(entries: Seq<(Seq<char>, NodeView)>) -> Seq<Seq<char>>
    decreases entries.len(),
{
    if entries.len() == 0 {
        Seq::empty()
    } else {
        targets(entries.drop_last()) + Seq::new(
            entries.last().1.deps.len(),
            |i: int| entries.last().1.deps[i].pkg,
        )
    }
}

proof fn lemma_targets(entries: Seq<(Seq<char>, NodeView)>, i: int, j: int)
    requires
        0 <= i < entries.len(),
        0 <= j < entries[i].1.deps.len(),
    ensures
        targets(entries).contains(entries[i].1.deps[j].pkg),
    decreases entries.len(),
{
    let last = Seq::new(
        entries.last().1.deps.len(),
        |k: int| entries.last().1.deps[k].pkg,
    );
    let first = targets(entries.drop_last());
    let p = entries[i].1.deps[j].pkg;
    if i == entries.len() - 1 {
        assert((first + last)[first.len() + j] == p);
    } else {
        lemma_targets(entries.drop_last(), i, j);
        let k: int = choose|k: int| 0 <= k < first.len() && first[k] == p;
        assert((first + last)[k] == p);
    }
}

proof fn lemma_distinct_within(a: Seq<Seq<char>>, b: Seq<Seq<char>>)
    requires
        a.no_duplicates(),
        forall|x: Seq<char>| a.contains(x) ==> b.contains(x),
    ensures
        a.len() <= b.to_set().len(),
{
    broadcast use vstd::seq_lib::seq_to_set_is_finite;

    a.unique_seq_to_set();
    assert(a.to_set().subset_of(b.to_set()));
    vstd::set_lib::lemma_len_subset(a.to_set(), b.to_set());
}

proof fn lemma_push_contains(s: Seq<Seq<char>>, p: Seq<char>, x: Seq<char>)
    ensures
        s.push(p).contains(x) <==> s.contains(x) || x == p,
{
    if s.contains(x) {
        let k: int = choose|k: int| 0 <= k < s.len() && s[k] == x;
        assert(s.push(p)[k] == x);
    }
    if x == p {
        assert(s.push(p)[s.len() as int] == p);
    }
}

proof fn lemma_needed_is_known(entries: Seq<(Seq<char>, NodeView)>, id: Seq<char>, j: int)
    requires
        map_of(entries).contains_key(id),
        0 <= j < map_of(entries)[id].deps.len(),
    ensures
        targets(entries).contains(map_of(entries)[id].deps[j].pkg),
{
    let i: int = keys_of(entries).index_of(id);
    assert(0 <= i < keys_of(entries).len());
    lemma_targets(entries, i, j);
}

/// The packages that `root_id` needs when it runs: itself, and whatever is reached from it over
/// normal dependencies.
pub fn compute_runtime_closure(root_id: &str, nodes_by_id: &OrderedMap<String, &Node>) -> (runtime:
    OrderedSet<String>)
    requires
        nodes_by_id.wf(),
    ensures
        runtime.wf(),
        forall|id: Seq<char>| #[trigger]
            runtime.deep_view().contains(id) <==> reachable(nodes_by_id.as_map(), root_id@, id),
{
    let ghost graph = nodes_by_id.as_map();
    let ghost root = root_id@;
    let ghost known = targets(nodes_by_id.deep_view()).push(root);
    let mut runtime: OrderedSet<String> = OrderedSet::new();
    let mut queue: VecDeque<String> = VecDeque::new();
    queue.push_back(root_id.to_string());
    proof {
        lemma_reaches_itself(graph, root);
        assert(queue.deep_view() =~= seq![root]);
        assert(queue.deep_view().contains(root)) by {
            assert(queue.deep_view()[0] == root);
        }
        assert(known.contains(root)) by {
            assert(known[known.len() - 1] == root);
        }
        assert forall|x: Seq<char>| queue.deep_view().contains(x) implies x == root by {}
        lemma_distinct_within(runtime.deep_view(), known);
    }
    while queue.len() > 0
        invariant
            nodes_by_id.wf(),
            graph == nodes_by_id.as_map(),
            known == targets(nodes_by_id.deep_view()).push(root),
            runtime.wf(),
            runtime.deep_view().contains(root) || queue.deep_view().contains(root),
            forall|x: Seq<char>| #[trigger]
                runtime.deep_view().contains(x) ==> known.contains(x) && reachable(graph, root, x),
            forall|x: Seq<char>| #[trigger]
                queue.deep_view().contains(x) ==> known.contains(x) && reachable(graph, root, x),
            forall|a: Seq<char>, b: Seq<char>|
                runtime.deep_view().contains(a) && #[trigger] needs(graph, a, b)
                    ==> runtime.deep_view().contains(b) || queue.deep_view().contains(b),
            runtime.deep_view().len() <= known.to_set().len(),
        decreases known.to_set().len() - runtime.deep_view().len(), queue@.len(),
    {
        let ghost done = runtime.deep_view();
        let ghost waiting = queue.deep_view();
        let id: String = queue.pop_front().unwrap();
        proof {
            assert(waiting[0] == id@);
            assert(waiting.contains(id@));
            assert(queue.deep_view() =~= waiting.skip(1));
            assert forall|x: Seq<char>| #[trigger] waiting.contains(x) implies x == id@
                || queue.deep_view().contains(x) by {
                let k: int = choose|k: int| 0 <= k < waiting.len() && waiting[k] == x;
                if k > 0 {
                    assert(queue.deep_view()[k - 1] == x);
                }
            }
            assert forall|x: Seq<char>| #[trigger]
                queue.deep_view().contains(x) implies waiting.contains(x) by {
                let k: int = choose|k: int|
                    0 <= k < queue.deep_view().len() && queue.deep_view()[k] == x;
                assert(waiting[k + 1] == x);
            }
        }
        if !runtime.insert(id.clone()) {
            continue;
        }
        proof {
            lemma_ascending_distinct::<String>(runtime.deep_view());
            lemma_distinct_within(runtime.deep_view(), known);
        }
        let ghost rest = queue.deep_view();
        let node = match nodes_by_id.get(&id) {
            Some(node) => *node,
            None => continue,
        };
        let ghost deps = node.deps.deep_view();
        assert(deps == graph[id@].deps);
        let mut i: usize = 0;
        while i < node.deps.len()
            invariant
                nodes_by_id.wf(),
                graph == nodes_by_id.as_map(),
                known == targets(nodes_by_id.deep_view()).push(root),
                graph.contains_key(id@),
                deps == graph[id@].deps,
                deps == node.deps.deep_view(),
                reachable(graph, root, id@),
                i <= node.deps@.len(),
                forall|x: Seq<char>| rest.contains(x) ==> queue.deep_view().contains(x),
                forall|j: int|
                    0 <= j < i && deps[j].has_normal() ==> queue.deep_view().contains(
                        (#[trigger] deps[j]).pkg,
                    ),
                forall|x: Seq<char>| #[trigger]
                    queue.deep_view().contains(x) ==> rest.contains(x) || (known.contains(x)
                        && reachable(graph, root, x)),
            decreases node.deps@.len() - i,
        {
            let ghost before = queue.deep_view();
            if node.deps[i].has_normal() {
                queue.push_back(node.deps[i].pkg.clone());
                proof {
                    let p = deps[i as int].pkg;
                    assert(queue.deep_view() =~= before.push(p));
                    assert(needs(graph, id@, p));
                    lemma_reaches_needs(graph, root, id@, p);
                    lemma_needed_is_known(nodes_by_id.deep_view(), id@, i as int);
                    assert(targets(nodes_by_id.deep_view()).contains(p));
                    lemma_push_contains(targets(nodes_by_id.deep_view()), root, p);
                    assert forall|x: Seq<char>| #[trigger]
                        queue.deep_view().contains(x) <==> before.contains(x) || x == p by {
                        lemma_push_contains(before, p, x);
                    }
                }
            }
            i = i + 1;
        }
        assert forall|a: Seq<char>, b: Seq<char>|
            runtime.deep_view().contains(a) && #[trigger] needs(
                graph,
                a,
                b,
            ) implies runtime.deep_view().contains(b) || queue.deep_view().contains(b) by {
            if a != id@ {
                assert(done.contains(a));
            }
        }
    }
    proof {
        assert forall|id: Seq<char>|
            reachable(graph, root, id) implies #[trigger] runtime.deep_view().contains(id) by {
            lemma_closed_set_has_reachable(graph, root, runtime.deep_view(), id);
        }
    }
    runtime
}

/// What a reachable package leads to is reachable.
pub proof fn lemma_reachable_transitive(
    graph: Map<Seq<char>, NodeView>,
    a: Seq<char>,
    b: Seq<char>,
    c: Seq<char>,
)
    requires
        reachable(graph, a, b),
        reachable(graph, b, c),
    ensures
        reachable(graph, a, c),
{
    let chain = choose|chain: Seq<Seq<char>>|
        #![trigger is_chain(graph, chain)]
        chain.len() > 0 && chain[0] == b && chain.last() == c && is_chain(graph, chain);
    lemma_reachable_along(graph, a, chain, chain.len() - 1);
}

proof fn lemma_reachable_along(
    graph: Map<Seq<char>, NodeView>,
    root: Seq<char>,
    chain: Seq<Seq<char>>,
    i: int,
)
    requires
        0 <= i < chain.len(),
        reachable(graph, root, chain[0]),
        is_chain(graph, chain),
    ensures
        reachable(graph, root, chain[i]),
    decreases i,
{
    if i > 0 {
        lemma_reachable_along(graph, root, chain, i - 1);
        assert(needs(graph, chain[i - 1], chain[i - 1 + 1]));
        lemma_reaches_needs(graph, root, chain[i - 1], chain[i]);
    }
}

/// Fewer direct needs lead to no more packages.
pub proof fn lemma_fewer_needs_reach_less(
    less: Map<Seq<char>, NodeView>,
    more: Map<Seq<char>, NodeView>,
    root: Seq<char>,
    id: Seq<char>,
)
    requires
        forall|a: Seq<char>, b: Seq<char>| #[trigger] needs(less, a, b) ==> needs(more, a, b),
        reachable(less, root, id),
    ensures
        reachable(more, root, id),
{
    let chain = choose|chain: Seq<Seq<char>>|
        #![trigger is_chain(less, chain)]
        chain.len() > 0 && chain[0] == root && chain.last() == id && is_chain(less, chain);
    assert forall|i: int| 0 <= i < chain.len() - 1 implies needs(
        more,
        #[trigger] chain[i],
        chain[i + 1],
    ) by {
        assert(needs(less, chain[i], chain[i + 1]));
    }
    assert(is_chain(more, chain));
}

} // verus!

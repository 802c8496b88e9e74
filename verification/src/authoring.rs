//! The hierarchy of an authoring scene: nodes name their parent by its
//! stable id, and spawning links each node to the node that carries that id.
//! A parent id that no node carries is an error, reported for the first node
//! (in file order) that names one.

use vstd::prelude::*;

verus! {

/// A node names a parent that no node of the scene carries.
#[derive(Clone, Copy, Debug, PartialEq, Eq, Structural)]
pub struct MissingParent {
    pub parent: u128,
    pub node: u128,
}

/// The last of the first `n` nodes that carries `id`; when ids repeat, the
/// later node is the one a lookup by id finds.
pub open spec fn last_with(ids: Seq<u128>, id: u128, n: int) -> Option<int>
    decreases n,
{
    if n <= 0 {
        None
    } else if ids[n - 1] == id {
        Some(n - 1)
    } else {
        last_with(ids, id, n - 1)
    }
}

/// Node `i`'s parent resolves: it has none, or some node carries it.
pub open spec fn resolves(ids: Seq<u128>, parents: Seq<Option<u128>>, i: int) -> bool {
    match parents[i] {
        None => true,
        Some(p) => last_with(ids, p, ids.len() as int) is Some,
    }
}

/// The node a lookup by `id` finds, as an index.
pub open spec fn found(ids: Seq<u128>, id: u128) -> usize {
    match last_with(ids, id, ids.len() as int) {
        Some(k) => k as usize,
        None => 0,
    }
}

/// The `(child, parent)` links of the first `n` nodes, in node order: one
/// for each node that names a parent, the child being the node its own id
/// finds and the parent the node the parent id finds.
pub open spec fn links_upto(ids: Seq<u128>, parents: Seq<Option<u128>>, n: int) -> Seq<(usize, usize)>
    decreases n,
{
    if n <= 0 {
        Seq::empty()
    } else {
        let before = links_upto(ids, parents, n - 1);
        match parents[n - 1] {
            None => before,
            Some(p) => before.push((found(ids, ids[n - 1]), found(ids, p))),
        }
    }
}

/// What linking a scene's nodes gives: the links made, in order, up to the
/// first node whose parent no node carries, and that node's error.
pub struct ParentLinks {
    pub links: Vec<(usize, usize)>,
    pub missing: Option<MissingParent>,
}

proof fn lemma_last_with_range(ids: Seq<u128>, id: u128, n: int)
    requires
        0 <= n <= ids.len(),
    ensures
        last_with(ids, id, n) matches Some(k) ==> 0 <= k < n && ids[k] == id,
        last_with(ids, id, n) is None ==> forall|k: int| 0 <= k < n ==> ids[k] != id,
    decreases n,
{
    if n > 0 {
        lemma_last_with_range(ids, id, n - 1);
    }
}

/// The index of the last node that carries `id`, if any.
fn find_last(ids: &Vec<u128>, id: u128) -> (r: Option<usize>)
    ensures
        r == (match last_with(ids@, id, ids@.len() as int) {
            Some(k) => Some(k as usize),
            None => None,
        }),
{
    let mut i: usize = ids.len();
    while i > 0
        invariant
            i <= ids.len(),
            forall|k: int| i <= k < ids.len() ==> ids@[k] != id,
        decreases i,
    {
        if ids[i - 1] == id {
            proof {
                lemma_last_with_tail(ids@, id, i as int, ids@.len() as int);
            }
            return Some(i - 1);
        }
        i = i - 1;
    }
    proof {
        lemma_last_with_tail(ids@, id, 0, ids@.len() as int);
    }
    None
}

/// Past position `m`, nothing carries `id`: the last one among the first `n`
/// is the last one among the first `m`.
proof fn lemma_last_with_tail(ids: Seq<u128>, id: u128, m: int, n: int)
    requires
        0 <= m <= n <= ids.len(),
        forall|k: int| m <= k < n ==> ids[k] != id,
    ensures
        last_with(ids, id, n) == last_with(ids, id, m),
    decreases n - m,
{
    if n > m {
        lemma_last_with_tail(ids, id, m, n - 1);
    }
}

/// Links every node to its parent, in node order, stopping at the first node
/// whose parent no node carries.
pub fn resolve_parents(ids: &Vec<u128>, parents: &Vec<Option<u128>>) -> (r: ParentLinks)
    requires
        ids.len() == parents.len(),
    ensures
        match r.missing {
            None => {
                &&& forall|i: int| 0 <= i < ids.len() ==> resolves(ids@, parents@, i)
                &&& r.links@ == links_upto(ids@, parents@, ids.len() as int)
            },
            Some(e) => exists|i: int|
                0 <= i < ids.len() && !#[trigger] resolves(ids@, parents@, i) && (forall|j: int|
                    0 <= j < i ==> resolves(ids@, parents@, j)) && parents@[i] == Some(e.parent) && e.node
                    == ids@[i] && r.links@ == links_upto(ids@, parents@, i),
        },
{
    let mut links: Vec<(usize, usize)> = Vec::new();
    let mut i: usize = 0;
    while i < ids.len()
        invariant
            i <= ids.len(),
            ids.len() == parents.len(),
            forall|j: int| 0 <= j < i ==> resolves(ids@, parents@, j),
            links@ == links_upto(ids@, parents@, i as int),
        decreases ids.len() - i,
    {
        if let Some(p) = parents[i] {
            match find_last(ids, p) {
                Some(k) => {
                    let me = find_last(ids, ids[i]);
                    proof {
                        lemma_last_with_range(ids@, ids@[i as int], ids@.len() as int);
                        if last_with(ids@, ids@[i as int], ids@.len() as int) is None {
                            assert(ids@[i as int] != ids@[i as int]);
                        }
                    }
                    let c = match me {
                        Some(c) => c,
                        None => 0,
                    };
                    links.push((c, k));
                },
                None => {
                    let r = ParentLinks { links, missing: Some(MissingParent { parent: p, node: ids[i] }) };
                    proof {
                        assert(!resolves(ids@, parents@, i as int));
                        assert(r.links@ == links_upto(ids@, parents@, i as int));
                    }
                    return r;
                },
            }
        }
        i = i + 1;
    }
    ParentLinks { links, missing: None }
}

/// Every link joins a node to a node that carries its parent's id.
pub proof fn a_link_joins_a_node_to_its_parent(ids: Seq<u128>, parents: Seq<Option<u128>>, n: int, j: int)
    requires
        ids.len() == parents.len(),
        ids.len() <= usize::MAX,
        0 <= n <= ids.len(),
        forall|i: int| 0 <= i < n ==> resolves(ids, parents, i),
        0 <= j < links_upto(ids, parents, n).len(),
    ensures
        ({
            let (c, p) = links_upto(ids, parents, n)[j];
            &&& c < ids.len() && p < ids.len()
            &&& exists|i: int| 0 <= i < n && parents[i] == Some(ids[p as int]) && ids[i] == ids[c as int]
        }),
    decreases n,
{
    let prev = links_upto(ids, parents, n - 1);
    if j < prev.len() {
        a_link_joins_a_node_to_its_parent(ids, parents, n - 1, j);
        let (c, p) = prev[j];
        let i = choose|i: int| 0 <= i < n - 1 && parents[i] == Some(ids[p as int]) && ids[i] == ids[c as int];
        assert(0 <= i < n && parents[i] == Some(ids[p as int]) && ids[i] == ids[c as int]);
    } else {
        let i = n - 1;
        let q = parents[i].unwrap();
        assert(resolves(ids, parents, i));
        lemma_last_with_range(ids, q, ids.len() as int);
        lemma_last_with_range(ids, ids[i], ids.len() as int);
        if last_with(ids, ids[i], ids.len() as int) is None {
            assert(ids[i] != ids[i]);
        }
    }
}

} // verus!

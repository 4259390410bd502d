use std::collections::HashMap;
use vstd::prelude::*;

verus! {

broadcast use vstd::std_specs::hash::group_hash_axioms;

/// The tree of all ways to fill a team size lobby by lobby: each child is
/// reached by the size of the next lobby and holds the ways to fill the rest.
#[derive(Debug)]
pub enum Tree {
    Child(HashMap<u32, Box<Tree>>),
}

impl Tree {
    /// The children of the root, by the size that leads to each.
    pub open spec fn children(self) -> Map<u32, Box<Tree>> {
        match self {
            Tree::Child(children) => children@,
        }
    }
}

/// `tree` is the tree for a team of `n` players: it has one child for each
/// lobby size from 1 to `n`, and the child for size `i` is the tree for the
/// `n - i` players that are still missing.
pub open spec fn tree_of(tree: Tree, n: nat) -> bool
    decreases n,
{
    &&& forall|i: u32| 1 <= i <= n ==> #[trigger] tree.children().dom().contains(i)
    &&& forall|i: u32| #[trigger]
        tree.children().dom().contains(i) ==> 1 <= i <= n && tree_of(
            *tree.children()[i],
            (n - i) as nat,
        )
}

/// Builds the tree for a team of `n` players.
pub fn build_tree(n: u32) -> (tree: Tree)
    ensures
        tree_of(tree, n as nat),
    decreases n,
{
    let mut h: HashMap<u32, Box<Tree>>;
    if n == 0 {
        h = HashMap::with_capacity(0);
    } else {
        h = HashMap::new();
        let mut i: u32 = 0;
        while i < n
            invariant
                i <= n,
                forall|k: u32| h@.dom().contains(k) <==> 1 <= k <= i,
                forall|k: u32| #[trigger]
                    h@.dom().contains(k) ==> k <= n && tree_of(*h@[k], (n - k) as nat),
            decreases n - i,
        {
            i = i + 1;
            h.insert(i, Box::new(build_tree(n - i)));
        }
    }
    let ghost children = h@;
    let tree = Tree::Child(h);
    assert(tree.children() == children);
    tree
}

} // verus!

//! Full paths are never stored: a node's path is the scanned root's path with
//! the names of the nodes below it pushed on, top down.

use vstd::prelude::*;

use super::arena::{parents_of, parents_precede, Node};
use super::tree::ScanTree;
use crate::sys::{join_path, path_joined};

verus! {

/// Names of the nodes from just below the top of `x`'s parent chain down to
/// `x` itself; empty for a node without a parent.
pub open spec fn names_down(ns: Seq<Node>, x: int) -> Seq<Seq<char>>
    decreases x,
{
    if 0 <= x < ns.len() {
        match ns[x].parent {
            Some(p) => if (p as int) < x { names_down(ns, p as int).push(ns[x].name@) } else { Seq::empty() },
            None => Seq::empty(),
        }
    } else {
        Seq::empty()
    }
}

/// `base` with each name of `parts` pushed on in order.
pub open spec fn joined_all(base: Seq<char>, parts: Seq<Seq<char>>) -> Seq<char>
    decreases parts.len(),
{
    if parts.len() == 0 {
        base
    } else {
        path_joined(joined_all(base, parts.drop_last()), parts.last())
    }
}

/// The path of node `x` as text.
pub open spec fn path_text(t: ScanTree, x: int) -> Seq<char> {
    joined_all(t.root_path@, names_down(t.nodes@, x))
}

impl ScanTree {
    /// The full path of node `idx`: the root path with the names of the
    /// nodes below it, down to `idx`, pushed on.
    pub fn path_of(&self, idx: u32) -> (r: String)
        requires
            (idx as int) < self.nodes@.len(),
            parents_precede(parents_of(self.nodes@)),
        ensures
            r@ == path_text(*self, idx as int),
    {
        let ghost ns = self.nodes@;
        let ghost full = names_down(ns, idx as int);
        // Nodes on the way up, nearest first.
        let mut way: Vec<u32> = Vec::new();
        let mut cur = idx;
        loop
            invariant
                ns == self.nodes@,
                parents_precede(parents_of(ns)),
                (cur as int) < ns.len(),
                forall|t: int| 0 <= t < way@.len() ==> (#[trigger] way@[t] as int) < ns.len(),
                full == names_down(ns, cur as int) + Seq::new(way@.len(), |t: int| ns[way@[way@.len() - 1 - t] as int].name@),
            ensures
                ns[cur as int].parent is None,
            decreases cur,
        {
            let ghost before = way@;
            match self.nodes[cur as usize].parent {
                Some(p) => {
                    way.push(cur);
                    proof {
                        assert(parents_of(ns)[cur as int] == Some(p));
                        let tail = Seq::new(before.len(), |t: int| ns[before[before.len() - 1 - t] as int].name@);
                        let tail2 = Seq::new(way@.len(), |t: int| ns[way@[way@.len() - 1 - t] as int].name@);
                        assert(tail2 =~= seq![ns[cur as int].name@] + tail);
                        assert(names_down(ns, cur as int) == names_down(ns, p as int).push(ns[cur as int].name@));
                        assert(names_down(ns, p as int) + tail2 =~= names_down(ns, p as int).push(ns[cur as int].name@) + tail);
                    }
                    cur = p;
                },
                None => {
                    break;
                },
            }
        }
        let ghost parts = Seq::new(way@.len(), |t: int| ns[way@[way@.len() - 1 - t] as int].name@);
        proof {
            assert(names_down(ns, cur as int) =~= Seq::<Seq<char>>::empty());
            assert(full =~= parts);
        }
        let mut path = self.root_path.clone();
        let mut k: usize = way.len();
        while k > 0
            invariant
                ns == self.nodes@,
                k <= way@.len(),
                forall|t: int| 0 <= t < way@.len() ==> (#[trigger] way@[t] as int) < ns.len(),
                parts == Seq::new(way@.len(), |t: int| ns[way@[way@.len() - 1 - t] as int].name@),
                path@ == joined_all(self.root_path@, parts.subrange(0, (way@.len() - k) as int)),
            decreases k,
        {
            k = k - 1;
            let j = way[k];
            let next = join_path(path.as_str(), self.nodes[j as usize].name.as_str());
            proof {
                let m = (way@.len() - k) as int;
                assert(parts.subrange(0, m).drop_last() =~= parts.subrange(0, m - 1));
                assert(parts.subrange(0, m).last() == ns[j as int].name@);
            }
            path = next;
        }
        proof {
            assert(parts.subrange(0, parts.len() as int) =~= parts);
        }
        path
    }
}

} // verus!

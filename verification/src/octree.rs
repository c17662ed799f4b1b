use crate::object_pool::{key_might_be_valid, key_none_value, ObjectPool};
use crate::spatial::{
    bound_contains, child_bounds_for, child_octant_for, cube_aligned, cube_contains,
    cube_divisible, cube_in_range, cube_within, is_power_of_two, lemma_aligned_cube_cell,
    lemma_child_aligned, lemma_child_within, lemma_octant_contains, lemma_pow2_half, lemma_within_transitive, lemma_octant_unique,
    power_of_two, root_bounds, same_cell, lemma_cell_coarser, lemma_unit_cell, spec_child_bounds, spec_octant_for, Cube, V3c,
};
use vstd::laws_eq::obeys_concrete_eq;
use vstd::std_specs::cmp::PartialEqSpec;
use vstd::prelude::*;

verus! {

/// Errors of the octree operations
#[derive(Debug, Clone, Copy, PartialEq, Eq, Structural)]
pub enum Error {
    InvalidNodeSize(u32),
    InvalidPosition { x: u32, y: u32, z: u32 },
}

/// Sparse octree of voxels. Every node covers a cube; a node either stores
/// the data of its whole cube (a leaf) or refers to up to 8 children, one for each octant
pub struct Octree<T> {
    pub auto_simplify: bool,
    root_node: usize,
    root_size: u32,
    /// None means the Node is an internal node, Some(...) means the Node is a leaf
    nodes: ObjectPool<Option<T>>,
    /// 8 keys for each node, in the order of the octants; key_none_value() marks a missing child
    node_children: Vec<usize>,
    /// The cube covered by each node of the tree
    bounds: Ghost<Map<usize, Cube>>,
    /// The parent of each non-root node and the octant it takes up in it
    parents: Ghost<Map<usize, (usize, int)>>,
}

/// The cube covered by an octree of the given size
pub open spec fn root_bounds_spec(size: u32) -> Cube {
    Cube { min_position: V3c { x: 0, y: 0, z: 0 }, size }
}

/// The voxel map after setting every position of the grid cell of size `size`
/// containing `p` to `data`
pub open spec fn filled_cell<T>(
    m: Map<V3c<u32>, T>,
    p: V3c<u32>,
    size: nat,
    data: T,
) -> Map<V3c<u32>, T> {
    m.union_prefer_right(Map::new(|q: V3c<u32>| same_cell(p, q, size), |q: V3c<u32>| data))
}

/// The voxel map after erasing every position of the grid cell of size `size` containing `p`
pub open spec fn cleared_cell<T>(m: Map<V3c<u32>, T>, p: V3c<u32>, size: nat) -> Map<
    V3c<u32>,
    T,
> {
    m.remove_keys(Set::new(|q: V3c<u32>| same_cell(p, q, size)))
}

/// The voxel map after setting every position of the cube to `data`
pub open spec fn cube_filled<T>(m: Map<V3c<u32>, T>, c: Cube, data: T) -> Map<V3c<u32>, T> {
    m.union_prefer_right(Map::new(|q: V3c<u32>| cube_contains(c, q), |q: V3c<u32>| data))
}

/// The voxel map after erasing every position of the cube
pub open spec fn cube_cleared<T>(m: Map<V3c<u32>, T>, c: Cube) -> Map<V3c<u32>, T> {
    m.remove_keys(Set::new(|q: V3c<u32>| cube_contains(c, q)))
}

/// The size of the cell an update operation at the given level of detail touches
pub open spec fn lod_size(min_node_size: u32, root_size: u32) -> nat {
    if min_node_size < root_size {
        min_node_size as nat
    } else {
        root_size as nat
    }
}

impl<T> Octree<T> {
    /// The cube the whole tree covers
    pub closed spec fn root_cube(&self) -> Cube {
        root_bounds_spec(self.root_size)
    }

    /// Tells if update operations try to merge nodes with uniform content
    pub closed spec fn simplifies(&self) -> bool {
        self.auto_simplify
    }

    /// The edge length of the cube the octree covers
    pub closed spec fn spec_size(&self) -> u32 {
        self.root_size
    }

    spec fn child(&self, n: usize, o: int) -> usize {
        self.node_children@[n * 8 + o]
    }

    spec fn child_ok(&self, n: usize, o: int) -> bool {
        let c = self.child(n, o);
        &&& self.nodes@[n] is None
        &&& cube_divisible(self.bounds@[n])
        &&& self.bounds@.contains_key(c)
        &&& self.bounds@[c] == spec_child_bounds(self.bounds@[n], o)
    }

    spec fn parent_ok(&self, n: usize) -> bool {
        let (p, o) = self.parents@[n];
        &&& self.parents@.contains_key(n)
        &&& self.bounds@.contains_key(p)
        &&& 0 <= o < 8
        &&& self.child(p, o) == n
    }

    spec fn node_ok(&self, n: usize) -> bool {
        let b = self.bounds@[n];
        &&& is_power_of_two(b.size as nat)
        &&& b.size <= self.root_size
        &&& cube_within(b, self.root_cube())
        &&& cube_aligned(b)
        &&& forall|o: int|
            0 <= o < 8 && #[trigger] self.child(n, o) != usize::MAX ==> self.child_ok(n, o)
        &&& n != self.root_node ==> self.parent_ok(n)
    }

    /// The structural invariant of the octree
    #[verifier::opaque]
    pub closed spec fn wf(&self) -> bool {
        &&& self.nodes.wf()
        &&& self.node_children@.len() == 8 * self.nodes.spec_len()
        &&& self.node_children@.len() <= usize::MAX
        &&& is_power_of_two(self.root_size as nat)
        &&& self.bounds@.dom() == self.nodes@.dom()
        &&& self.bounds@.contains_key(self.root_node)
        &&& self.bounds@[self.root_node] == self.root_cube()
        &&& forall|n: usize| #[trigger] self.bounds@.contains_key(n) ==> self.node_ok(n)
        &&& forall|k: usize, o: int|
            k < self.nodes.spec_len() && !self.nodes@.contains_key(k) && 0 <= o < 8
                ==> #[trigger] self.child(k, o) == usize::MAX
    }

    /// The leaf node `n` stores data for the position `p`
    spec fn leaf_covers(&self, n: usize, p: V3c<u32>) -> bool {
        &&& self.bounds@.contains_key(n)
        &&& self.nodes@[n] is Some
        &&& cube_contains(self.bounds@[n], p)
    }

    /// The data stored at the given position, if any
    pub closed spec fn voxel(&self, p: V3c<u32>) -> Option<T> {
        if exists|n: usize| self.leaf_covers(n, p) {
            self.nodes@[choose|n: usize| self.leaf_covers(n, p)]
        } else {
            None
        }
    }

    /// The cube covered by the leaf which stores the data for the given position
    pub closed spec fn leaf_cube(&self, p: V3c<u32>) -> Cube {
        self.bounds@[choose|n: usize| self.leaf_covers(n, p)]
    }
}

impl<T> View for Octree<T> {
    /// The data stored at each position of the octree
    type V = Map<V3c<u32>, T>;

    closed spec fn view(&self) -> Map<V3c<u32>, T> {
        Map::new(|p: V3c<u32>| self.voxel(p) is Some, |p: V3c<u32>| self.voxel(p)->0)
    }
}

impl<T> Octree<T> {
    /// Every key of the tree is below the number of slots, hence it is not the missing-key marker
    proof fn lemma_key_bound(&self, n: usize)
        requires
            self.wf(),
            self.bounds@.contains_key(n),
        ensures
            n < self.nodes.spec_len(),
            n * 8 + 8 <= self.node_children@.len(),
            n != usize::MAX,
            self.nodes@.contains_key(n),
    {
        self.lemma_wf_basics();
        reveal(Octree::wf);
        self.nodes.lemma_keys_below_len();
        assert(self.nodes@.contains_key(n));
    }

    /// The basic facts of the well formed octree
    proof fn lemma_wf_basics(&self)
        requires
            self.wf(),
        ensures
            self.nodes.wf(),
            self.node_children@.len() == 8 * self.nodes.spec_len(),
            self.node_children@.len() <= usize::MAX,
            is_power_of_two(self.root_size as nat),
            self.bounds@.dom() == self.nodes@.dom(),
            self.bounds@.contains_key(self.root_node),
            self.bounds@[self.root_node] == self.root_cube(),
    {
        reveal(Octree::wf);
    }

    /// An existing child covers the octant of its parent
    proof fn lemma_child(&self, n: usize, o: int)
        requires
            self.wf(),
            self.bounds@.contains_key(n),
            0 <= o < 8,
            self.child(n, o) != usize::MAX,
        ensures
            self.child_ok(n, o),
    {
        reveal(Octree::wf);
        assert(self.node_ok(n));
    }

    /// A non-root node covers one octant of its parent
    proof fn lemma_parent(&self, n: usize)
        requires
            self.wf(),
            self.bounds@.contains_key(n),
            n != self.root_node,
        ensures
            self.parent_ok(n),
            self.child_ok(self.parents@[n].0, self.parents@[n].1),
            self.bounds@[n] == spec_child_bounds(
                self.bounds@[self.parents@[n].0],
                self.parents@[n].1,
            ),
            self.bounds@[self.parents@[n].0].size == 2 * self.bounds@[n].size,
            cube_within(self.bounds@[n], self.bounds@[self.parents@[n].0]),
            self.bounds@[n].size < self.root_size,
    {
        reveal(Octree::wf);
        assert(self.node_ok(n));
        let (p, o) = self.parents@[n];
        assert(self.node_ok(p));
        self.lemma_key_bound(n);
        assert(self.child(p, o) != usize::MAX);
        assert(self.child_ok(p, o));
        lemma_child_within(self.bounds@[p], o);
    }

    /// Two nodes of the same size containing the same position are the same node
    proof fn lemma_same_size_unique(&self, a: usize, b: usize, p: V3c<u32>)
        requires
            self.wf(),
            self.bounds@.contains_key(a),
            self.bounds@.contains_key(b),
            self.bounds@[a].size == self.bounds@[b].size,
            cube_contains(self.bounds@[a], p),
            cube_contains(self.bounds@[b], p),
        ensures
            a == b,
        decreases self.root_size - self.bounds@[a].size,
    {
        reveal(Octree::wf);
        assert(self.node_ok(a));
        assert(self.node_ok(b));
        if a == self.root_node || b == self.root_node {
            if a != self.root_node {
                self.lemma_parent(a);
            }
            if b != self.root_node {
                self.lemma_parent(b);
            }
        } else {
            self.lemma_parent(a);
            self.lemma_parent(b);
            let (pa, oa) = self.parents@[a];
            let (pb, ob) = self.parents@[b];
            assert(self.node_ok(pa));
            self.lemma_same_size_unique(pa, pb, p);
            assert(cube_in_range(self.bounds@[pa]));
            lemma_octant_unique(self.bounds@[pa], p, oa);
            lemma_octant_unique(self.bounds@[pa], p, ob);
        }
    }

    /// A node containing a position in a smaller node of the tree is an ancestor of that node:
    /// it has a child in the direction of the position, and covers the smaller node
    proof fn lemma_ancestor(&self, a: usize, n: usize, p: V3c<u32>)
        requires
            self.wf(),
            self.bounds@.contains_key(a),
            self.bounds@.contains_key(n),
            self.bounds@[n].size < self.bounds@[a].size,
            cube_contains(self.bounds@[a], p),
            cube_contains(self.bounds@[n], p),
        ensures
            self.child(a, spec_octant_for(self.bounds@[a], p)) != usize::MAX,
            self.child_ok(a, spec_octant_for(self.bounds@[a], p)),
            self.nodes@[a] is None,
            cube_within(self.bounds@[n], self.bounds@[a]),
            cube_within(
                self.bounds@[n],
                self.bounds@[self.child(a, spec_octant_for(self.bounds@[a], p))],
            ),
        decreases self.bounds@[a].size - self.bounds@[n].size,
    {
        reveal(Octree::wf);
        assert(self.node_ok(a));
        assert(self.node_ok(n));
        assert(n != self.root_node);
        self.lemma_parent(n);
        let (q, o) = self.parents@[n];
        assert(self.node_ok(q));
        assert(cube_contains(self.bounds@[q], p));
        assert(cube_in_range(self.bounds@[a]));
        if self.bounds@[q].size == self.bounds@[a].size {
            self.lemma_same_size_unique(q, a, p);
            lemma_octant_unique(self.bounds@[a], p, o);
            self.lemma_key_bound(n);
        } else {
            assert(self.bounds@[q].size < self.bounds@[a].size) by {
                lemma_pow2_double_le(
                    self.bounds@[n].size as nat,
                    self.bounds@[a].size as nat,
                );
            }
            self.lemma_ancestor(a, q, p);
        }
    }

    /// A node without children has no other node of the tree inside its cube
    proof fn lemma_no_inner_nodes(&self, node: usize, k: usize)
        requires
            self.wf(),
            self.bounds@.contains_key(node),
            forall|o: int| 0 <= o < 8 ==> #[trigger] self.child(node, o) == usize::MAX,
            self.bounds@.contains_key(k),
            k != node,
        ensures
            !cube_within(self.bounds@[k], self.bounds@[node]),
    {
        reveal(Octree::wf);
        assert(self.node_ok(k));
        let kb = self.bounds@[k];
        let nb = self.bounds@[node];
        if cube_within(kb, nb) {
            assert(kb.size >= 1) by {
                reveal_with_fuel(is_power_of_two, 2);
            }
            let p = kb.min_position;
            assert(cube_contains(kb, p));
            assert(cube_contains(nb, p));
            if kb.size == nb.size {
                self.lemma_same_size_unique(k, node, p);
            } else {
                self.lemma_ancestor(node, k, p);
                assert(self.child(node, spec_octant_for(nb, p)) != usize::MAX);
                lemma_octant_contains(nb, p);
            }
        }
    }

    /// Leaves holding the same position are the same node
    proof fn lemma_leaf_unique(&self, a: usize, b: usize, p: V3c<u32>)
        requires
            self.wf(),
            self.leaf_covers(a, p),
            self.leaf_covers(b, p),
        ensures
            a == b,
    {
        if self.bounds@[a].size < self.bounds@[b].size {
            self.lemma_ancestor(b, a, p);
        } else if self.bounds@[b].size < self.bounds@[a].size {
            self.lemma_ancestor(a, b, p);
        } else {
            self.lemma_same_size_unique(a, b, p);
        }
    }

    /// The data at a position is the content of the leaf holding it
    proof fn lemma_voxel_of_leaf(&self, n: usize, p: V3c<u32>)
        requires
            self.wf(),
            self.leaf_covers(n, p),
        ensures
            self.voxel(p) == self.nodes@[n],
            self@.contains_key(p),
            self@[p] == self.nodes@[n]->0,
            self.leaf_cube(p) == self.bounds@[n],
    {
        let c = choose|k: usize| self.leaf_covers(k, p);
        self.lemma_leaf_unique(c, n, p);
    }

    /// Without a leaf holding the position, there is no data for it
    proof fn lemma_voxel_none(&self, p: V3c<u32>)
        requires
            forall|n: usize| !self.leaf_covers(n, p),
        ensures
            self.voxel(p).is_none(),
            !self@.contains_key(p),
    {
    }
}

impl<T: Copy + PartialEq> Octree<T> {
    /// Creates an empty octree covering a cube of the given size, which must be a power of two
    pub fn new(size: u32) -> (result: Result<Self, Error>)
        ensures
            match result {
                Ok(tree) => {
                    &&& is_power_of_two(size as nat)
                    &&& tree.wf()
                    &&& tree@ == Map::<V3c<u32>, T>::empty()
                    &&& tree.simplifies()
                    &&& tree.spec_size() == size
                },
                Err(e) => !is_power_of_two(size as nat) && e == Error::InvalidNodeSize(size),
            },
    {
        if !power_of_two(size) {
            // Only powers of two are valid sizes
            return Err(Error::InvalidNodeSize(size));
        }
        let capacity: usize = if size <= 8 {
            let s = size as usize;
            assert(s * s <= 64 && s * s * s <= 512) by (nonlinear_arith)
                requires
                    s <= 8,
            ;
            s * s * s
        } else {
            1024
        };
        let mut nodes = ObjectPool::<Option<T>>::with_capacity(capacity);
        let root_node = nodes.push(None);
        let mut node_children: Vec<usize> = Vec::with_capacity(8 * capacity);
        let mut i: usize = 0;
        while i < 8
            invariant
                0 <= i <= 8,
                node_children@.len() == i,
                forall|j: int| 0 <= j < i ==> node_children@[j] == usize::MAX,
            decreases 8 - i,
        {
            node_children.push(key_none_value());
            i = i + 1;
        }
        let tree = Self {
            auto_simplify: true,
            root_node,
            root_size: size,
            nodes,
            node_children,
            bounds: Ghost(Map::empty().insert(root_node, root_bounds_spec(size))),
            parents: Ghost(Map::empty()),
        };
        proof {
            reveal(Octree::wf);
            assert(root_node == 0);
            assert(tree.bounds@.dom() =~= tree.nodes@.dom());
            assert forall|n: usize| #[trigger] tree.bounds@.contains_key(n) implies tree.node_ok(
                n,
            ) by {
                assert(n == 0);
                assert(forall|o: int| 0 <= o < 8 ==> #[trigger] tree.child(n, o) == usize::MAX);
            }
            assert forall|p: V3c<u32>| !#[trigger] tree.leaf_covers(0, p) by {}
            assert(tree@ =~= Map::<V3c<u32>, T>::empty());
        }
        Ok(tree)
    }

    /// Switches on or off the merging of nodes with uniform content during updates
    pub fn set_auto_simplify(&mut self, enabled: bool)
        requires
            old(self).wf(),
        ensures
            final(self).wf(),
            final(self)@ == old(self)@,
            final(self).simplifies() == enabled,
            final(self).spec_size() == old(self).spec_size(),
    {
        self.auto_simplify = enabled;
        proof {
            let t = *old(self);
            reveal(Octree::wf);
            assert forall|n: usize| #[trigger] self.bounds@.contains_key(n) implies self.node_ok(n) by {
                assert(t.node_ok(n));
                assert forall|o: int| 0 <= o < 8 && #[trigger] self.child(n, o) != usize::MAX implies self.child_ok(
                    n,
                    o,
                ) by {
                    assert(t.child(n, o) == self.child(n, o));
                    assert(t.child_ok(n, o));
                }
                if n != self.root_node {
                    assert(t.parent_ok(n));
                }
            }
            assert forall|k: usize, o: int|
                k < self.nodes.spec_len() && !self.nodes@.contains_key(k) && 0 <= o < 8 implies #[trigger] self.child(
                k,
                o,
            ) == usize::MAX by {
                assert(t.child(k, o) == usize::MAX);
            }
            assert(self.wf());
            assert forall|p: V3c<u32>| #[trigger] self@.contains_key(p) == t@.contains_key(p) && (t@.contains_key(
                p,
            ) ==> self@[p] == t@[p]) by {
                if exists|n: usize| t.leaf_covers(n, p) {
                    let n = choose|n: usize| t.leaf_covers(n, p);
                    assert(self.leaf_covers(n, p));
                    t.lemma_voxel_of_leaf(n, p);
                    self.lemma_voxel_of_leaf(n, p);
                } else {
                    assert forall|n: usize| !self.leaf_covers(n, p) by {
                        assert(!t.leaf_covers(n, p));
                    }
                    t.lemma_voxel_none(p);
                    self.lemma_voxel_none(p);
                }
            }
            assert(self@ =~= t@);
        }
    }

    /// Getter function for the octree; returns the data at the given position, if there is any
    pub fn get(&self, position: &V3c<u32>) -> (result: Option<&T>)
        requires
            self.wf(),
        ensures
            match result {
                Some(v) => self@.contains_key(*position) && *v == self@[*position],
                None => !self@.contains_key(*position),
            },
    {
        match self.find_leaf(position) {
            Some(key) => {
                proof {
                    self.lemma_voxel_of_leaf(key, *position);
                    self.lemma_key_bound(key);
                }
                self.nodes.get(key).as_ref()
            },
            None => {
                proof {
                    self.lemma_voxel_none(*position);
                }
                None
            },
        }
    }

    /// Finds the leaf node storing the data of the given position
    fn find_leaf(&self, position: &V3c<u32>) -> (result: Option<usize>)
        requires
            self.wf(),
        ensures
            match result {
                Some(key) => self.leaf_covers(key, *position),
                None => forall|n: usize| !#[trigger] self.leaf_covers(n, *position),
            },
    {
        reveal(Octree::wf);
        let mut current_bounds = root_bounds(self.root_size);
        if !bound_contains(&current_bounds, position) {
            proof {
                assert forall|n: usize| !#[trigger] self.leaf_covers(n, *position) by {
                    if self.bounds@.contains_key(n) {
                        assert(self.node_ok(n));
                    }
                }
            }
            return None;
        }
        let mut current_node_key = self.root_node;
        loop
            invariant
                self.wf(),
                self.bounds@.contains_key(current_node_key),
                self.bounds@[current_node_key] == current_bounds,
                cube_contains(current_bounds, *position),
            decreases current_bounds.size,
        {
            proof {
                self.lemma_key_bound(current_node_key);
                self.lemma_wf_basics();
                self.lemma_node_geometry(current_node_key);
            }
            if self.nodes.get(current_node_key).is_some() {
                return Some(current_node_key);
            }
            let octant = child_octant_for(&current_bounds, position);
            let child = self.node_children[current_node_key * 8 + octant];
            if key_might_be_valid(child) {
                proof {
                    assert(self.child(current_node_key, octant as int) == child);
                    assert(self.child_ok(current_node_key, octant as int));
                    lemma_octant_contains(current_bounds, *position);
                    lemma_child_within(current_bounds, octant as int);
                }
                current_node_key = child;
                current_bounds = child_bounds_for(&current_bounds, octant);
            } else {
                proof {
                    assert(self.child(current_node_key, octant as int) == usize::MAX);
                    assert forall|n: usize| !#[trigger] self.leaf_covers(n, *position) by {
                        if self.leaf_covers(n, *position) {
                            let cur = current_node_key;
                            if self.bounds@[n].size < self.bounds@[cur].size {
                                self.lemma_ancestor(cur, n, *position);
                            } else if self.bounds@[cur].size < self.bounds@[n].size {
                                self.lemma_ancestor(n, cur, *position);
                            } else {
                                self.lemma_same_size_unique(n, cur, *position);
                            }
                        }
                    }
                }
                return None;
            }
        }
    }
}


impl<T> Octree<T> {
    /// The tree is described by the positions its leaves cover
    proof fn lemma_view_from_leaves(&self, target: Map<V3c<u32>, T>)
        requires
            self.wf(),
            forall|p: V3c<u32>|
                #[trigger] target.contains_key(p) ==> exists|n: usize|
                    self.leaf_covers(n, p) && self.nodes@[n] == Some(target[p]),
            forall|p: V3c<u32>, n: usize|
                !#[trigger] target.contains_key(p) ==> !#[trigger] self.leaf_covers(n, p),
        ensures
            self@ == target,
    {
        assert forall|p: V3c<u32>| #[trigger]
            self@.contains_key(p) == target.contains_key(p) && (target.contains_key(p)
                ==> self@[p] == target[p]) by {
            if target.contains_key(p) {
                let n = choose|n: usize| self.leaf_covers(n, p) && self.nodes@[n] == Some(target[p]);
                self.lemma_voxel_of_leaf(n, p);
            } else {
                self.lemma_voxel_none(p);
            }
        }
        assert(self@ =~= target);
    }

    /// A position holding data is held by a leaf
    proof fn lemma_leaf_of_voxel(&self, p: V3c<u32>) -> (n: usize)
        requires
            self.wf(),
            self@.contains_key(p),
        ensures
            self.leaf_covers(n, p),
            self.nodes@[n] == Some(self@[p]),
    {
        let n = choose|n: usize| self.leaf_covers(n, p);
        self.lemma_voxel_of_leaf(n, p);
        n
    }

    /// The cube of a node lies within the tree, so it is within the range of coordinates
    proof fn lemma_node_geometry(&self, n: usize)
        requires
            self.wf(),
            self.bounds@.contains_key(n),
        ensures
            cube_in_range(self.bounds@[n]),
            cube_aligned(self.bounds@[n]),
            is_power_of_two(self.bounds@[n].size as nat),
            self.bounds@[n].size <= self.root_size,
            cube_within(self.bounds@[n], self.root_cube()),
            self.node_ok(n),
    {
        reveal(Octree::wf);
        assert(self.node_ok(n));
    }

    /// Positions in a node without children, which is not a leaf, hold no data
    proof fn lemma_empty_node(&self, n: usize, p: V3c<u32>, l: usize)
        requires
            self.wf(),
            self.bounds@.contains_key(n),
            cube_contains(self.bounds@[n], p),
            forall|o: int| 0 <= o < 8 ==> #[trigger] self.child(n, o) == usize::MAX,
            self.leaf_covers(l, p),
        ensures
            l == n,
    {
        if self.bounds@[l].size < self.bounds@[n].size {
            self.lemma_ancestor(n, l, p);
            assert(false);
        } else if self.bounds@[n].size < self.bounds@[l].size {
            self.lemma_ancestor(l, n, p);
            assert(false);
        } else {
            self.lemma_same_size_unique(l, n, p);
        }
    }

    /// Positions in an octant of a node where the node has no child hold no data
    proof fn lemma_missing_child(&self, n: usize, p: V3c<u32>, l: usize)
        requires
            self.wf(),
            self.bounds@.contains_key(n),
            self.nodes@[n] is None,
            cube_contains(self.bounds@[n], p),
            self.child(n, spec_octant_for(self.bounds@[n], p)) == usize::MAX,
        ensures
            !self.leaf_covers(l, p),
    {
        if self.leaf_covers(l, p) {
            if self.bounds@[l].size < self.bounds@[n].size {
                self.lemma_ancestor(n, l, p);
            } else if self.bounds@[n].size < self.bounds@[l].size {
                self.lemma_ancestor(l, n, p);
            } else {
                self.lemma_same_size_unique(l, n, p);
            }
        }
    }

    /// The tree stays well formed after a new node is linked in as a child of an internal node
    #[verifier::rlimit(40)]
    proof fn lemma_added_child_wf(
        &self,
        old_t: Self,
        node: usize,
        octant: usize,
        key: usize,
        content: Option<T>,
        old_len: nat,
    )
        requires
            old_t.wf(),
            old_t.bounds@.contains_key(node),
            octant < 8,
            old_t.nodes@[node] is None,
            cube_divisible(old_t.bounds@[node]),
            old_t.child(node, octant as int) == usize::MAX,
            old_len == old_t.nodes.spec_len(),
            !old_t.nodes@.contains_key(key),
            key < self.nodes.spec_len(),
            key < old_len ==> self.nodes.spec_len() == old_len,
            key >= old_len ==> key == old_len && self.nodes.spec_len() == old_len + 1,
            self.nodes.wf(),
            self.nodes@ == old_t.nodes@.insert(key, content),
            self.node_children@.len() == 8 * self.nodes.spec_len(),
            self.node_children@.len() <= usize::MAX,
            self.node_children@ == old_t.node_children@.update(node * 8 + octant, key).add(
                self.node_children@.subrange(
                    old_t.node_children@.len() as int,
                    self.node_children@.len() as int,
                ),
            ),
            forall|i: int|
                old_t.node_children@.len() <= i < self.node_children@.len()
                    ==> #[trigger] self.node_children@[i] == usize::MAX,
            self.bounds@ == old_t.bounds@.insert(
                key,
                spec_child_bounds(old_t.bounds@[node], octant as int),
            ),
            self.parents@ == old_t.parents@.insert(key, (node, octant as int)),
            self.root_node == old_t.root_node,
            self.root_size == old_t.root_size,
        ensures
            self.wf(),
            self.child(node, octant as int) == key,
            forall|o: int| 0 <= o < 8 ==> #[trigger] self.child(key, o) == usize::MAX,
            forall|n: usize, o: int|
                #[trigger] old_t.bounds@.contains_key(n) && 0 <= o < 8 && (n != node || o
                    != octant) ==> #[trigger] self.child(n, o) == old_t.child(n, o),
    {
        reveal(Octree::wf);
        let cb = spec_child_bounds(old_t.bounds@[node], octant as int);
        old_t.lemma_key_bound(node);
        old_t.lemma_node_geometry(node);
        lemma_child_within(old_t.bounds@[node], octant as int);
        lemma_child_aligned(old_t.bounds@[node], octant as int);
        lemma_pow2_half(old_t.bounds@[node].size as nat);
        lemma_within_transitive(cb, old_t.bounds@[node], old_t.root_cube());
        let olen = old_t.node_children@.len();
        assert forall|i: int| 0 <= i < olen && i != node * 8 + octant implies #[trigger]
            self.node_children@[i] == old_t.node_children@[i] by {}
        assert(self.node_children@[node * 8 + octant] == key);
        assert forall|n: usize, o: int|
            #[trigger] old_t.bounds@.contains_key(n) && 0 <= o < 8 && (n != node || o != octant)
                implies #[trigger] self.child(n, o) == old_t.child(n, o) by {
            old_t.lemma_key_bound(n);
            assert(n * 8 + o != node * 8 + octant) by (nonlinear_arith)
                requires
                    0 <= o < 8,
                    octant < 8,
                    n != node || o != octant,
            ;
        }
        assert forall|o: int| 0 <= o < 8 implies #[trigger] self.child(key, o) == usize::MAX by {
            assert(key * 8 + o != node * 8 + octant) by (nonlinear_arith)
                requires
                    0 <= o < 8,
                    octant < 8,
                    key != node,
            ;
            if key < old_len {
                assert(old_t.child(key, o) == usize::MAX);
                assert(key * 8 + o < olen) by (nonlinear_arith)
                    requires
                        key < old_len,
                        olen == 8 * old_len,
                        0 <= o < 8,
                ;
            } else {
                assert(key * 8 + o >= olen) by (nonlinear_arith)
                    requires
                        key >= old_len,
                        olen == 8 * old_len,
                        0 <= o < 8,
                ;
            }
        }
        assert(self.bounds@.dom() =~= self.nodes@.dom());
        assert forall|n: usize| #[trigger] self.bounds@.contains_key(n) implies self.node_ok(n) by {
            if n == key {
                assert(self.parent_ok(n));
            } else {
                assert(old_t.node_ok(n));
                assert forall|o: int|
                    0 <= o < 8 && #[trigger] self.child(n, o) != usize::MAX implies self.child_ok(
                    n,
                    o,
                ) by {
                    if n == node && o == octant {
                    } else {
                        assert(old_t.child(n, o) != usize::MAX);
                        assert(old_t.child_ok(n, o));
                    }
                }
                if n != self.root_node {
                    assert(old_t.parent_ok(n));
                    let (pn, po) = old_t.parents@[n];
                    old_t.lemma_key_bound(n);
                    if pn == node && po == octant {
                        assert(false);
                    }
                    assert(self.child(pn, po) == n);
                }
            }
        }
        assert forall|k: usize, o: int|
            k < self.nodes.spec_len() && !self.nodes@.contains_key(k) && 0 <= o < 8
                implies #[trigger] self.child(k, o) == usize::MAX by {
            assert(k < old_len);
            assert(old_t.child(k, o) == usize::MAX);
            assert(k * 8 + o != node * 8 + octant) by (nonlinear_arith)
                requires
                    0 <= o < 8,
                    octant < 8,
                    k != node,
            ;
            assert(k * 8 + o < olen) by (nonlinear_arith)
                requires
                    k < old_len,
                    olen == 8 * old_len,
                    0 <= o < 8,
            ;
        }
    }

    /// Linking in a new empty node keeps the data, linking in a new leaf fills its cube
    proof fn lemma_added_child_view(
        &self,
        old_t: Self,
        node: usize,
        octant: usize,
        key: usize,
        content: Option<T>,
    )
        requires
            old_t.wf(),
            self.wf(),
            old_t.bounds@.contains_key(node),
            !old_t.bounds@.contains_key(key),
            self.nodes@ == old_t.nodes@.insert(key, content),
            self.bounds@ == old_t.bounds@.insert(
                key,
                spec_child_bounds(old_t.bounds@[node], octant as int),
            ),
        ensures
            content is None ==> self@ == old_t@,
            content is Some ==> self@ == cube_filled(
                old_t@,
                spec_child_bounds(old_t.bounds@[node], octant as int),
                content->0,
            ),
    {
        let cb = spec_child_bounds(old_t.bounds@[node], octant as int);
        if content is None {
            assert forall|p: V3c<u32>|
                #[trigger] old_t@.contains_key(p) implies exists|n: usize|
                    self.leaf_covers(n, p) && self.nodes@[n] == Some(old_t@[p]) by {
                let n = old_t.lemma_leaf_of_voxel(p);
                assert(self.leaf_covers(n, p));
            }
            assert forall|p: V3c<u32>, n: usize|
                !#[trigger] old_t@.contains_key(p) implies !#[trigger] self.leaf_covers(n, p) by {
                if self.leaf_covers(n, p) {
                    assert(old_t.leaf_covers(n, p));
                    old_t.lemma_voxel_of_leaf(n, p);
                }
            }
            self.lemma_view_from_leaves(old_t@);
        } else {
            let target = cube_filled(old_t@, cb, content->0);
            assert forall|p: V3c<u32>|
                #[trigger] target.contains_key(p) implies exists|n: usize|
                    self.leaf_covers(n, p) && self.nodes@[n] == Some(target[p]) by {
                if cube_contains(cb, p) {
                    assert(self.leaf_covers(key, p));
                } else {
                    let n = old_t.lemma_leaf_of_voxel(p);
                    assert(self.leaf_covers(n, p));
                }
            }
            assert forall|p: V3c<u32>, n: usize|
                !#[trigger] target.contains_key(p) implies !#[trigger] self.leaf_covers(n, p) by {
                if self.leaf_covers(n, p) {
                    assert(n != key);
                    assert(old_t.leaf_covers(n, p));
                    old_t.lemma_voxel_of_leaf(n, p);
                }
            }
            self.lemma_view_from_leaves(target);
        }
    }

    /// Extends the children buffer to hold an entry for every slot of the node pool
    fn sync_children_len(&mut self)
        requires
            old(self).node_children@.len() % 8 == 0,
            old(self).node_children@.len() <= 8 * old(self).nodes.spec_len(),
            old(self).nodes.spec_len() <= old(self).node_children@.len() / 8 + 1,
        ensures
            final(self).node_children@.len() == 8 * final(self).nodes.spec_len(),
            final(self).node_children@.len() <= usize::MAX,
            final(self).node_children@.subrange(0, old(self).node_children@.len() as int)
                == old(self).node_children@,
            forall|i: int|
                old(self).node_children@.len() <= i < final(self).node_children@.len()
                    ==> #[trigger] final(self).node_children@[i] == usize::MAX,
            final(self).nodes == old(self).nodes,
            final(self).bounds == old(self).bounds,
            final(self).parents == old(self).parents,
            final(self).root_node == old(self).root_node,
            final(self).root_size == old(self).root_size,
            final(self).auto_simplify == old(self).auto_simplify,
    {
        while self.node_children.len() / 8 < self.nodes.len()
            invariant
                self.nodes == old(self).nodes,
                self.bounds == old(self).bounds,
                self.parents == old(self).parents,
                self.root_node == old(self).root_node,
                self.root_size == old(self).root_size,
                self.auto_simplify == old(self).auto_simplify,
                old(self).node_children@.len() <= self.node_children@.len() <= 8
                    * old(self).nodes.spec_len(),
                self.node_children@.subrange(0, old(self).node_children@.len() as int)
                    == old(self).node_children@,
                forall|i: int|
                    old(self).node_children@.len() <= i < self.node_children@.len()
                        ==> #[trigger] self.node_children@[i] == usize::MAX,
            decreases 8 * old(self).nodes.spec_len() - self.node_children@.len(),
        {
            self.node_children.push(key_none_value());
        }
        assert(self.node_children.len() == self.node_children@.len());
    }
}

impl<T> Octree<T> {
    /// Inserts a new node as the child of the given internal node at the given octant
    fn add_child_node(&mut self, node: usize, octant: usize, content: Option<T>) -> (key: usize)
        requires
            old(self).wf(),
            old(self).bounds@.contains_key(node),
            octant < 8,
            old(self).nodes@[node] is None,
            cube_divisible(old(self).bounds@[node]),
            old(self).child(node, octant as int) == usize::MAX,
        ensures
            final(self).wf(),
            !old(self).bounds@.contains_key(key),
            final(self).bounds@ == old(self).bounds@.insert(
                key,
                spec_child_bounds(old(self).bounds@[node], octant as int),
            ),
            final(self).nodes@ == old(self).nodes@.insert(key, content),
            final(self).child(node, octant as int) == key,
            forall|o: int| 0 <= o < 8 ==> #[trigger] final(self).child(key, o) == usize::MAX,
            forall|n: usize, o: int|
                #[trigger] old(self).bounds@.contains_key(n) && 0 <= o < 8 && (n != node || o
                    != octant) ==> #[trigger] final(self).child(n, o) == old(self).child(n, o),
            final(self).root_node == old(self).root_node,
            final(self).root_size == old(self).root_size,
            final(self).auto_simplify == old(self).auto_simplify,
            content is None ==> final(self)@ == old(self)@,
            content is Some ==> final(self)@ == cube_filled(
                old(self)@,
                spec_child_bounds(old(self).bounds@[node], octant as int),
                content->0,
            ),
    {
        let ghost old_len = self.nodes.spec_len();
        proof {
            self.lemma_key_bound(node);
            self.lemma_wf_basics();
        }
        let key = self.nodes.push(content);
        self.sync_children_len();
        proof {
            self.nodes.lemma_keys_below_len();
        }
        self.node_children.set(node * 8 + octant, key);
        let ghost cb = spec_child_bounds(old(self).bounds@[node], octant as int);
        self.bounds = Ghost(self.bounds@.insert(key, cb));
        self.parents = Ghost(self.parents@.insert(key, (node, octant as int)));
        proof {
            let olen = old(self).node_children@.len() as int;
            assert(self.node_children@ =~= old(self).node_children@.update(
                node * 8 + octant,
                key,
            ).add(self.node_children@.subrange(olen, self.node_children@.len() as int)));
            self.lemma_added_child_wf(*old(self), node, octant, key, content, old_len);
            self.lemma_added_child_view(*old(self), node, octant, key, content);
        }
        key
    }
}


impl<T> Octree<T> {
    /// Sets the content of a node without children
    fn set_content(&mut self, node: usize, content: Option<T>)
        requires
            old(self).wf(),
            old(self).bounds@.contains_key(node),
            forall|o: int| 0 <= o < 8 ==> #[trigger] old(self).child(node, o) == usize::MAX,
        ensures
            final(self).wf(),
            final(self).nodes@ == old(self).nodes@.insert(node, content),
            final(self).bounds == old(self).bounds,
            final(self).parents == old(self).parents,
            final(self).node_children == old(self).node_children,
            final(self).root_node == old(self).root_node,
            final(self).root_size == old(self).root_size,
            final(self).auto_simplify == old(self).auto_simplify,
            content is None ==> final(self)@ == cube_cleared(
                old(self)@,
                old(self).bounds@[node],
            ),
            content is Some ==> final(self)@ == cube_filled(
                old(self)@,
                old(self).bounds@[node],
                content->0,
            ),
    {
        proof {
            self.lemma_wf_basics();
        }
        self.nodes.set(node, content);
        proof {
            self.lemma_content_set(*old(self), node, content);
        }
    }

    /// Replacing the content of a node without children keeps the tree well formed; the cube
    /// of the node then holds the new content
    #[verifier::rlimit(40)]
    proof fn lemma_content_set(&self, old_t: Self, node: usize, content: Option<T>)
        requires
            old_t.wf(),
            old_t.bounds@.contains_key(node),
            forall|o: int| 0 <= o < 8 ==> #[trigger] old_t.child(node, o) == usize::MAX,
            self.nodes.wf(),
            self.nodes.spec_len() == old_t.nodes.spec_len(),
            self.nodes@ == old_t.nodes@.insert(node, content),
            self.bounds == old_t.bounds,
            self.parents == old_t.parents,
            self.node_children == old_t.node_children,
            self.root_node == old_t.root_node,
            self.root_size == old_t.root_size,
        ensures
            self.wf(),
            content is None ==> self@ == cube_cleared(old_t@, old_t.bounds@[node]),
            content is Some ==> self@ == cube_filled(old_t@, old_t.bounds@[node], content->0),
    {
        reveal(Octree::wf);
        assert forall|o: int| 0 <= o < 8 implies #[trigger] self.child(node, o) == usize::MAX by {
            assert(old_t.child(node, o) == usize::MAX);
        }
        assert(self.bounds@.dom() =~= self.nodes@.dom());
        assert forall|n: usize| #[trigger] self.bounds@.contains_key(n) implies self.node_ok(
            n,
        ) by {
            assert(old_t.node_ok(n));
            assert forall|o: int|
                0 <= o < 8 && #[trigger] self.child(n, o) != usize::MAX implies self.child_ok(
                n,
                o,
            ) by {
                assert(old_t.child(n, o) != usize::MAX);
                assert(old_t.child_ok(n, o));
            }
            if n != self.root_node {
                assert(old_t.parent_ok(n));
            }
        }
        assert forall|k: usize, o: int|
            k < self.nodes.spec_len() && !self.nodes@.contains_key(k) && 0 <= o < 8
                implies #[trigger] self.child(k, o) == usize::MAX by {
            assert(old_t.child(k, o) == usize::MAX);
        }
        assert(self.wf());
        let c = old_t.bounds@[node];
        let target = if content is None {
            cube_cleared(old_t@, c)
        } else {
            cube_filled(old_t@, c, content->0)
        };
        assert forall|p: V3c<u32>|
            #[trigger] target.contains_key(p) implies exists|n: usize|
                self.leaf_covers(n, p) && self.nodes@[n] == Some(target[p]) by {
            if cube_contains(c, p) {
                assert(self.leaf_covers(node, p));
            } else {
                let n = old_t.lemma_leaf_of_voxel(p);
                assert(self.leaf_covers(n, p));
            }
        }
        assert forall|p: V3c<u32>, n: usize|
            !#[trigger] target.contains_key(p) implies !#[trigger] self.leaf_covers(n, p) by {
            if self.leaf_covers(n, p) {
                if cube_contains(c, p) {
                    self.lemma_empty_node(node, p, n);
                } else {
                    assert(old_t.leaf_covers(n, p));
                    old_t.lemma_voxel_of_leaf(n, p);
                }
            }
        }
        self.lemma_view_from_leaves(target);
    }

    /// Removes the child without children of the given node from the tree
    fn detach_child(&mut self, node: usize, octant: usize)
        requires
            old(self).wf(),
            old(self).bounds@.contains_key(node),
            octant < 8,
            old(self).child(node, octant as int) != usize::MAX,
            forall|o: int|
                0 <= o < 8 ==> #[trigger] old(self).child(old(self).child(node, octant as int), o)
                    == usize::MAX,
        ensures
            final(self).wf(),
            final(self).bounds@ == old(self).bounds@.remove(old(self).child(node, octant as int)),
            final(self).nodes@ == old(self).nodes@.remove(old(self).child(node, octant as int)),
            final(self).child(node, octant as int) == usize::MAX,
            forall|n: usize, o: int|
                #[trigger] final(self).bounds@.contains_key(n) && 0 <= o < 8 && (n != node || o
                    != octant) ==> #[trigger] final(self).child(n, o) == old(self).child(n, o),
            final(self).root_node == old(self).root_node,
            final(self).root_size == old(self).root_size,
            final(self).auto_simplify == old(self).auto_simplify,
            final(self)@ == cube_cleared(
                old(self)@,
                old(self).bounds@[old(self).child(node, octant as int)],
            ),
    {
        proof {
            self.lemma_key_bound(node);
            self.lemma_wf_basics();
        }
        let child = self.node_children[node * 8 + octant];
        self.node_children.set(node * 8 + octant, key_none_value());
        self.nodes.free(child);
        self.bounds = Ghost(self.bounds@.remove(child));
        self.parents = Ghost(self.parents@.remove(child));
        proof {
            self.lemma_detached_child(*old(self), node, octant, child);
        }
    }

    /// Detaching a child without children from its parent keeps the tree well formed, and
    /// leaves the voxels of the tree as they were
    #[verifier::rlimit(40)]
    proof fn lemma_detached_child(&self, old_t: Self, node: usize, octant: usize, child: usize)
        requires
            old_t.wf(),
            old_t.bounds@.contains_key(node),
            octant < 8,
            child == old_t.child(node, octant as int),
            child != usize::MAX,
            forall|o: int| 0 <= o < 8 ==> #[trigger] old_t.child(child, o) == usize::MAX,
            self.nodes.wf(),
            self.nodes.spec_len() == old_t.nodes.spec_len(),
            self.nodes@ == old_t.nodes@.remove(child),
            self.node_children@ == old_t.node_children@.update(node * 8 + octant, usize::MAX),
            self.bounds@ == old_t.bounds@.remove(child),
            self.parents@ == old_t.parents@.remove(child),
            self.root_node == old_t.root_node,
            self.root_size == old_t.root_size,
        ensures
            self.wf(),
            self.child(node, octant as int) == usize::MAX,
            forall|n: usize, o: int|
                #[trigger] self.bounds@.contains_key(n) && 0 <= o < 8 && (n != node || o
                    != octant) ==> #[trigger] self.child(n, o) == old_t.child(n, o),
            self@ == cube_cleared(old_t@, old_t.bounds@[child]),
    {
        reveal(Octree::wf);
        old_t.lemma_key_bound(node);
        assert(old_t.node_ok(node));
        assert(old_t.child_ok(node, octant as int));
        old_t.lemma_parent(child);
        let cc = old_t.bounds@[child];
        old_t.lemma_node_geometry(child);
        assert(child != old_t.root_node);
        assert forall|n: usize, o: int|
            #[trigger] old_t.bounds@.contains_key(n) && 0 <= o < 8 && (n != node || o != octant)
                implies #[trigger] self.child(n, o) == old_t.child(n, o) by {
            old_t.lemma_key_bound(n);
            assert(n * 8 + o != node * 8 + octant) by (nonlinear_arith)
                requires
                    0 <= o < 8,
                    octant < 8,
                    n != node || o != octant,
            ;
        }
        // the child has no other parent
        assert forall|n: usize, o: int|
            old_t.bounds@.contains_key(n) && 0 <= o < 8 && #[trigger] old_t.child(n, o) == child
                implies n == node && o == octant by {
            assert(old_t.node_ok(n));
            assert(old_t.child_ok(n, o));
            old_t.lemma_node_geometry(n);
            lemma_child_within(old_t.bounds@[n], o);
            lemma_child_within(old_t.bounds@[node], octant as int);
            let mp = cc.min_position;
            assert(cube_contains(cc, mp));
            old_t.lemma_same_size_unique(n, node, mp);
            lemma_octant_unique(old_t.bounds@[node], mp, o);
            lemma_octant_unique(old_t.bounds@[node], mp, octant as int);
        }
        assert(self.bounds@.dom() =~= self.nodes@.dom());
        assert forall|n: usize| #[trigger] self.bounds@.contains_key(n) implies self.node_ok(n) by {
            assert(old_t.node_ok(n));
            assert forall|o: int|
                0 <= o < 8 && #[trigger] self.child(n, o) != usize::MAX implies self.child_ok(
                n,
                o,
            ) by {
                assert(old_t.child(n, o) != usize::MAX);
                assert(old_t.child_ok(n, o));
                assert(old_t.child(n, o) != child);
            }
            if n != self.root_node {
                assert(old_t.parent_ok(n));
                let (pn, po) = old_t.parents@[n];
                old_t.lemma_key_bound(n);
                assert(pn != child);
                assert(self.child(pn, po) == n);
            }
        }
        assert forall|k: usize, o: int|
            k < self.nodes.spec_len() && !self.nodes@.contains_key(k) && 0 <= o < 8
                implies #[trigger] self.child(k, o) == usize::MAX by {
            if k == child {
                assert(child * 8 + o != node * 8 + octant) by (nonlinear_arith)
                    requires
                        0 <= o < 8,
                        octant < 8,
                        child != node,
                ;
                assert(old_t.child(child, o) == usize::MAX);
            } else {
                assert(old_t.child(k, o) == usize::MAX);
                if k * 8 + o == node * 8 + octant {
                } else {
                    assert(k * 8 + o < old_t.node_children@.len()) by (nonlinear_arith)
                        requires
                            k < old_t.nodes.spec_len(),
                            old_t.node_children@.len() == 8 * old_t.nodes.spec_len(),
                            0 <= o < 8,
                    ;
                }
            }
        }
        assert(self.wf());
        let target = cube_cleared(old_t@, cc);
        assert forall|p: V3c<u32>|
            #[trigger] target.contains_key(p) implies exists|n: usize|
                self.leaf_covers(n, p) && self.nodes@[n] == Some(target[p]) by {
            let n = old_t.lemma_leaf_of_voxel(p);
            assert(n != child);
            assert(self.leaf_covers(n, p));
        }
        assert forall|p: V3c<u32>, n: usize|
            !#[trigger] target.contains_key(p) implies !#[trigger] self.leaf_covers(n, p) by {
            if self.leaf_covers(n, p) {
                assert(old_t.leaf_covers(n, p));
                if cube_contains(cc, p) {
                    old_t.lemma_empty_node(child, p, n);
                } else {
                    old_t.lemma_voxel_of_leaf(n, p);
                }
            }
        }
        self.lemma_view_from_leaves(target);
    }
}

/// The positions of the cube lying in its octants before the given one
pub open spec fn octants_before(c: Cube, octant: int) -> Set<V3c<u32>> {
    Set::new(|q: V3c<u32>| cube_contains(c, q) && spec_octant_for(c, q) < octant)
}

impl<T> Octree<T> {
    /// Erase all children of the node under the given key, and set its children to "No children"
    #[verifier::rlimit(100)]
    fn deallocate_children_of(&mut self, node: usize)
        requires
            old(self).wf(),
            old(self).bounds@.contains_key(node),
        ensures
            final(self).wf(),
            final(self).bounds@.contains_key(node),
            forall|o: int| 0 <= o < 8 ==> #[trigger] final(self).child(node, o) == usize::MAX,
            forall|k: usize| #[trigger]
                final(self).bounds@.contains_key(k) ==> old(self).bounds@.contains_key(k)
                    && final(self).bounds@[k] == old(self).bounds@[k] && final(self).nodes@[k]
                    == old(self).nodes@[k],
            forall|k: usize|
                #[trigger] old(self).bounds@.contains_key(k) && (k == node || !cube_within(
                    old(self).bounds@[k],
                    old(self).bounds@[node],
                )) ==> final(self).bounds@.contains_key(k),
            forall|k: usize, o: int|
                #[trigger] final(self).bounds@.contains_key(k) && k != node && 0 <= o < 8
                    ==> #[trigger] final(self).child(k, o) == old(self).child(k, o),
            final(self).root_node == old(self).root_node,
            final(self).root_size == old(self).root_size,
            final(self).auto_simplify == old(self).auto_simplify,
            old(self).nodes@[node] is None ==> final(self)@ == cube_cleared(
                old(self)@,
                old(self).bounds@[node],
            ),
            old(self).nodes@[node] is Some ==> final(self)@ == old(self)@,
            forall|k: usize|
                #[trigger] old(self).bounds@.contains_key(k) && k != node && cube_within(
                    old(self).bounds@[k],
                    old(self).bounds@[node],
                ) ==> !final(self).nodes@.contains_key(k),
        decreases old(self).bounds@[node].size,
    {
        let ghost old_t = *old(self);
        let ghost nb = old_t.bounds@[node];
        let mut octant: usize = 0;
        while octant < 8
            invariant
                old_t == *old(self),
                old_t.wf(),
                old_t.bounds@.contains_key(node),
                nb == old_t.bounds@[node],
                0 <= octant <= 8,
                self.wf(),
                self.bounds@.contains_key(node),
                self.bounds@[node] == nb,
                self.nodes@[node] == old_t.nodes@[node],
                forall|o: int| 0 <= o < octant ==> #[trigger] self.child(node, o) == usize::MAX,
                forall|o: int|
                    octant <= o < 8 ==> #[trigger] self.child(node, o) == old_t.child(node, o),
                forall|k: usize| #[trigger]
                    self.bounds@.contains_key(k) ==> old_t.bounds@.contains_key(k)
                        && self.bounds@[k] == old_t.bounds@[k] && self.nodes@[k]
                        == old_t.nodes@[k],
                forall|k: usize|
                    #[trigger] old_t.bounds@.contains_key(k) && (k == node || !cube_within(
                        old_t.bounds@[k],
                        nb,
                    ) || spec_octant_for(nb, old_t.bounds@[k].min_position) >= octant)
                        ==> self.bounds@.contains_key(k),
                forall|k: usize, o: int|
                    #[trigger] self.bounds@.contains_key(k) && k != node && 0 <= o < 8
                        ==> #[trigger] self.child(k, o) == old_t.child(k, o),
                self.root_node == old_t.root_node,
                self.root_size == old_t.root_size,
                self.auto_simplify == old_t.auto_simplify,
                old_t.nodes@[node] is None ==> self@ == old_t@.remove_keys(
                    octants_before(nb, octant as int),
                ),
                old_t.nodes@[node] is Some ==> self@ == old_t@,
            decreases 8 - octant,
        {
            proof {
                self.lemma_key_bound(node);
                self.lemma_wf_basics();
                self.lemma_node_geometry(node);
            }
            let child = self.node_children[node * 8 + octant];
            let ghost before = *self;
            if key_might_be_valid(child) {
                proof {
                    assert(self.child(node, octant as int) == child);
                    self.lemma_child(node, octant as int);
                    lemma_child_within(nb, octant as int);
                }
                self.deallocate_children_of(child);
                let ghost mid = *self;
                proof {
                    assert(self.bounds@.contains_key(node)) by {
                        if cube_within(nb, before.bounds@[child]) {
                            assert(false);
                        }
                    }
                    assert(self.child(node, octant as int) == child);
                }
                self.detach_child(node, octant);
                proof {
                    self.lemma_dealloc_after(old_t, before, mid, node, octant, child);
                }
            } else {
                proof {
                    before.lemma_dealloc_skip(old_t, node, octant);
                }
            }
            octant = octant + 1;
        }
        proof {
            if old_t.nodes@[node] is None {
                assert(octants_before(nb, 8) =~= Set::new(|q: V3c<u32>| cube_contains(nb, q)))
                    by {
                    assert forall|q: V3c<u32>| cube_contains(nb, q) implies spec_octant_for(nb, q)
                        < 8 by {}
                }
            }
            assert forall|k: usize|
                #[trigger] old_t.bounds@.contains_key(k) && k != node && cube_within(
                    old_t.bounds@[k],
                    nb,
                ) implies !self.nodes@.contains_key(k) by {
                reveal(Octree::wf);
                if self.bounds@.contains_key(k) {
                    self.lemma_no_inner_nodes(node, k);
                }
            }
        }
    }

    /// After erasing a child and its descendants, the loop invariant of the erasure holds again
    #[verifier::rlimit(60)]
    proof fn lemma_dealloc_after(
        &self,
        old_t: Self,
        before: Self,
        mid: Self,
        node: usize,
        octant: usize,
        child: usize,
    )
        requires
            old_t.wf(),
            before.wf(),
            octant < 8,
            old_t.bounds@.contains_key(node),
            before.bounds@.contains_key(node),
            before.bounds@[node] == old_t.bounds@[node],
            before.nodes@[node] == old_t.nodes@[node],
            forall|o: int| 0 <= o < octant ==> #[trigger] before.child(node, o) == usize::MAX,
            forall|o: int|
                octant <= o < 8 ==> #[trigger] before.child(node, o) == old_t.child(node, o),
            forall|k: usize| #[trigger]
                before.bounds@.contains_key(k) ==> old_t.bounds@.contains_key(k)
                    && before.bounds@[k] == old_t.bounds@[k] && before.nodes@[k]
                    == old_t.nodes@[k],
            forall|k: usize|
                #[trigger] old_t.bounds@.contains_key(k) && (k == node || !cube_within(
                    old_t.bounds@[k],
                    old_t.bounds@[node],
                ) || spec_octant_for(old_t.bounds@[node], old_t.bounds@[k].min_position)
                    >= octant) ==> before.bounds@.contains_key(k),
            forall|k: usize, o: int|
                #[trigger] before.bounds@.contains_key(k) && k != node && 0 <= o < 8
                    ==> #[trigger] before.child(k, o) == old_t.child(k, o),
            old_t.nodes@[node] is None ==> before@ == old_t@.remove_keys(
                octants_before(old_t.bounds@[node], octant as int),
            ),
            old_t.nodes@[node] is Some ==> before@ == old_t@,
            before.child(node, octant as int) == child,
            child != usize::MAX,
            before.child_ok(node, octant as int),
            // erasing the descendants of the child
            mid.wf(),
            mid.bounds@.contains_key(child),
            forall|o: int| 0 <= o < 8 ==> #[trigger] mid.child(child, o) == usize::MAX,
            forall|k: usize| #[trigger]
                mid.bounds@.contains_key(k) ==> before.bounds@.contains_key(k)
                    && mid.bounds@[k] == before.bounds@[k] && mid.nodes@[k] == before.nodes@[k],
            forall|k: usize|
                #[trigger] before.bounds@.contains_key(k) && (k == child || !cube_within(
                    before.bounds@[k],
                    before.bounds@[child],
                )) ==> mid.bounds@.contains_key(k),
            forall|k: usize, o: int|
                #[trigger] mid.bounds@.contains_key(k) && k != child && 0 <= o < 8
                    ==> #[trigger] mid.child(k, o) == before.child(k, o),
            before.nodes@[child] is None ==> mid@ == cube_cleared(
                before@,
                before.bounds@[child],
            ),
            before.nodes@[child] is Some ==> mid@ == before@,
            mid.root_node == before.root_node,
            // detaching the child
            self.wf(),
            self.bounds@ == mid.bounds@.remove(child),
            self.nodes@ == mid.nodes@.remove(child),
            self.child(node, octant as int) == usize::MAX,
            forall|n: usize, o: int|
                #[trigger] self.bounds@.contains_key(n) && 0 <= o < 8 && (n != node || o
                    != octant) ==> #[trigger] self.child(n, o) == mid.child(n, o),
            self@ == cube_cleared(mid@, mid.bounds@[child]),
        ensures
            self.bounds@.contains_key(node),
            self.bounds@[node] == old_t.bounds@[node],
            self.nodes@[node] == old_t.nodes@[node],
            forall|o: int| 0 <= o < octant + 1 ==> #[trigger] self.child(node, o) == usize::MAX,
            forall|o: int|
                octant + 1 <= o < 8 ==> #[trigger] self.child(node, o) == old_t.child(node, o),
            forall|k: usize| #[trigger]
                self.bounds@.contains_key(k) ==> old_t.bounds@.contains_key(k)
                    && self.bounds@[k] == old_t.bounds@[k] && self.nodes@[k] == old_t.nodes@[k],
            forall|k: usize|
                #[trigger] old_t.bounds@.contains_key(k) && (k == node || !cube_within(
                    old_t.bounds@[k],
                    old_t.bounds@[node],
                ) || spec_octant_for(old_t.bounds@[node], old_t.bounds@[k].min_position)
                    >= octant + 1) ==> self.bounds@.contains_key(k),
            forall|k: usize, o: int|
                #[trigger] self.bounds@.contains_key(k) && k != node && 0 <= o < 8
                    ==> #[trigger] self.child(k, o) == old_t.child(k, o),
            old_t.nodes@[node] is None ==> self@ == old_t@.remove_keys(
                octants_before(old_t.bounds@[node], octant + 1),
            ),
            old_t.nodes@[node] is Some ==> self@ == old_t@,
    {
        let nb = old_t.bounds@[node];
        let cb = before.bounds@[child];
        before.lemma_node_geometry(node);
        lemma_child_within(nb, octant as int);
        assert(mid.bounds@.contains_key(node)) by {
            if cube_within(nb, cb) {
                assert(false);
            }
        }
        assert(self.bounds@.contains_key(node));
        assert forall|o: int| 0 <= o < octant + 1 implies #[trigger] self.child(node, o)
            == usize::MAX by {
            if o != octant {
                assert(mid.child(node, o) == before.child(node, o));
            }
        }
        assert forall|o: int| octant + 1 <= o < 8 implies #[trigger] self.child(node, o)
            == old_t.child(node, o) by {
            assert(mid.child(node, o) == before.child(node, o));
        }
        assert forall|k: usize, o: int|
            #[trigger] self.bounds@.contains_key(k) && k != node && 0 <= o < 8 implies #[trigger]
            self.child(k, o) == old_t.child(k, o) by {
            assert(mid.child(k, o) == before.child(k, o));
        }
        // the combined effect on the data: the cube of the child gets erased
        let eff = cube_cleared(before@, cb);
        assert(self@ == eff) by {
            if before.nodes@[child] is None {
                assert(self@ =~= eff);
            } else {
                assert(self@ =~= eff);
            }
        }
        assert forall|k: usize| #[trigger]
            before.bounds@.contains_key(k) && k != child && !cube_within(
                before.bounds@[k],
                before.bounds@[child],
            ) implies self.bounds@.contains_key(k) by {}
        self.lemma_dealloc_step(old_t, before, node, octant, child);
    }

    /// A missing child of the node does not change which positions are erased
    proof fn lemma_dealloc_skip(&self, old_t: Self, node: usize, octant: usize)
        requires
            self.wf(),
            octant < 8,
            self.bounds@.contains_key(node),
            self.nodes@[node] == old_t.nodes@[node],
            self.child(node, octant as int) == usize::MAX,
            old_t.nodes@[node] is None ==> self@ == old_t@.remove_keys(
                octants_before(self.bounds@[node], octant as int),
            ),
        ensures
            old_t.nodes@[node] is None ==> self@ == old_t@.remove_keys(
                octants_before(self.bounds@[node], octant + 1),
            ),
    {
        let nb = self.bounds@[node];
        if old_t.nodes@[node] is None {
            assert forall|q: V3c<u32>|
                cube_contains(nb, q) && spec_octant_for(nb, q) == octant implies !#[trigger]
                self@.contains_key(q) by {
                if self@.contains_key(q) {
                    let l = self.lemma_leaf_of_voxel(q);
                    self.lemma_missing_child(node, q, l);
                }
            }
            assert(self@ =~= old_t@.remove_keys(octants_before(nb, octant + 1)));
        }
    }

    /// Erasing a child of the node erases the positions of its octant
    proof fn lemma_dealloc_step(
        &self,
        old_t: Self,
        before: Self,
        node: usize,
        octant: usize,
        child: usize,
    )
        requires
            old_t.wf(),
            before.wf(),
            self.wf(),
            octant < 8,
            old_t.bounds@.contains_key(node),
            before.bounds@.contains_key(node),
            before.bounds@[node] == old_t.bounds@[node],
            before.nodes@[node] == old_t.nodes@[node],
            before.child(node, octant as int) == child,
            child != usize::MAX,
            before.child_ok(node, octant as int),
            forall|k: usize| #[trigger]
                before.bounds@.contains_key(k) ==> old_t.bounds@.contains_key(k)
                    && before.bounds@[k] == old_t.bounds@[k] && before.nodes@[k]
                    == old_t.nodes@[k],
            forall|k: usize|
                #[trigger] old_t.bounds@.contains_key(k) && (k == node || !cube_within(
                    old_t.bounds@[k],
                    old_t.bounds@[node],
                ) || spec_octant_for(old_t.bounds@[node], old_t.bounds@[k].min_position)
                    >= octant) ==> before.bounds@.contains_key(k),
            old_t.nodes@[node] is None ==> before@ == old_t@.remove_keys(
                octants_before(old_t.bounds@[node], octant as int),
            ),
            old_t.nodes@[node] is Some ==> before@ == old_t@,
            // the effect of erasing the child and its descendants
            forall|k: usize| #[trigger]
                self.bounds@.contains_key(k) ==> before.bounds@.contains_key(k)
                    && self.bounds@[k] == before.bounds@[k] && self.nodes@[k]
                    == before.nodes@[k],
            forall|k: usize|
                #[trigger] before.bounds@.contains_key(k) && k != child && !cube_within(
                    before.bounds@[k],
                    before.bounds@[child],
                ) ==> self.bounds@.contains_key(k),
            self@ == cube_cleared(before@, before.bounds@[child]),
        ensures
            forall|k: usize|
                #[trigger] old_t.bounds@.contains_key(k) && (k == node || !cube_within(
                    old_t.bounds@[k],
                    old_t.bounds@[node],
                ) || spec_octant_for(old_t.bounds@[node], old_t.bounds@[k].min_position)
                    >= octant + 1) ==> self.bounds@.contains_key(k),
            old_t.nodes@[node] is None ==> self@ == old_t@.remove_keys(
                octants_before(old_t.bounds@[node], octant + 1),
            ),
            old_t.nodes@[node] is Some ==> self@ == old_t@,
    {
        let nb = old_t.bounds@[node];
        let cb = before.bounds@[child];
        before.lemma_node_geometry(node);
        assert(cb == spec_child_bounds(nb, octant as int));
        lemma_child_within(nb, octant as int);
        assert forall|k: usize|
            #[trigger] old_t.bounds@.contains_key(k) && (k == node || !cube_within(
                old_t.bounds@[k],
                nb,
            ) || spec_octant_for(nb, old_t.bounds@[k].min_position) >= octant + 1)
                implies self.bounds@.contains_key(k) by {
            assert(before.bounds@.contains_key(k));
            let kb = old_t.bounds@[k];
            old_t.lemma_node_geometry(k);
            assert(cube_contains(kb, kb.min_position));
            if k == child || cube_within(kb, cb) {
                lemma_within_transitive(kb, cb, nb);
                assert(cube_contains(cb, kb.min_position));
                lemma_octant_unique(nb, kb.min_position, octant as int);
                if k == node {
                    assert(false);
                }
            }
        }
        old_t.lemma_node_geometry(node);
        if old_t.nodes@[node] is None {
            assert forall|q: V3c<u32>| #[trigger]
                octants_before(nb, octant + 1).contains(q) == (octants_before(
                    nb,
                    octant as int,
                ).contains(q) || cube_contains(cb, q)) by {
                if cube_contains(cb, q) {
                    lemma_within_transitive(cb, cb, nb);
                    lemma_octant_unique(nb, q, octant as int);
                }
                if cube_contains(nb, q) && spec_octant_for(nb, q) == octant {
                    lemma_octant_contains(nb, q);
                }
            }
            assert(self@ =~= old_t@.remove_keys(octants_before(nb, octant + 1)));
        } else {
            assert(before.child_ok(node, octant as int));
            assert(false);
        }
    }
}

/// Tells if the position is inside an octree of the given size
pub open spec fn in_tree(p: V3c<u32>, size: u32) -> bool {
    p.x < size && p.y < size && p.z < size
}

impl<T: Copy + PartialEq> Octree<T> {
    /// Provides the content of the given node, if the key is not the missing-child marker
    fn node(&self, node: usize) -> (content: Option<&Option<T>>)
        requires
            self.wf(),
            node == usize::MAX || self.bounds@.contains_key(node),
        ensures
            node == usize::MAX ==> content.is_none(),
            node != usize::MAX ==> content == Some(&self.nodes@[node]),
    {
        if key_might_be_valid(node) {
            proof {
                self.lemma_key_bound(node);
            }
            return Some(self.nodes.get(node));
        }
        None
    }

    /// Turns the given leaf into an internal node with 8 leaf children holding the same data
    fn make_uniform_children(&mut self, node: usize)
        requires
            old(self).wf(),
            old(self).bounds@.contains_key(node),
            old(self).nodes@[node] is Some,
            cube_divisible(old(self).bounds@[node]),
        ensures
            final(self).wf(),
            final(self)@ == old(self)@,
            final(self).nodes@[node] is None,
            final(self).bounds@.contains_key(node),
            forall|o: int| 0 <= o < 8 ==> #[trigger] final(self).child(node, o) != usize::MAX,
            forall|k: usize| #[trigger]
                old(self).bounds@.contains_key(k) ==> final(self).bounds@.contains_key(k)
                    && final(self).bounds@[k] == old(self).bounds@[k],
            final(self).root_node == old(self).root_node,
            final(self).root_size == old(self).root_size,
            final(self).auto_simplify == old(self).auto_simplify,
    {
        let ghost old_t = *old(self);
        let ghost nb = old_t.bounds@[node];
        proof {
            self.lemma_key_bound(node);
            self.lemma_node_geometry(node);
            assert forall|o: int| 0 <= o < 8 implies #[trigger] self.child(node, o)
                == usize::MAX by {
                if self.child(node, o) != usize::MAX {
                    self.lemma_child(node, o);
                }
            }
        }
        let content = *self.nodes.get(node);
        let data = content.unwrap();
        let ghost before_set = *self;
        self.set_content(node, None);
        proof {
            assert forall|o: int| 0 <= o < 8 implies #[trigger] self.child(node, o)
                == usize::MAX by {
                assert(before_set.child(node, o) == usize::MAX);
            }
        }
        let mut octant: usize = 0;
        while octant < 8
            invariant
                old_t == *old(self),
                old_t.wf(),
                old_t.bounds@.contains_key(node),
                nb == old_t.bounds@[node],
                old_t.nodes@[node] == Some(data),
                cube_divisible(nb),
                cube_in_range(nb),
                0 <= octant <= 8,
                self.wf(),
                self.bounds@.contains_key(node),
                self.bounds@[node] == nb,
                self.nodes@[node] is None,
                forall|o: int| 0 <= o < octant ==> #[trigger] self.child(node, o) != usize::MAX,
                forall|o: int| octant <= o < 8 ==> #[trigger] self.child(node, o) == usize::MAX,
                forall|k: usize| #[trigger]
                    old_t.bounds@.contains_key(k) ==> self.bounds@.contains_key(k)
                        && self.bounds@[k] == old_t.bounds@[k],
                self.root_node == old_t.root_node,
                self.root_size == old_t.root_size,
                self.auto_simplify == old_t.auto_simplify,
                self@ == cube_cleared(old_t@, nb).union_prefer_right(
                    Map::new(|q: V3c<u32>| octants_before(nb, octant as int).contains(q), |q: V3c<u32>| data),
                ),
            decreases 8 - octant,
        {
            let ghost before = *self;
            let key = self.add_child_node(node, octant, Some(data));
            proof {
                assert(before.bounds@.contains_key(node));
                self.lemma_key_bound(key);
                assert forall|o: int| 0 <= o < 8 && o != octant implies #[trigger] self.child(node, o)
                    == before.child(node, o) by {}
                lemma_child_within(nb, octant as int);
                assert forall|q: V3c<u32>| #[trigger]
                    octants_before(nb, octant + 1).contains(q) == (octants_before(
                        nb,
                        octant as int,
                    ).contains(q) || cube_contains(spec_child_bounds(nb, octant as int), q)) by {
                    if cube_contains(spec_child_bounds(nb, octant as int), q) {
                        lemma_octant_unique(nb, q, octant as int);
                    }
                    if cube_contains(nb, q) && spec_octant_for(nb, q) == octant {
                        lemma_octant_contains(nb, q);
                    }
                }
                assert(self@ =~= cube_cleared(old_t@, nb).union_prefer_right(
                    Map::new(|q: V3c<u32>| octants_before(nb, octant + 1).contains(q), |q: V3c<u32>| data),
                ));
            }
            octant = octant + 1;
        }
        proof {
            assert forall|q: V3c<u32>| #[trigger] octants_before(nb, 8).contains(q) == cube_contains(
                nb,
                q,
            ) by {}
            assert forall|q: V3c<u32>| cube_contains(nb, q) implies #[trigger] old_t@.contains_key(
                q,
            ) && old_t@[q] == data by {
                old_t.lemma_voxel_of_leaf(node, q);
            }
            assert(self@ =~= old_t@);
        }
    }
}

impl<T> Octree<T> {
    /// Every child of the node is a leaf holding the given data
    spec fn mergeable(&self, node: usize, data: T) -> bool {
        forall|o: int|
            0 <= o < 8 ==> #[trigger] self.child(node, o) != usize::MAX && self.nodes@[self.child(
                node,
                o,
            )] == Some(data)
    }

    /// The children of the node are leaves which all hold the same data
    spec fn simplifiable(&self, node: usize) -> bool {
        exists|data: T| #[trigger] self.mergeable(node, data)
    }

    /// The node is a leaf of the tree without children
    spec fn merged(&self, node: usize) -> bool {
        &&& self.bounds@.contains_key(node)
        &&& self.nodes@[node] is Some
        &&& forall|o: int| 0 <= o < 8 ==> #[trigger] self.child(node, o) == usize::MAX
    }

    /// Of the nodes on the stack, the top `k` were merged one after the other, the last of them
    /// being a leaf now; the node below them, if any, can not be merged
    spec fn simplified_up_to(&self, stack: Seq<(usize, Cube)>, k: int) -> bool {
        &&& 0 <= k <= stack.len()
        &&& k > 0 ==> self.merged(stack[stack.len() - k].0)
        &&& k < stack.len() ==> self.bounds@.contains_key(stack[stack.len() - k - 1].0)
            && !self.simplifiable(stack[stack.len() - k - 1].0)
    }
}

impl<T: Copy + PartialEq> Octree<T> {
    /// Merges the children of the node into the node, in case all of them are leaves holding the
    /// same data. Returns with true if the node was simplified
    fn simplify(&mut self, node: usize) -> (simplified: bool)
        requires
            old(self).wf(),
            node == usize::MAX || old(self).bounds@.contains_key(node),
            obeys_concrete_eq::<T>(),
        ensures
            node == usize::MAX ==> !simplified,
            node != usize::MAX ==> simplified == old(self).simplifiable(node),
            !simplified ==> *final(self) == *old(self),
            simplified ==> final(self).merged(node),
            forall|data: T| #[trigger]
                old(self).mergeable(node, data) && node != usize::MAX ==> final(self).nodes@[node]
                    == Some(data),
            final(self).wf(),
            final(self)@ == old(self)@,
            forall|k: usize|
                #[trigger] old(self).bounds@.contains_key(k) && (k == node || !cube_within(
                    old(self).bounds@[k],
                    old(self).bounds@[node],
                )) ==> final(self).bounds@.contains_key(k) && final(self).bounds@[k] == old(
                    self,
                ).bounds@[k],
            final(self).root_node == old(self).root_node,
            final(self).root_size == old(self).root_size,
            final(self).auto_simplify == old(self).auto_simplify,
    {
        let mut data: Option<T> = None;
        if key_might_be_valid(node) {
            proof {
                old(self).lemma_key_bound(node);
            }
            let mut i: usize = 0;
            while i < 8
                invariant
                    *self == *old(self),
                    self.wf(),
                    obeys_concrete_eq::<T>(),
                    self.bounds@.contains_key(node),
                    0 <= i <= 8,
                    i == 0 <==> data is None,
                    forall|o: int|
                        0 <= o < i ==> #[trigger] self.child(node, o) != usize::MAX
                            && self.nodes@[self.child(node, o)] == data,
                decreases 8 - i,
            {
                proof {
                    self.lemma_key_bound(node);
                    self.lemma_wf_basics();
                }
                let child_key = self.node_children[node * 8 + i];
                proof {
                    assert(self.child(node, i as int) == child_key);
                    if child_key != usize::MAX {
                        self.lemma_child(node, i as int);
                    }
                }
                if let Some(child) = self.node(child_key) {
                    if let Some(leaf_data) = child {
                        if data.is_none() {
                            data = Some(*leaf_data);
                        } else if data.unwrap() != *leaf_data {
                            proof {
                                reveal(obeys_concrete_eq);
                                assert forall|d: T| !#[trigger] self.mergeable(node, d) by {
                                    if self.mergeable(node, d) {
                                        assert(self.child(node, 0) != usize::MAX);
                                        assert(self.child(node, i as int) != usize::MAX);
                                    }
                                }
                            }
                            return false;
                        }
                        proof {
                            reveal(obeys_concrete_eq);
                        }
                    } else {
                        proof {
                            assert forall|d: T| !#[trigger] self.mergeable(node, d) by {
                                if self.mergeable(node, d) {
                                    assert(self.child(node, i as int) != usize::MAX);
                                }
                            }
                        }
                        return false;
                    }
                } else {
                    proof {
                        assert forall|d: T| !#[trigger] self.mergeable(node, d) by {
                            if self.mergeable(node, d) {
                                assert(self.child(node, i as int) != usize::MAX);
                            }
                        }
                    }
                    return false;
                }
                i = i + 1;
            }
            proof {
                self.lemma_simplifiable(node, data->0);
                assert(self.mergeable(node, data->0));
                assert forall|d: T| #[trigger] old(self).mergeable(node, d) implies d == data->0 by {
                    assert(self.child(node, 0) != usize::MAX);
                }
            }
            self.deallocate_children_of(node);
            let ghost between = *self;
            self.set_content(node, data);
            proof {
                assert(between.bounds@.contains_key(node));
                assert(self.bounds@.contains_key(node));
                assert(self.nodes@[node] == data);
                assert forall|o: int| 0 <= o < 8 implies #[trigger] self.child(node, o) == usize::MAX by {
                    assert(between.child(node, o) == usize::MAX);
                }
            }
            true
        } else {
            false
        }
    }

    /// When all children of the node are leaves with the same data, the node holds that data
    /// everywhere
    proof fn lemma_simplifiable(&self, node: usize, data: T)
        requires
            self.wf(),
            self.bounds@.contains_key(node),
            forall|o: int|
                0 <= o < 8 ==> #[trigger] self.child(node, o) != usize::MAX
                    && self.nodes@[self.child(node, o)] == Some(data),
        ensures
            self.nodes@[node] is None,
            forall|q: V3c<u32>|
                cube_contains(self.bounds@[node], q) ==> #[trigger] self@.contains_key(q)
                    && self@[q] == data,
            cube_filled(cube_cleared(self@, self.bounds@[node]), self.bounds@[node], data)
                == self@,
    {
        let nb = self.bounds@[node];
        self.lemma_node_geometry(node);
        self.lemma_child(node, 0);
        assert forall|q: V3c<u32>| cube_contains(nb, q) implies #[trigger] self@.contains_key(q)
            && self@[q] == data by {
            lemma_octant_contains(nb, q);
            let o = spec_octant_for(nb, q);
            self.lemma_child(node, o);
            self.lemma_voxel_of_leaf(self.child(node, o), q);
        }
        assert(cube_filled(cube_cleared(self@, nb), nb, data) =~= self@);
    }
}

impl<T: Copy + PartialEq> Octree<T> {
    /// The nodes on the stack are nodes of the tree, each containing the position, each smaller
    /// than the ones below it on the stack
    spec fn stack_ok(&self, stack: Seq<(usize, Cube)>, p: V3c<u32>) -> bool {
        &&& stack.len() >= 1
        &&& forall|i: int|
            0 <= i < stack.len() ==> #[trigger] self.bounds@.contains_key(stack[i].0)
                && self.bounds@[stack[i].0] == stack[i].1 && cube_contains(stack[i].1, p)
        &&& forall|i: int, j: int|
            0 <= i < j < stack.len() ==> #[trigger] stack[i].1.size > #[trigger] stack[j].1.size
    }

    /// Every node on a stack of nested nodes is a node of the tree whose cube holds the position
    proof fn lemma_stack_entry(&self, stack: Seq<(usize, Cube)>, p: V3c<u32>, i: int)
        requires
            self.stack_ok(stack, p),
            0 <= i < stack.len(),
        ensures
            self.bounds@.contains_key(stack[i].0),
            self.bounds@[stack[i].0] == stack[i].1,
            cube_contains(stack[i].1, p),
            forall|j: int| 0 <= j < i ==> stack[j].1.size > #[trigger] stack[i].1.size,
    {
        assert forall|j: int| 0 <= j < i implies stack[j].1.size > #[trigger] stack[i].1.size by {
            assert(stack[j].1.size > stack[i].1.size);
        }
    }

    /// Inserts the given data into the octree at the given position
    pub fn insert(&mut self, position: &V3c<u32>, data: T) -> (result: Result<(), Error>)
        requires
            old(self).wf(),
            obeys_concrete_eq::<T>(),
        ensures
            final(self).wf(),
            final(self).spec_size() == old(self).spec_size(),
            final(self).simplifies() == old(self).simplifies(),
            in_tree(*position, old(self).spec_size()) ==> result == Ok::<(), Error>(())
                && final(self)@ == old(self)@.insert(*position, data),
            !in_tree(*position, old(self).spec_size()) ==> result == Err::<(), Error>(
                Error::InvalidPosition { x: position.x, y: position.y, z: position.z },
            ) && final(self)@ == old(self)@,
    {
        let result = self.insert_at_lod(position, 1, data);
        proof {
            if in_tree(*position, old(self).spec_size()) {
                assert forall|q: V3c<u32>| same_cell(*position, q, 1) == (*position == q) by {
                    lemma_unit_cell(*position, q);
                }
                assert(filled_cell(old(self)@, *position, 1, data) =~= old(self)@.insert(
                    *position,
                    data,
                ));
            }
        }
        result
    }

    /// Inserts the given data for the octree in the given lod(level of detail) based on
    /// min_node_size: every position of the cube of that size, aligned to that size, containing
    /// the given position receives the data
    #[verifier::rlimit(60)]
    #[verifier::spinoff_prover]
    pub fn insert_at_lod(
        &mut self,
        position: &V3c<u32>,
        min_node_size: u32,
        data: T,
    ) -> (result: Result<(), Error>)
        requires
            old(self).wf(),
            obeys_concrete_eq::<T>(),
        ensures
            final(self).wf(),
            final(self).spec_size() == old(self).spec_size(),
            final(self).simplifies() == old(self).simplifies(),
            !is_power_of_two(min_node_size as nat) ==> result == Err::<(), Error>(
                Error::InvalidNodeSize(min_node_size),
            ) && final(self)@ == old(self)@,
            is_power_of_two(min_node_size as nat) && !in_tree(*position, old(self).spec_size())
                ==> result == Err::<(), Error>(
                Error::InvalidPosition { x: position.x, y: position.y, z: position.z },
            ) && final(self)@ == old(self)@,
            is_power_of_two(min_node_size as nat) && in_tree(*position, old(self).spec_size())
                ==> result == Ok::<(), Error>(()) && final(self)@ == filled_cell(
                old(self)@,
                *position,
                lod_size(min_node_size, old(self).spec_size()),
                data,
            ),
    {
        if !power_of_two(min_node_size) {
            // Only powers of two are valid sizes
            return Err(Error::InvalidNodeSize(min_node_size));
        }
        let root_bounds = root_bounds(self.root_size);
        if !bound_contains(&root_bounds, position) {
            return Err(Error::InvalidPosition { x: position.x, y: position.y, z: position.z });
        }
        let ghost old_t = *old(self);
        let ghost target_size = lod_size(min_node_size, self.root_size);
        proof {
            self.lemma_wf_basics();
        }
        // A vector does not consume significant resources in this case, e.g. a 4096*4096*4096 chunk has depth of 12
        let mut node_stack: Vec<(usize, Cube)> = Vec::new();
        node_stack.push((self.root_node, root_bounds));
        let mut needs_update = true;
        loop
            invariant_except_break
                needs_update,
            invariant
                old_t == *old(self),
                old_t.wf(),
                obeys_concrete_eq::<T>(),
                is_power_of_two(min_node_size as nat),
                cube_contains(root_bounds, *position),
                target_size == lod_size(min_node_size, old_t.root_size),
                self.wf(),
                self@ == old_t@,
                self.root_node == old_t.root_node,
                self.root_size == old_t.root_size,
                self.auto_simplify == old_t.auto_simplify,
                self.stack_ok(node_stack@, *position),
                node_stack@[node_stack@.len() - 1].1.size >= target_size,
            ensures
                self.wf(),
                self@ == old_t@,
                self.root_node == old_t.root_node,
                self.root_size == old_t.root_size,
                self.auto_simplify == old_t.auto_simplify,
                self.stack_ok(node_stack@, *position),
                node_stack@[node_stack@.len() - 1].1.size >= target_size,
                needs_update ==> node_stack@[node_stack@.len() - 1].1.size <= min_node_size,
                !needs_update ==> self.nodes@[node_stack@[node_stack@.len() - 1].0] == Some(
                    data,
                ),
            decreases node_stack@[node_stack@.len() - 1].1.size,
        {
            let (current_node_key, current_bounds) = node_stack[node_stack.len() - 1];
            proof {
                assert(self.bounds@.contains_key(current_node_key));
                self.lemma_key_bound(current_node_key);
                self.lemma_wf_basics();
                self.lemma_node_geometry(current_node_key);
            }
            let target_child_octant = child_octant_for(&current_bounds, position);
            if current_bounds.size > min_node_size {
                // iteration needs to go deeper, as current Node size is still larger, than the requested
                proof {
                    lemma_pow2_double_le(min_node_size as nat, current_bounds.size as nat);
                    lemma_pow2_half(current_bounds.size as nat);
                    lemma_octant_contains(current_bounds, *position);
                }
                let child_bounds = child_bounds_for(&current_bounds, target_child_octant);
                let child = self.node_children[current_node_key * 8 + target_child_octant];
                let ghost before = *self;
                if key_might_be_valid(child) {
                    proof {
                        assert(self.child(current_node_key, target_child_octant as int) == child);
                        self.lemma_child(current_node_key, target_child_octant as int);
                    }
                    node_stack.push((child, child_bounds));
                } else {
                    // no children are available for the target octant
                    let content = *self.nodes.get(current_node_key);
                    if content.is_some() && content.unwrap() == data {
                        // The current Node is a leaf, but the data stored equals the data to be set, so no need to go deeper as tha data already matches
                        proof {
                            reveal(obeys_concrete_eq);
                        }
                        needs_update = false;
                        break ;
                    }
                    if content.is_some() {
                        // The current Node is a leaf, which essentially represents an area where all the contained space have the same data.
                        // The contained data does not match the given data to set the position to, so all of the Nodes' children need to be created
                        // as separate Nodes with the same data as their parent to keep integrity
                        self.make_uniform_children(current_node_key);
                        proof {
                            self.lemma_key_bound(current_node_key);
                            self.lemma_wf_basics();
                        }
                        let new_child = self.node_children[current_node_key * 8
                            + target_child_octant];
                        proof {
                            assert(self.child(current_node_key, target_child_octant as int)
                                == new_child);
                            self.lemma_child(current_node_key, target_child_octant as int);
                        }
                        node_stack.push((new_child, child_bounds));
                    } else {
                        // current Node is a non-leaf Node, which doesn't have the child at the requested position, so it is inserted
                        let child_key = self.add_child_node(
                            current_node_key,
                            target_child_octant,
                            None,
                        );
                        node_stack.push((child_key, child_bounds));
                    }
                }
                proof {
                    lemma_child_within(current_bounds, target_child_octant as int);
                    let st = node_stack@;
                    assert forall|i: int| 0 <= i < st.len() implies #[trigger]
                        self.bounds@.contains_key(st[i].0) && self.bounds@[st[i].0] == st[i].1
                            && cube_contains(st[i].1, *position) by {
                        if i < st.len() - 1 {
                            assert(before.bounds@.contains_key(st[i].0));
                        }
                    }
                    assert(self.stack_ok(st, *position));
                    if target_size == min_node_size {
                        lemma_pow2_double_le(min_node_size as nat, current_bounds.size as nat);
                    } else {
                        assert(self.root_size <= min_node_size);
                        assert(current_bounds.size <= self.root_size) by {
                            self.lemma_node_geometry(current_node_key);
                        }
                    }
                }
            } else {
                break ;
            }
        }
        let (target_key, target_bounds) = node_stack[node_stack.len() - 1];
        let ghost after_loop = *self;
        proof {
            self.lemma_stack_entry(node_stack@, *position, node_stack@.len() - 1);
        }
        if needs_update {
            // current_bounds.size == min_node_size, which is the desired depth, so set content of current node
            self.deallocate_children_of(target_key);
            let ghost mid = *self;
            self.set_content(target_key, Some(data));
            proof {
                let tb = after_loop.bounds@[target_key];
                assert(self@ =~= cube_filled(after_loop@, tb, data));
            }
        }
        proof {
            self.lemma_target_cell(old_t, after_loop, target_key, *position, min_node_size, data, needs_update);
            let st = node_stack@;
            assert forall|i: int| 0 <= i < st.len() implies #[trigger]
                self.bounds@.contains_key(st[i].0) && self.bounds@[st[i].0] == st[i].1
                    && cube_contains(st[i].1, *position) by {
                after_loop.lemma_stack_entry(st, *position, i);
                after_loop.lemma_stack_entry(st, *position, st.len() - 1);
                if i < st.len() - 1 {
                    assert(st[i].1.size > st[st.len() - 1].1.size);
                }
            }
        }
        if self.auto_simplify {
            self.simplify_stack(&node_stack, position);
        }
        Ok(())
    }

    /// Tries to simplify the nodes on the stack, from its top; stops at the first node which
    /// can not be simplified, as its ancestors can not be simplified either
    fn simplify_stack(&mut self, node_stack: &Vec<(usize, Cube)>, position: &V3c<u32>)
        requires
            old(self).wf(),
            obeys_concrete_eq::<T>(),
            old(self).stack_ok(node_stack@, *position),
        ensures
            exists|k: int| #[trigger] final(self).simplified_up_to(node_stack@, k),
            final(self).wf(),
            final(self)@ == old(self)@,
            final(self).root_node == old(self).root_node,
            final(self).root_size == old(self).root_size,
            final(self).auto_simplify == old(self).auto_simplify,
    {
        let mut i = node_stack.len();
        proof {
            assert forall|j: int| 0 <= j < i implies #[trigger] self.bounds@.contains_key(
                node_stack@[j].0,
            ) && self.bounds@[node_stack@[j].0] == node_stack@[j].1 by {
                old(self).lemma_stack_entry(node_stack@, *position, j);
            }
        }
        let mut simplifiable = true;
        while simplifiable && i > 0
            invariant
                self.wf(),
                obeys_concrete_eq::<T>(),
                i <= node_stack@.len(),
                self@ == old(self)@,
                self.root_node == old(self).root_node,
                self.root_size == old(self).root_size,
                self.auto_simplify == old(self).auto_simplify,
                old(self).stack_ok(node_stack@, *position),
                forall|j: int|
                    0 <= j < i ==> #[trigger] self.bounds@.contains_key(node_stack@[j].0)
                        && self.bounds@[node_stack@[j].0] == node_stack@[j].1,
                simplifiable ==> (i < node_stack@.len() ==> self.merged(node_stack@[i as int].0)),
                !simplifiable ==> i < node_stack@.len() && self.bounds@.contains_key(
                    node_stack@[i as int].0,
                ) && !self.simplifiable(node_stack@[i as int].0) && (i + 1 < node_stack@.len()
                    ==> self.merged(node_stack@[i + 1].0)),
            decreases i,
        {
            i = i - 1;
            let ghost before = *self;
            proof {
                self.lemma_key_bound(node_stack@[i as int].0);
            }
            let simplified = self.simplify(node_stack[i].0);
            proof {
                assert forall|j: int| 0 <= j < i implies #[trigger] self.bounds@.contains_key(
                    node_stack@[j].0,
                ) && self.bounds@[node_stack@[j].0] == node_stack@[j].1 by {
                    old(self).lemma_stack_entry(node_stack@, *position, i as int);
                    assert(before.bounds@.contains_key(node_stack@[j].0));
                    assert(node_stack@[j].1.size > node_stack@[i as int].1.size);
                    let kj = node_stack@[j].0;
                    let ki = node_stack@[i as int].0;
                    assert(before.bounds@.contains_key(ki));
                    assert(before.bounds@[kj] == node_stack@[j].1);
                    assert(before.bounds@[ki] == node_stack@[i as int].1);
                    assert(!cube_within(before.bounds@[kj], before.bounds@[ki]));
                    if simplified {
                        assert(self.bounds@.contains_key(kj));
                    } else {
                        assert(*self == before);
                    }
                }
            }
            // If any Nodes fail to simplify, no need to continue because their parents can not be simplified because of it
            simplifiable = simplified;
        }
        proof {
            let len = node_stack@.len() as int;
            if simplifiable {
                assert(self.simplified_up_to(node_stack@, len));
            } else {
                assert(self.simplified_up_to(node_stack@, len - i - 1));
            }
        }
    }

    /// After the update of the target node of an insertion, the tree holds the data in the
    /// cell of the position
    proof fn lemma_target_cell(
        &self,
        old_t: Self,
        after_loop: Self,
        target: usize,
        p: V3c<u32>,
        min_node_size: u32,
        data: T,
        needs_update: bool,
    )
        requires
            old_t.wf(),
            after_loop.wf(),
            self.wf(),
            after_loop@ == old_t@,
            after_loop.root_size == old_t.root_size,
            is_power_of_two(min_node_size as nat),
            after_loop.bounds@.contains_key(target),
            cube_contains(after_loop.bounds@[target], p),
            after_loop.bounds@[target].size >= lod_size(min_node_size, old_t.root_size),
            needs_update ==> after_loop.bounds@[target].size <= min_node_size,
            !needs_update ==> after_loop.nodes@[target] == Some(data) && self == after_loop,
            needs_update ==> self@ == cube_filled(
                after_loop@,
                after_loop.bounds@[target],
                data,
            ),
        ensures
            self@ == filled_cell(old_t@, p, lod_size(min_node_size, old_t.root_size), data),
    {
        let tb = after_loop.bounds@[target];
        let s = lod_size(min_node_size, old_t.root_size);
        after_loop.lemma_node_geometry(target);
        after_loop.lemma_wf_basics();
        assert(is_power_of_two(s));
        lemma_aligned_cube_cell(tb, p);
        if needs_update {
            assert(tb.size == s);
            assert forall|q: V3c<u32>| cube_contains(tb, q) == same_cell(p, q, s) by {
                lemma_aligned_cube_cell(tb, q);
            }
            assert(self@ =~= filled_cell(old_t@, p, s, data));
        } else {
            assert forall|q: V3c<u32>| same_cell(p, q, s) implies #[trigger] old_t@.contains_key(q)
                && old_t@[q] == data by {
                lemma_cell_coarser(p, q, s, tb.size as nat);
                lemma_aligned_cube_cell(tb, q);
                after_loop.lemma_voxel_of_leaf(target, q);
            }
            assert(self@ =~= filled_cell(old_t@, p, s, data));
        }
    }
}

impl<T: Copy + PartialEq> Octree<T> {
    /// clears the voxel at the given position
    pub fn clear(&mut self, position: &V3c<u32>) -> (result: Result<(), Error>)
        requires
            old(self).wf(),
        ensures
            final(self).wf(),
            final(self).spec_size() == old(self).spec_size(),
            final(self).simplifies() == old(self).simplifies(),
            in_tree(*position, old(self).spec_size()) ==> result == Ok::<(), Error>(())
                && final(self)@ == old(self)@.remove(*position),
            !in_tree(*position, old(self).spec_size()) ==> result == Err::<(), Error>(
                Error::InvalidPosition { x: position.x, y: position.y, z: position.z },
            ) && final(self)@ == old(self)@,
    {
        let result = self.clear_at_lod(position, 1);
        proof {
            if in_tree(*position, old(self).spec_size()) {
                assert forall|q: V3c<u32>| same_cell(*position, q, 1) == (*position == q) by {
                    lemma_unit_cell(*position, q);
                }
                assert(cleared_cell(old(self)@, *position, 1) =~= old(self)@.remove(*position));
            }
        }
        result
    }

    /// Clears the data in the given lod(level of detail) based on min_node_size: every position
    /// of the cube of that size, aligned to that size, containing the given position is erased
    #[verifier::rlimit(60)]
    #[verifier::spinoff_prover]
    pub fn clear_at_lod(&mut self, position: &V3c<u32>, min_node_size: u32) -> (result: Result<
        (),
        Error,
    >)
        requires
            old(self).wf(),
        ensures
            final(self).wf(),
            final(self).spec_size() == old(self).spec_size(),
            final(self).simplifies() == old(self).simplifies(),
            !is_power_of_two(min_node_size as nat) ==> result == Err::<(), Error>(
                Error::InvalidNodeSize(min_node_size),
            ) && final(self)@ == old(self)@,
            is_power_of_two(min_node_size as nat) && !in_tree(*position, old(self).spec_size())
                ==> result == Err::<(), Error>(
                Error::InvalidPosition { x: position.x, y: position.y, z: position.z },
            ) && final(self)@ == old(self)@,
            is_power_of_two(min_node_size as nat) && in_tree(*position, old(self).spec_size())
                ==> result == Ok::<(), Error>(()) && final(self)@ == cleared_cell(
                old(self)@,
                *position,
                lod_size(min_node_size, old(self).spec_size()),
            ),
    {
        if !power_of_two(min_node_size) {
            // Only powers of two are valid sizes
            return Err(Error::InvalidNodeSize(min_node_size));
        }
        let root_bounds = root_bounds(self.root_size);
        if !bound_contains(&root_bounds, position) {
            return Err(Error::InvalidPosition { x: position.x, y: position.y, z: position.z });
        }
        let ghost old_t = *old(self);
        let ghost target_size = lod_size(min_node_size, self.root_size);
        proof {
            self.lemma_wf_basics();
        }
        // A vector does not consume significant resources in this case, e.g. a 4096*4096*4096 chunk has depth of 12
        let mut node_stack: Vec<(usize, Cube)> = Vec::new();
        node_stack.push((self.root_node, root_bounds));
        let mut target_child_octant: usize = 9;  // This init value should not be used. In case there is only one node, there is no parent of it
        let mut needs_clear = true;
        loop
            invariant_except_break
                needs_clear,
                node_stack@.len() >= 2 ==> target_child_octant < 8 && self.child(
                    node_stack@[node_stack@.len() - 2].0,
                    target_child_octant as int,
                ) == node_stack@[node_stack@.len() - 1].0,
            invariant
                old_t == *old(self),
                old_t.wf(),
                is_power_of_two(min_node_size as nat),
                cube_contains(root_bounds, *position),
                target_size == lod_size(min_node_size, old_t.root_size),
                self.wf(),
                self@ == old_t@,
                self.root_node == old_t.root_node,
                self.root_size == old_t.root_size,
                self.auto_simplify == old_t.auto_simplify,
                self.stack_ok(node_stack@, *position),
                node_stack@[node_stack@.len() - 1].1.size >= target_size,
                node_stack@.len() == 1 ==> node_stack@[0].0 == self.root_node,
            ensures
                self.wf(),
                self.root_node == old_t.root_node,
                self.root_size == old_t.root_size,
                self.auto_simplify == old_t.auto_simplify,
                self.stack_ok(node_stack@, *position),
                node_stack@.len() == 1 ==> node_stack@[0].0 == self.root_node,
                needs_clear && node_stack@.len() >= 2 ==> target_child_octant < 8 && self.child(
                    node_stack@[node_stack@.len() - 2].0,
                    target_child_octant as int,
                ) == node_stack@[node_stack@.len() - 1].0,
                needs_clear ==> self@ == old_t@ && node_stack@[node_stack@.len() - 1].1.size
                    == target_size,
                !needs_clear ==> self@ == cleared_cell(old_t@, *position, target_size),
            decreases node_stack@[node_stack@.len() - 1].1.size,
        {
            let (current_node_key, current_bounds) = node_stack[node_stack.len() - 1];
            proof {
                self.lemma_stack_entry(node_stack@, *position, node_stack@.len() - 1);
                self.lemma_key_bound(current_node_key);
                self.lemma_wf_basics();
                self.lemma_node_geometry(current_node_key);
            }
            if current_bounds.size > min_node_size {
                // iteration needs to go deeper, as current Node size is still larger, than the requested
                proof {
                    lemma_pow2_double_le(min_node_size as nat, current_bounds.size as nat);
                    lemma_pow2_half(current_bounds.size as nat);
                    lemma_octant_contains(current_bounds, *position);
                }
                target_child_octant = child_octant_for(&current_bounds, position);
                let child_bounds = child_bounds_for(&current_bounds, target_child_octant);
                let child = self.node_children[current_node_key * 8 + target_child_octant];
                let ghost before = *self;
                let ghost stack_before = node_stack@;
                assert(before.stack_ok(stack_before, *position));
                if key_might_be_valid(child) {
                    //Iteration needs to go deeper
                    proof {
                        assert(self.child(current_node_key, target_child_octant as int) == child);
                        self.lemma_child(current_node_key, target_child_octant as int);
                    }
                    node_stack.push((child, child_bounds));
                } else {
                    // no children are available for the target octant
                    if self.nodes.get(current_node_key).is_some() {
                        // The current Node is a leaf, which essentially represents an area where all the contained space have the same data.
                        // The contained data does not match the given data to set the position to, so all of the Nodes' children need to be created
                        // as separate Nodes with the same data as their parent to keep integrity
                        self.make_uniform_children(current_node_key);
                        proof {
                            self.lemma_key_bound(current_node_key);
                            self.lemma_wf_basics();
                        }
                        let new_child = self.node_children[current_node_key * 8
                            + target_child_octant];
                        proof {
                            assert(self.child(current_node_key, target_child_octant as int)
                                == new_child);
                            self.lemma_child(current_node_key, target_child_octant as int);
                        }
                        node_stack.push((new_child, child_bounds));
                    } else {
                        // current Node is a non-leaf Node, which doesn't have the child at the requested position.
                        // Nothing to do, because child didn't exist in the first place
                        proof {
                            self.lemma_nothing_to_clear(
                                current_node_key,
                                *position,
                                target_size,
                            );
                        }
                        needs_clear = false;
                        break ;
                    }
                }
                proof {
                    lemma_child_within(current_bounds, target_child_octant as int);
                    let st = node_stack@;
                    assert(st.drop_last() =~= stack_before);
                    assert forall|i: int| 0 <= i < st.len() implies #[trigger]
                        self.bounds@.contains_key(st[i].0) && self.bounds@[st[i].0] == st[i].1
                            && cube_contains(st[i].1, *position) by {
                        if i < st.len() - 1 {
                            before.lemma_stack_entry(stack_before, *position, i);
                            assert(before.bounds@.contains_key(st[i].0));
                        }
                    }
                    assert forall|i: int, j: int|
                        0 <= i < j < st.len() implies #[trigger] st[i].1.size
                        > #[trigger] st[j].1.size by {
                        if j < st.len() - 1 {
                            assert(stack_before[i].1.size > stack_before[j].1.size);
                        } else {
                            before.lemma_stack_entry(stack_before, *position, i);
                        }
                    }
                    assert(self.stack_ok(st, *position));
                    if target_size == min_node_size {
                        lemma_pow2_double_le(min_node_size as nat, current_bounds.size as nat);
                    } else {
                        assert(self.root_size <= min_node_size);
                    }
                }
            } else {
                proof {
                    if target_size == min_node_size {
                    } else {
                        assert(current_bounds.size <= self.root_size);
                    }
                }
                break ;
            }
        }
        if needs_clear {
            // current_bounds.size == min_node_size, which is the desired depth, so unset the current node and its children
            let (target_key, target_bounds) = node_stack[node_stack.len() - 1];
            let ghost after_loop = *self;
            proof {
                self.lemma_stack_entry(node_stack@, *position, node_stack@.len() - 1);
            }
            self.deallocate_children_of(target_key);
            if node_stack.len() >= 2 && target_child_octant < 9 {
                // Set the parents child to None
                let parent_key = node_stack[node_stack.len() - 2].0;
                proof {
                    after_loop.lemma_stack_entry(node_stack@, *position, node_stack@.len() - 2);
                    assert(self.bounds@.contains_key(parent_key)) by {
                        lemma_stack_sizes(node_stack@, node_stack@.len() - 2);
                    }
                    assert(self.child(parent_key, target_child_octant as int) == after_loop.child(
                        parent_key,
                        target_child_octant as int,
                    ));
                    assert(self.child(parent_key, target_child_octant as int) == target_key);
                    self.lemma_key_bound(target_key);
                }
                self.detach_child(parent_key, target_child_octant);
            } else {
                // The root node is kept in the tree, as an empty node
                self.set_content(target_key, None);
            }
            proof {
                after_loop.lemma_node_geometry(target_key);
                after_loop.lemma_cell_of_node(target_key, *position, target_size);
                assert(self@ =~= cleared_cell(old_t@, *position, target_size));
            }
        }
        Ok(())
    }

    /// Inside an octant of an internal node without child, there is no data to clear
    proof fn lemma_nothing_to_clear(&self, node: usize, p: V3c<u32>, size: nat)
        requires
            self.wf(),
            self.bounds@.contains_key(node),
            self.nodes@[node] is None,
            cube_contains(self.bounds@[node], p),
            cube_divisible(self.bounds@[node]),
            is_power_of_two(size),
            size <= self.bounds@[node].size / 2,
            self.child(node, spec_octant_for(self.bounds@[node], p)) == usize::MAX,
        ensures
            self@ == cleared_cell(self@, p, size),
    {
        let nb = self.bounds@[node];
        self.lemma_node_geometry(node);
        let o = spec_octant_for(nb, p);
        lemma_octant_contains(nb, p);
        let cb = spec_child_bounds(nb, o);
        lemma_child_aligned(nb, o);
        lemma_child_within(nb, o);
        lemma_pow2_half(nb.size as nat);
        assert forall|q: V3c<u32>| same_cell(p, q, size) implies !#[trigger] self@.contains_key(q)
            by {
            lemma_cell_coarser(p, q, size, cb.size as nat);
            lemma_aligned_cube_cell(cb, p);
            lemma_aligned_cube_cell(cb, q);
            lemma_octant_unique(nb, q, o);
            if self@.contains_key(q) {
                let l = self.lemma_leaf_of_voxel(q);
                self.lemma_missing_child(node, q, l);
            }
        }
        assert(self@ =~= cleared_cell(self@, p, size));
    }

    /// The cube of a node of the given size holds exactly the cell of that size of a position in it
    proof fn lemma_cell_of_node(&self, node: usize, p: V3c<u32>, size: nat)
        requires
            self.wf(),
            self.bounds@.contains_key(node),
            cube_contains(self.bounds@[node], p),
            self.bounds@[node].size == size,
        ensures
            forall|q: V3c<u32>| #[trigger] cube_contains(self.bounds@[node], q) == same_cell(p, q, size),
    {
        let nb = self.bounds@[node];
        self.lemma_node_geometry(node);
        lemma_aligned_cube_cell(nb, p);
        assert forall|q: V3c<u32>| #[trigger] cube_contains(nb, q) == same_cell(p, q, size) by {
            lemma_aligned_cube_cell(nb, q);
        }
    }
}

/// Sizes on a stack of nested cubes shrink from the bottom to the top
proof fn lemma_stack_sizes(stack: Seq<(usize, Cube)>, i: int)
    requires
        0 <= i < stack.len() - 1,
        forall|a: int, b: int| 0 <= a < b < stack.len() ==> #[trigger] stack[a].1.size > #[trigger] stack[b].1.size,
    ensures
        stack[i].1.size > stack[stack.len() - 1].1.size,
{
}

impl<T: Copy + PartialEq> Octree<T> {
    /// Getter function for the octree; returns a mutable reference to the data at the given
    /// position, if there is any. The data is shared by every position of the leaf it is
    /// stored in, so an update through the reference updates all of them
    pub fn get_mut(&mut self, position: &V3c<u32>) -> (result: Option<&mut T>)
        requires
            old(self).wf(),
        ensures
            final(self).wf(),
            final(self).spec_size() == old(self).spec_size(),
            final(self).simplifies() == old(self).simplifies(),
            match result {
                Some(v) => {
                    &&& old(self)@.contains_key(*position)
                    &&& *v == old(self)@[*position]
                    &&& cube_contains(old(self).leaf_cube(*position), *position)
                    &&& forall|q: V3c<u32>|
                        cube_contains(old(self).leaf_cube(*position), q) ==> #[trigger] old(
                            self,
                        )@.contains_key(q) && old(self)@[q] == old(self)@[*position]
                    &&& final(self)@ == cube_filled(
                        old(self)@,
                        old(self).leaf_cube(*position),
                        *final(v),
                    )
                },
                None => !old(self)@.contains_key(*position) && final(self)@ == old(self)@,
            },
    {
        match self.find_leaf(position) {
            Some(key) => {
                proof {
                    self.lemma_voxel_of_leaf(key, *position);
                    self.lemma_key_bound(key);
                    assert forall|q: V3c<u32>|
                        cube_contains(self.leaf_cube(*position), q) implies #[trigger] self@.contains_key(q)
                            && self@[q] == self@[*position] by {
                        self.lemma_voxel_of_leaf(key, q);
                    }
                    self.lemma_leaf_rewrite(key);
                    self.lemma_wf_basics();
                }
                let slot = self.nodes.get_mut(key);
                match slot {
                    Some(data) => Some(data),
                    None => None,
                }
            },
            None => {
                proof {
                    self.lemma_voxel_none(*position);
                }
                None
            },
        }
    }

}

impl<T> Octree<T> {
    /// Replacing the data of a leaf keeps the tree well formed, and sets every position of the leaf
    proof fn lemma_leaf_rewrite(&self, key: usize)
        requires
            self.wf(),
            self.bounds@.contains_key(key),
            self.nodes@[key] is Some,
        ensures
            forall|t: Self|
                #![trigger t.wf()]
                #![trigger t.view()]
                t.nodes.wf() && t.nodes.spec_len() == self.nodes.spec_len() && t.nodes@
                    == self.nodes@.insert(key, t.nodes@[key]) && t.nodes@[key] is Some && t.bounds
                    == self.bounds && t.parents == self.parents && t.node_children
                    == self.node_children && t.root_node == self.root_node && t.root_size
                    == self.root_size ==> t.wf() && t@ == cube_filled(
                    self@,
                    self.bounds@[key],
                    t.nodes@[key]->0,
                ),
    {
        assert forall|o: int| 0 <= o < 8 implies #[trigger] self.child(key, o) == usize::MAX by {
            if self.child(key, o) != usize::MAX {
                self.lemma_child(key, o);
            }
        }
        assert forall|t: Self|
            #![trigger t.wf()]
            #![trigger t.view()]
            t.nodes.wf() && t.nodes.spec_len() == self.nodes.spec_len() && t.nodes@
                == self.nodes@.insert(key, t.nodes@[key]) && t.nodes@[key] is Some && t.bounds
                == self.bounds && t.parents == self.parents && t.node_children
                == self.node_children && t.root_node == self.root_node && t.root_size
                == self.root_size implies t.wf() && t@ == cube_filled(
                self@,
                self.bounds@[key],
                t.nodes@[key]->0,
            ) by {
            t.lemma_content_set(*self, key, t.nodes@[key]);
        }
    }
}

/// Halving a power of two gives a power of two; a smaller power of two fits in its half
pub proof fn lemma_pow2_double_le(small: nat, big: nat)
    requires
        is_power_of_two(small),
        is_power_of_two(big),
        small < big,
    ensures
        2 * small <= big,
    decreases big,
{
    if small == 1 {
        assert(big >= 2);
        if big == 2 {
        } else {
            assert(big % 2 == 0);
        }
    } else {
        assert(small % 2 == 0 && small >= 2);
        assert(big % 2 == 0 && big >= 2);
        lemma_pow2_double_le(small / 2, big / 2);
    }
}

/// A read gives back what a write wrote: after inserting data at a position the position holds
/// the data, and every other position keeps what it held
pub proof fn lemma_insert_then_get<T>(voxels: Map<V3c<u32>, T>, p: V3c<u32>, data: T)
    ensures
        voxels.insert(p, data).contains_key(p),
        voxels.insert(p, data)[p] == data,
        forall|q: V3c<u32>|
            q != p ==> (#[trigger] voxels.insert(p, data).contains_key(q) == voxels.contains_key(q)
                && (voxels.contains_key(q) ==> voxels.insert(p, data)[q] == voxels[q])),
{
}

/// After clearing a position it holds nothing, and every other position keeps what it held
pub proof fn lemma_clear_then_get<T>(voxels: Map<V3c<u32>, T>, p: V3c<u32>)
    ensures
        !voxels.remove(p).contains_key(p),
        forall|q: V3c<u32>|
            q != p ==> (#[trigger] voxels.remove(p).contains_key(q) == voxels.contains_key(q)
                && (voxels.contains_key(q) ==> voxels.remove(p)[q] == voxels[q])),
{
}

/// Inserting at a level of detail sets every position of the cell holding the position, and
/// leaves the positions outside the cell as they were
pub proof fn lemma_filled_cell<T>(voxels: Map<V3c<u32>, T>, p: V3c<u32>, size: nat, data: T)
    ensures
        forall|q: V3c<u32>|
            same_cell(p, q, size) ==> #[trigger] filled_cell(voxels, p, size, data).contains_key(q)
                && filled_cell(voxels, p, size, data)[q] == data,
        forall|q: V3c<u32>|
            !same_cell(p, q, size) ==> (#[trigger] filled_cell(voxels, p, size, data).contains_key(q)
                == voxels.contains_key(q) && (voxels.contains_key(q) ==> filled_cell(
                voxels,
                p,
                size,
                data,
            )[q] == voxels[q])),
{
}

/// Clearing at a level of detail erases every position of the cell holding the position, and
/// leaves the positions outside the cell as they were
pub proof fn lemma_cleared_cell<T>(voxels: Map<V3c<u32>, T>, p: V3c<u32>, size: nat)
    ensures
        forall|q: V3c<u32>|
            same_cell(p, q, size) ==> !#[trigger] cleared_cell(voxels, p, size).contains_key(q),
        forall|q: V3c<u32>|
            !same_cell(p, q, size) ==> (#[trigger] cleared_cell(voxels, p, size).contains_key(q)
                == voxels.contains_key(q) && (voxels.contains_key(q) ==> cleared_cell(
                voxels,
                p,
                size,
            )[q] == voxels[q])),
{
}

/// Clearing the cell that was just filled at the same level of detail undoes the fill: what is
/// left is the same as clearing the cell before it was filled
pub proof fn lemma_clear_undoes_fill<T>(voxels: Map<V3c<u32>, T>, p: V3c<u32>, size: nat, data: T)
    ensures
        cleared_cell(filled_cell(voxels, p, size, data), p, size) == cleared_cell(voxels, p, size),
{
    assert(cleared_cell(filled_cell(voxels, p, size, data), p, size) =~= cleared_cell(
        voxels,
        p,
        size,
    ));
}

/// Filling a cell of a single position is inserting at that position
pub proof fn lemma_unit_fill_is_insert<T>(voxels: Map<V3c<u32>, T>, p: V3c<u32>, data: T)
    ensures
        filled_cell(voxels, p, 1, data) == voxels.insert(p, data),
        cleared_cell(voxels, p, 1) == voxels.remove(p),
{
    assert forall|q: V3c<u32>| same_cell(p, q, 1) == (p == q) by {
        lemma_unit_cell(p, q);
    }
    assert(filled_cell(voxels, p, 1, data) =~= voxels.insert(p, data));
    assert(cleared_cell(voxels, p, 1) =~= voxels.remove(p));
}

} // verus!